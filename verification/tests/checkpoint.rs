use tsuitate_bot::checkpoint::{
    candidates, eventual_tag, kif_ending, kif_path, log_lens, phase_tag, restore, restore_message, split_of,
    stratified_pick, Candidate, Deck, DeckEntry, GameCandidates, RestoreError, DECK_VERSION,
};
use tsuitate_bot::kifu::{replay, Kifu, Ply, RawFoul};
use tsuitate_bot::protocol::{Color, FoulRecord, GameEndPayload, MoveRecord, Role};
use tsuitate_bot::replay::replay_game;
use tsuitate_bot::shogi::parse_usi;

fn sample_end() -> GameEndPayload {
    let moves: Vec<(&str, Color)> = vec![
        ("7g7f", Color::Sente),
        ("3c3d", Color::Gote),
        ("2g2f", Color::Sente),
        ("8c8d", Color::Gote),
        ("2f2e", Color::Sente),
        ("8d8e", Color::Gote),
        ("8h2b+", Color::Sente),
        ("3a2b", Color::Gote),
        ("B*4e", Color::Sente),
    ];
    GameEndPayload {
        result: "sente_win".to_string(),
        reason: "foul_limit".to_string(),
        moves: moves
            .iter()
            .map(|&(usi, by_color)| MoveRecord {
                usi: usi.to_string(),
                by_color,
                ms: 0,
                fouls_before: 0,
            })
            .collect(),
        foul_attempts: vec![
            FoulRecord {
                move_number: 4,
                by_color: Color::Gote,
                usi: "P*3c".to_string(),
            },
            FoulRecord {
                move_number: 7,
                by_color: Color::Sente,
                usi: "P*2c".to_string(),
            },
        ],
    }
}

fn sample_score() -> Kifu {
    let end = sample_end();
    Kifu {
        plies: end
            .moves
            .iter()
            .enumerate()
            .map(|(i, m)| Ply {
                mv: parse_usi(&m.usi).unwrap(),
                fouls: end
                    .foul_attempts
                    .iter()
                    .filter(|f| f.move_number as usize == i + 1)
                    .map(|f| RawFoul::Drop {
                        role: Role::Pawn,
                        to: parse_usi(&f.usi).unwrap().target(),
                    })
                    .collect(),
            })
            .collect(),
        trailing_fouls: vec![],
        directives: vec![],
    }
}

/// Only decisions before any foul of their turn are offered.
#[test]
fn candidates_are_turn_boundaries_only() {
    let end = sample_end();
    let cands = candidates(&end, 0).expect("the record holds together");
    assert!(!cands.is_empty());
    assert!(cands.iter().all(|c| c.ply != 3 && c.ply != 6));
    assert!(cands.iter().any(|c| c.ply == 4));
    assert!(cands.iter().all(|c| c.ply != 0));
}

#[test]
fn min_remaining_plies_filters_tail() {
    let end = sample_end();
    let cands = candidates(&end, 4).expect("the record holds together");
    assert!(cands.iter().all(|c| c.remaining_plies >= 4));
    assert!(cands.iter().all(|c| c.ply <= 5));
}

/// A score replays to the same states as the record of the game.
#[test]
fn a_score_replays_like_the_record() {
    let end = sample_end();
    let score = sample_score();
    let game = replay_game(&end);
    assert!(game.ok);
    let mut seen = 0;
    for d in game.decisions.iter().filter(|d| d.fouls_this_turn == 0) {
        let rep = replay(&score, d.plies as usize).expect("the score holds together");
        assert_eq!(rep.pos.pieces(), d.pos.pieces());
        assert_eq!(rep.pos.move_number(), d.pos.move_number());
        assert_eq!(rep.logs.sente.events(), d.logs.sente.events());
        assert_eq!(rep.logs.gote.events(), d.logs.gote.events());
        assert_eq!(rep.fouls, d.fouls);
        assert_eq!(rep.plies, d.plies);
        assert_eq!(rep.pos.turn(), d.side);
        seen += 1;
    }
    assert!(seen >= 5);
}

#[test]
fn stratified_pick_is_deterministic_and_one_per_game() {
    let end = sample_end();
    let games: Vec<GameCandidates> = (0..6)
        .map(|i| GameCandidates {
            game_id: format!("game{i:03}"),
            candidates: candidates(&end, 0).expect("the record holds together"),
        })
        .collect();
    let a = stratified_pick(&games, 4, 20260823);
    let b = stratified_pick(&games, 4, 20260823);
    assert_eq!(a.len(), 4);
    assert_eq!(
        a.iter().map(|(g, c)| (g.clone(), c.ply)).collect::<Vec<_>>(),
        b.iter().map(|(g, c)| (g.clone(), c.ply)).collect::<Vec<_>>()
    );
    let mut ids: Vec<&String> = a.iter().map(|(g, _)| g).collect();
    ids.sort();
    ids.dedup();
    assert_eq!(ids.len(), 4);
    assert!(a.iter().any(|(_, c)| c.side == Color::Sente));
    assert!(a.iter().any(|(_, c)| c.side == Color::Gote));
}

#[test]
fn a_deck_does_not_depend_on_the_order_of_the_games() {
    let end = sample_end();
    let game = |i: usize| GameCandidates {
        game_id: format!("game{i:03}"),
        candidates: candidates(&end, 0).expect("the record holds together"),
    };
    let up: Vec<GameCandidates> = (0..9).map(game).collect();
    let down: Vec<GameCandidates> = (0..9).rev().map(game).collect();
    for limit in [0, 4, 20] {
        let a = stratified_pick(&up, limit, 99);
        let b = stratified_pick(&down, limit, 99);
        let plain = |v: &[(String, Candidate)]| {
            v.iter().map(|(g, c)| (g.clone(), c.ply, c.tags.clone())).collect::<Vec<_>>()
        };
        assert_eq!(plain(&a), plain(&b));
        assert_eq!(a.len(), if limit == 4 { 4 } else { 9 });
        assert!(a.windows(2).all(|w| w[0].0 < w[1].0));
        let offered = candidates(&end, 0).expect("the record holds together");
        for (_, c) in &a {
            assert!(offered.iter().any(|o| o.ply == c.ply && o.tags == c.tags));
        }
    }
}

#[test]
fn two_tags_are_enough_to_pick_by() {
    let end = sample_end();
    let games: Vec<GameCandidates> = (0..3)
        .map(|i| {
            let mut cands = candidates(&end, 0).expect("the record holds together");
            for (n, c) in cands.iter_mut().enumerate() {
                c.tags.truncate(2 + n % 3);
            }
            GameCandidates { game_id: format!("g{i}"), candidates: cands }
        })
        .collect();
    assert_eq!(stratified_pick(&games, 0, 1).len(), 3);
}

#[test]
fn split_is_stable_per_game() {
    for i in 0..50 {
        let id = format!("game{i:03}");
        assert_eq!(split_of(&id, 50, 7), split_of(&id, 50, 7));
    }
    let dev = (0..200)
        .filter(|i| split_of(&format!("g{i}"), 50, 7) == "dev")
        .count();
    assert!((60..140).contains(&dev), "{dev}/200");
    assert_eq!(split_of("anything", 100, 7), "dev");
    assert_eq!(split_of("anything", 0, 7), "validation");
}

fn entry(ply: usize, tags: &[&str]) -> DeckEntry {
    DeckEntry {
        id: "one".to_string(),
        kif: "one.kif".to_string(),
        ply,
        split: "dev".to_string(),
        tags: tags.iter().map(|t| t.to_string()).collect(),
    }
}

#[test]
fn a_checkpoint_is_restored_where_a_turn_starts() {
    let score = sample_score();
    let rep = restore(&entry(5, &[]), &score).unwrap();
    assert_eq!(rep.plies, 5);
    assert_eq!(rep.fouls, [0, 1]);
    // Five moves, and the own foul of Gote.
    assert_eq!(log_lens(&rep.logs), [6, 6]);
    let beyond = restore(&entry(10, &[]), &score).unwrap_err();
    assert_eq!(beyond, RestoreError::BeyondScore { plies: 9 });
    assert_eq!(
        restore_message(&entry(10, &[]), &beyond),
        "one: ply=10 が棋譜の手数 9 を超えています"
    );
    let within = restore(&entry(6, &[]), &score).unwrap_err();
    assert_eq!(within, RestoreError::NotATurnStart);
    assert!(restore_message(&entry(6, &[]), &within).contains("手番境界ではありません"));
    let mut broken = sample_score();
    broken.plies[0].mv = parse_usi("7g7e").unwrap();
    let fault = restore(&entry(2, &[]), &broken).unwrap_err();
    assert_eq!(fault, RestoreError::BrokenScore);
    assert!(restore_message(&entry(2, &[]), &fault).starts_with("one: ply=2"));
}

#[test]
fn a_deck_knows_its_version_and_its_entries() {
    let mut deck = Deck {
        version: DECK_VERSION,
        source: "test".to_string(),
        opponent: "v1".to_string(),
        min_remaining_plies: 0,
        entries: vec![entry(1, &["gote", "check"]), entry(2, &["sente"])],
    };
    assert!(deck.check_version().is_ok());
    deck.version = 2;
    assert_eq!(
        deck.check_version().unwrap_err(),
        "デッキ version 2 は未対応です（対応 1）"
    );
    assert_eq!(deck.entry("one").unwrap().ply, 1);
    assert!(deck.entry("two").is_none());
    assert!(deck.entries[0].has_tag("check"));
    assert_eq!(deck.entries[0].side(), Color::Gote);
    assert_eq!(deck.entries[1].side(), Color::Sente);
    assert_eq!(kif_path("decks", &deck.entries[0]), "decks/one.kif");
    assert_eq!(kif_path("", &deck.entries[0]), "one.kif");
}

#[test]
fn a_deck_is_named_by_its_contents() {
    let deck = Deck {
        version: DECK_VERSION,
        source: "a\"b\\c\n\t\u{1}\u{7f}日本".to_string(),
        opponent: "v1".to_string(),
        min_remaining_plies: 20,
        entries: vec![entry(1, &["gote", "check"]), entry(2, &[])],
    };
    let text = |s: &str| serde_json::to_string(s).unwrap();
    let line = |e: &DeckEntry| {
        let tags: Vec<String> = e.tags.iter().map(|t| text(t)).collect();
        format!(
            "{{\"id\":{},\"kif\":{},\"ply\":{},\"split\":{},\"tags\":[{}]}}",
            text(&e.id),
            text(&e.kif),
            e.ply,
            text(&e.split),
            tags.join(",")
        )
    };
    let entries: Vec<String> = deck.entries.iter().map(line).collect();
    assert_eq!(
        deck.text(),
        format!(
            "{{\"version\":1,\"source\":\"a\\\"b\\\\c\\n\\t\\u0001\u{7f}日本\",\"opponent\":\"v1\",\
             \"min_remaining_plies\":20,\"entries\":[{}]}}",
            entries.join(",")
        )
    );
    let value: serde_json::Value = serde_json::from_str(&deck.text()).unwrap();
    assert_eq!(value["source"], serde_json::Value::String(deck.source.clone()));
    assert_eq!(deck.hash().len(), 16);
    let other = Deck { opponent: "v2".to_string(), entries: vec![], ..deck };
    assert_eq!(
        Deck { source: "s".to_string(), ..other }.hash(),
        "c6b0182a5adb2d08"
    );
}

#[test]
fn tags_tell_the_phase_and_the_result() {
    assert_eq!(phase_tag(49), "early-middle");
    assert_eq!(phase_tag(50), "middle");
    assert_eq!(phase_tag(90), "endgame");
    assert_eq!(eventual_tag("sente_win", Color::Sente), "eventual-win");
    assert_eq!(eventual_tag("sente_win", Color::Gote), "eventual-loss");
    assert_eq!(kif_ending("foul_limit"), Some("反則負け"));
    assert_eq!(kif_ending("resign"), Some("投了"));
    assert_eq!(kif_ending("elsewhere"), None);
}
