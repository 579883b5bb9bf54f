use tsuitate_bot::board::parse_usi_square;
use tsuitate_bot::check_mining::{ended_by_fouls, hit_name, mine_checks, HitKind, Missed};
use tsuitate_bot::protocol::{Color, FoulRecord, GameEndPayload, MoveRecord, Role};

const WORTH: [i64; 8] = [1, 3, 4, 5, 6, 8, 10, 100];

fn game(moves: &[&str], fouls: &[(u32, Color, &str)]) -> GameEndPayload {
    GameEndPayload {
        result: "gote_win".to_string(),
        reason: "resign".to_string(),
        moves: moves
            .iter()
            .enumerate()
            .map(|(i, usi)| MoveRecord {
                usi: usi.to_string(),
                by_color: if i % 2 == 0 { Color::Sente } else { Color::Gote },
                ms: 0,
                fouls_before: 0,
            })
            .collect(),
        foul_attempts: fouls
            .iter()
            .map(|(n, by_color, usi)| FoulRecord {
                move_number: *n,
                by_color: *by_color,
                usi: usi.to_string(),
            })
            .collect(),
    }
}

#[test]
fn a_king_that_flees_from_a_weak_checker_is_noted() {
    // The horse on 3c could be taken by the knight or by the bishop; the king steps away.
    let end = game(
        &["7g7f", "8c8d", "8h3c+", "5a6b"],
        &[(4, Color::Gote, "8d8e"), (4, Color::Gote, "9c9d")],
    );
    let found = mine_checks(&end, Color::Gote, 2, &WORTH);
    assert!(found.ok);
    assert_eq!(found.check_decisions, 1);
    let kinds: Vec<HitKind> = found.hits.iter().map(|h| h.kind).collect();
    assert!(kinds.contains(&HitKind::Foul));
    assert!(kinds.contains(&HitKind::Flee));
    let flee = found.hits.iter().find(|h| h.kind == HitKind::Flee).unwrap();
    assert_eq!(flee.ply, 3);
    assert_eq!(flee.side, Color::Gote);
    assert_eq!(flee.actual, "5a6b");
    assert_eq!(flee.target, "2a3c");
    assert_eq!(
        flee.checkers,
        vec![(parse_usi_square("3c").unwrap(), Role::Horse)]
    );
    assert_eq!(
        flee.missed,
        Some(Missed { checker: Role::Horse, capturer: Role::Knight, recaptured: false })
    );
    assert_eq!(flee.fouls, vec!["8d8e".to_string(), "9c9d".to_string()]);
}

#[test]
fn few_fouls_and_a_capture_are_not_worth_a_look() {
    let end = game(
        &["7g7f", "8c8d", "8h3c+", "2a3c"],
        &[(4, Color::Gote, "8d8e")],
    );
    let found = mine_checks(&end, Color::Gote, 2, &WORTH);
    assert!(found.hits.is_empty());
    let found = mine_checks(&end, Color::Gote, 1, &WORTH);
    assert!(!found.hits.is_empty());
    assert!(found.hits.iter().all(|h| h.kind == HitKind::Foul && h.missed.is_none()));
    assert!(found.hits.iter().all(|h| h.target == "2a3c"));
    assert_eq!(mine_checks(&end, Color::Sente, 0, &WORTH).check_decisions, 0);
}

#[test]
fn a_broken_record_counts_up_to_its_fault() {
    let end = game(&["7g7f", "8c8d", "8h3c+", "5a6b", "1a1b"], &[]);
    let found = mine_checks(&end, Color::Gote, 9, &WORTH);
    assert!(!found.ok);
    assert_eq!(found.check_decisions, 1);
    assert_eq!(found.hits.len(), 1);
}

#[test]
fn hits_have_names() {
    assert_eq!(hit_name("human", HitKind::Foul, 3), "human-foul03");
    assert_eq!(hit_name("human", HitKind::Flee, 12), "human-flee12");
    assert_eq!(HitKind::Foul.label(), "foul");
    assert_eq!(HitKind::Flee.label(), "flee");
}

#[test]
fn a_foul_after_the_last_move_ended_the_game() {
    assert!(ended_by_fouls(&game(&["7g7f"], &[(2, Color::Gote, "8b2b")])));
    assert!(!ended_by_fouls(&game(&["7g7f"], &[(1, Color::Sente, "8h2b")])));
    assert!(!ended_by_fouls(&game(&[], &[])));
}
