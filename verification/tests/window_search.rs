use tsuitate_bot::board::parse_usi_square;
use tsuitate_bot::kifu::{Kifu, Ply, RawFoul};
use tsuitate_bot::protocol::{Color, Role};
use tsuitate_bot::shogi::{parse_usi, Piece, Position};
use tsuitate_bot::window_search::{
    candidate_attackers, candidate_movers, classify, combine, compute_my_side,
    detects_king_recapture_foul, holds_state, is_defended, place_piece, remove_piece_at,
    replay_raw, resolve_capture_stretch, search, searching_side, tempo_to, to_opp_state, OppState,
    PlyFact, Search,
};

fn score(moves: &[&str]) -> Kifu {
    Kifu {
        plies: moves
            .iter()
            .map(|m| Ply { mv: parse_usi(m).unwrap(), fouls: vec![] })
            .collect(),
        trailing_fouls: vec![],
        directives: vec![],
    }
}

fn state(pieces: &[(&str, Role)]) -> OppState {
    OppState {
        board: pieces
            .iter()
            .map(|(s, r)| (parse_usi_square(s).unwrap(), *r))
            .collect(),
        hand: [0; 7],
    }
}

#[test]
fn the_opponent_is_taken_out_and_put_back() {
    let pos = Position::initial();
    let st = to_opp_state(&pos, Color::Gote);
    assert_eq!(st.board.len(), 20);
    assert_eq!(st.hand, [0; 7]);
    let facts: Vec<PlyFact> = vec![];
    let own = compute_my_side(&facts, Color::Sente, 0).unwrap();
    assert_eq!(own.pieces().len(), 20);
    let whole = combine(&own, &st, Color::Gote, Color::Sente);
    assert_eq!(whole.pieces(), pos.pieces());
    assert_eq!(whole.turn(), Color::Sente);
}

#[test]
fn a_piece_is_put_elsewhere_or_taken_away() {
    let at = |s: &str| parse_usi_square(s).unwrap();
    let st = state(&[("1a", Role::King), ("2b", Role::Bishop)]);
    let moved = place_piece(&st, 1, at("5e"), Role::Horse);
    assert_eq!(moved.board, vec![(at("1a"), Role::King), (at("5e"), Role::Horse)]);
    let first = place_piece(&state(&[("2b", Role::King), ("3b", Role::Gold)]), 1, at("1a"), Role::Gold);
    assert_eq!(first.board, vec![(at("1a"), Role::Gold), (at("2b"), Role::King)]);
    let gone = remove_piece_at(&st, at("2b"));
    assert_eq!(gone.board, vec![(at("1a"), Role::King)]);
    assert_eq!(remove_piece_at(&st, at("9i")).board.len(), 2);
    assert!(holds_state(&vec![gone], &state(&[("1a", Role::King)])));
    assert!(!holds_state(&vec![], &st));
}

#[test]
fn the_time_that_a_piece_needs() {
    let at = |s: &str| parse_usi_square(s).unwrap();
    assert_eq!(tempo_to(Role::Pawn, Color::Gote, at("3c"), at("3e"), false, 3), Some(2));
    assert_eq!(tempo_to(Role::Pawn, Color::Gote, at("3c"), at("3e"), false, 1), None);
    assert_eq!(tempo_to(Role::Pawn, Color::Gote, at("3c"), at("3g"), true, 9), Some(4));
    assert_eq!(tempo_to(Role::Horse, Color::Gote, at("3c"), at("3d"), false, 9), None);
    assert_eq!(tempo_to(Role::Horse, Color::Gote, at("3c"), at("3d"), true, 9), Some(1));
}

#[test]
fn every_way_to_a_square_is_set_up() {
    let at = |s: &str| parse_usi_square(s).unwrap();
    let st = state(&[("1a", Role::King), ("2b", Role::Bishop), ("8b", Role::Tokin)]);
    let ways = candidate_movers(&st, Color::Gote, at("8h"), 1, None);
    // The bishop comes as it is or promoted; the others are too far away.
    assert_eq!(ways.len(), 2);
    assert!(ways.iter().all(|a| a.tempo == 1));
    assert_eq!(ways[0].state.board[ways[0].place.unwrap()], (at("8h"), Role::Bishop));
    assert_eq!(ways[1].state.board[ways[1].place.unwrap()], (at("8h"), Role::Horse));
    // A piece that is promoted already may come, too.
    let ways = candidate_movers(&st, Color::Gote, at("8c"), 1, Some(Role::Pawn));
    assert_eq!(ways.len(), 1);
    assert_eq!(ways[0].state.board[ways[0].place.unwrap()], (at("8c"), Role::Tokin));
    let ways = candidate_movers(&st, Color::Gote, at("8h"), 1, Some(Role::Rook));
    assert!(ways.is_empty());
}

#[test]
fn attackers_are_set_up() {
    let at = |s: &str| parse_usi_square(s).unwrap();
    let st = state(&[("1a", Role::King), ("8b", Role::Pawn)]);
    let ways = candidate_attackers(&st, None, Color::Gote, 1, at("8e"));
    assert!(ways.is_empty());
    let ways = candidate_attackers(&st, None, Color::Gote, 2, at("8e"));
    assert_eq!(ways.len(), 1);
    assert_eq!(ways[0].board[1], (at("8d"), Role::Pawn));
    assert!(candidate_attackers(&st, Some(1), Color::Gote, 2, at("8e")).is_empty());
}

#[test]
fn a_defended_square_has_another_piece_behind_it() {
    let at = |s: &str| parse_usi_square(s).unwrap();
    let pos = Position::initial();
    assert!(is_defended(&pos, Color::Gote, at("3c")));
    assert!(!is_defended(&pos, Color::Gote, at("1i")));
    let mut lone = Position::empty(Color::Sente);
    lone.set(at("5e"), Some(Piece { color: Color::Gote, role: Role::Rook }));
    assert!(!is_defended(&lone, Color::Gote, at("5e")));
}

#[test]
fn a_score_is_told_as_the_player_saw_it() {
    let kifu = score(&["7g7f", "3c3d", "8h2b+", "3a2b"]);
    let raw = replay_raw(&kifu).unwrap();
    assert_eq!(raw.len(), 4);
    assert_eq!(raw[2].captured, Some(Role::Bishop));
    assert_eq!(raw[2].captured_at, parse_usi_square("2b"));
    assert_eq!(raw[3].captured, Some(Role::Bishop));
    let facts = classify(&raw, Color::Sente);
    assert!(matches!(&facts[0], PlyFact::Mine { captured: None, gives_check: false, .. }));
    assert!(matches!(&facts[1], PlyFact::Theirs { captured_at: None, gives_check: false }));
    assert!(matches!(&facts[3], PlyFact::Theirs { captured_at: Some(_), gives_check: false }));
    let own = compute_my_side(&facts, Color::Sente, 4).unwrap();
    assert_eq!(own.pieces().len(), 19);
    assert_eq!(own.hand_count(Color::Sente, Role::Bishop), 1);
    assert!(replay_raw(&score(&["7g7f", "7g7f"])).is_none());
}

#[test]
fn a_search_keeps_the_truth() {
    let kifu = score(&["7g7f", "3c3d", "8h2b+", "3a2b"]);
    let facts = classify(&replay_raw(&kifu).unwrap(), Color::Sente);
    let mut truth = Position::initial();
    for (n, ply) in kifu.plies.iter().enumerate() {
        truth.play_unchecked(&ply.mv);
        let found = search(&facts, Color::Sente, n + 1).unwrap();
        assert!(!found.states.is_empty());
        assert_eq!(found.opp_moves as usize, (n + 1) / 2);
    }
    let found = search(&facts, Color::Sente, 4).unwrap();
    // Whoever took back on 2b stands there.
    let at = parse_usi_square("2b").unwrap();
    assert!(found.states.iter().all(|s| s.board.iter().any(|p| p.0 == at)));
    let start = Search::start(Color::Sente);
    assert_eq!(start.states.len(), 1);
    assert_eq!(start.states[0].board.len(), 20);
}

#[test]
fn a_search_stops_where_nothing_is_possible() {
    // No gold can stand on 7f before the opponent has moved.
    let facts = vec![PlyFact::Mine {
        fouls: vec![],
        mv: parse_usi("7g7f").unwrap(),
        captured: Some(Role::Gold),
        gives_check: false,
    }];
    let found = search(&facts, Color::Sente, 1).unwrap();
    assert!(found.states.is_empty());
    let bad = vec![PlyFact::Mine {
        fouls: vec![],
        mv: parse_usi("P*5e").unwrap(),
        captured: Some(Role::Pawn),
        gives_check: false,
    }];
    assert!(search(&bad, Color::Sente, 1).is_none());
}

#[test]
fn a_refused_king_shows_a_defender() {
    let at = |s: &str| parse_usi_square(s).unwrap();
    let mut own = Position::empty(Color::Sente);
    own.set(at("5i"), Some(Piece { color: Color::Sente, role: Role::King }));
    let facts = vec![
        PlyFact::Theirs { captured_at: Some(at("5h")), gives_check: true },
        PlyFact::Mine {
            fouls: vec![parse_usi("5i5h").unwrap()],
            mv: parse_usi("5i4i").unwrap(),
            captured: None,
            gives_check: false,
        },
    ];
    assert!(detects_king_recapture_foul(&facts, 0, Color::Sente, &own, at("5h")));
    assert!(!detects_king_recapture_foul(&facts, 0, Color::Sente, &own, at("4h")));
    assert!(!detects_king_recapture_foul(&facts, 1, Color::Sente, &own, at("5h")));
    // Only a side with a second piece near enough explains the capture then.
    let alone = vec![state(&[("5g", Role::Gold), ("1a", Role::King)])];
    let free = resolve_capture_stretch(&alone, &own, Color::Gote, at("5h"), 1, false, None);
    assert_eq!(free.len(), 1);
    let held = resolve_capture_stretch(&alone, &own, Color::Gote, at("5h"), 1, true, None);
    assert!(held.is_empty());
    let two = vec![state(&[("5g", Role::Gold), ("4g", Role::Gold), ("1a", Role::King)])];
    let held = resolve_capture_stretch(&two, &own, Color::Gote, at("5h"), 1, true, None);
    assert!(!held.is_empty());
}

#[test]
fn fouls_of_a_score_are_told() {
    let at = |s: &str| parse_usi_square(s).unwrap();
    let mut kifu = score(&["7g7f"]);
    kifu.plies[0].fouls.push(RawFoul::Board { from: at("8h"), to: at("2b"), role: Role::Horse });
    let raw = replay_raw(&kifu).unwrap();
    assert_eq!(raw[0].fouls, vec![parse_usi("8h2b+").unwrap()]);
}

#[test]
fn the_score_says_whose_search_it_is() {
    let mut kifu = score(&["7g7f", "3c3d", "2g2f"]);
    let raw = replay_raw(&kifu).unwrap();
    assert_eq!(searching_side(&kifu, &raw, 1), Color::Gote);
    assert_eq!(searching_side(&kifu, &raw, 2), Color::Sente);
    // Beyond the last move it is the side that made it.
    assert_eq!(searching_side(&kifu, &raw, 3), Color::Sente);
    kifu.directives.push(("ply".to_string(), "1".to_string()));
    assert_eq!(searching_side(&kifu, &raw, 2), Color::Gote);
    kifu.directives[0].1 = "3".to_string();
    assert_eq!(searching_side(&kifu, &raw, 1), Color::Gote);
    kifu.directives[0].1 = "x".to_string();
    assert_eq!(searching_side(&kifu, &raw, 2), Color::Sente);
}
