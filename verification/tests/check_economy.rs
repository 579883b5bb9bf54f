use tsuitate_bot::board::{parse_usi_square, Coord};
use tsuitate_bot::check_economy::{
    check_turns, classify_check_foul, decision_groups, entry_replayed, sq, true_checkers,
    CheckAttempt, CheckFoulReason, CheckMoveKind, CheckTurn, TurnType,
};
use tsuitate_bot::kifu::fresh_game;
use tsuitate_bot::observation::Observation;
use tsuitate_bot::protocol::{Color, FoulRecord, GameEndPayload, MoveRecord, Role};
use tsuitate_bot::replay::{add_foul_obs, replay_game};
use tsuitate_bot::shogi::{parse_usi, Piece, Position};

fn attempt(kind: CheckMoveKind, was_legal: bool, order: usize) -> CheckAttempt {
    CheckAttempt {
        usi: "7g7f".to_string(),
        mv: parse_usi("7g7f").unwrap(),
        kind,
        order,
        was_legal,
        truth_enemy_at_to: false,
        truth_checker_at_to: false,
    }
}

fn turn(attempts: Vec<CheckAttempt>) -> CheckTurn {
    let accepted = attempts.iter().position(|a| a.was_legal);
    CheckTurn {
        move_number: 1,
        position_index: 0,
        fouls_before: 0,
        attempts,
        accepted,
        accepted_legal_at_entry: None,
        legal_candidates_at_entry: 0,
        best_legal_rank_at_entry: None,
        solver_at_entry: true,
        accepted_rank_at_entry: None,
        candidates_at_entry: 0,
        hypotheses_at_entry: 0,
    }
}

/// 型分類は最初の反則と受理手の粗い束で決まる
#[test]
fn types_follow_the_first_foul_and_the_coarse_kind_of_the_accepted_move() {
    assert_eq!(
        turn(vec![attempt(CheckMoveKind::King, true, 0)]).turn_type(),
        TurnType::NoFoul
    );
    assert_eq!(
        turn(vec![
            attempt(CheckMoveKind::CheckerCapture, false, 0),
            attempt(CheckMoveKind::King, true, 1)
        ])
        .turn_type(),
        TurnType::NonKingThenKing
    );
    assert_eq!(
        turn(vec![
            attempt(CheckMoveKind::OtherBoard, false, 0),
            attempt(CheckMoveKind::CheckerCapture, true, 1)
        ])
        .turn_type(),
        TurnType::NonKingThenNonKing
    );
    assert_eq!(
        turn(vec![
            attempt(CheckMoveKind::King, false, 0),
            attempt(CheckMoveKind::King, true, 1)
        ])
        .turn_type(),
        TurnType::KingThenKing
    );
    assert_eq!(
        turn(vec![attempt(CheckMoveKind::King, false, 0)]).turn_type(),
        TurnType::Unfinished
    );
}

fn obs_foul(mn: u32, usi: &str) -> Observation {
    Observation::MyFoul {
        move_number: mn,
        usi: usi.to_string(),
    }
}

fn obs_move(mn: u32, usi: &str) -> Observation {
    Observation::MyMove {
        move_number: mn,
        usi: usi.to_string(),
        captured: None,
    }
}

fn obs_other(mn: u32) -> Observation {
    Observation::OpponentMoved {
        move_number: mn,
        captured_my_piece_at: None,
    }
}

/// 決定点の束ね方と手数の対応
#[test]
fn decision_points_are_grouped_by_move_number() {
    let obs = vec![
        obs_move(2, "7g7f"),
        obs_other(3),
        obs_foul(3, "5i5h"),
        obs_foul(3, "5i4h"),
        obs_move(4, "5i6h"),
        obs_other(5),
        obs_move(6, "6h7h"),
    ];
    let groups = decision_groups(&obs);
    assert_eq!(groups.len(), 3);
    assert_eq!(groups[0].iter().map(|g| g.0).collect::<Vec<_>>(), vec![1]);
    assert_eq!(groups[1].len(), 3);
    assert_eq!(groups[1].iter().map(|g| g.0).collect::<Vec<_>>(), vec![3, 3, 3]);
    assert!(groups[1].iter().map(|g| g.3).eq([false, false, true]));
    assert_eq!(groups[2][0].0, 5);
}

/// 受理手のあとに同じ手数の手番が続いても分ける
#[test]
fn a_turn_after_an_accepted_move_is_kept_apart() {
    let obs = vec![obs_move(2, "7g7f"), obs_move(2, "2g2f")];
    let groups = decision_groups(&obs);
    assert_eq!(groups.len(), 2);
}

fn piece(color: Color, role: Role) -> Piece {
    Piece { color, role }
}

fn at(usi: &str) -> Coord {
    parse_usi_square(usi).unwrap()
}

/// 王手中の反則の原因を真実から分類する
#[test]
fn causes_of_fouls_in_check_follow_the_truth() {
    let mut pos = Position::empty(Color::Sente);
    pos.set(at("5i"), Some(piece(Color::Sente, Role::King)));
    pos.set(at("5d"), Some(piece(Color::Gote, Role::Rook)));
    pos.set(at("8a"), Some(piece(Color::Gote, Role::King)));
    assert!(pos.in_check(Color::Sente));
    assert_eq!(
        classify_check_foul(&pos, Color::Sente, &parse_usi("5i5h").unwrap()),
        CheckFoulReason::CheckerRemains
    );

    let mut sup = Position::empty(Color::Sente);
    sup.set(at("5i"), Some(piece(Color::Sente, Role::King)));
    sup.set(at("5h"), Some(piece(Color::Gote, Role::Gold)));
    sup.set(at("5a"), Some(piece(Color::Gote, Role::Rook)));
    sup.set(at("8a"), Some(piece(Color::Gote, Role::King)));
    assert!(sup.in_check(Color::Sente));
    assert_eq!(
        classify_check_foul(&sup, Color::Sente, &parse_usi("5i5h").unwrap()),
        CheckFoulReason::DefendedCapture
    );

    let mut hid = Position::empty(Color::Sente);
    hid.set(at("5i"), Some(piece(Color::Sente, Role::King)));
    hid.set(at("5d"), Some(piece(Color::Gote, Role::Rook)));
    hid.set(at("4a"), Some(piece(Color::Gote, Role::Lance)));
    hid.set(at("8a"), Some(piece(Color::Gote, Role::King)));
    assert_eq!(
        classify_check_foul(&hid, Color::Sente, &parse_usi("5i4i").unwrap()),
        CheckFoulReason::HiddenAttack
    );
}

#[test]
fn checkers_are_found_in_the_truth() {
    let mut pos = Position::empty(Color::Sente);
    pos.set(at("5i"), Some(piece(Color::Sente, Role::King)));
    pos.set(at("5d"), Some(piece(Color::Gote, Role::Rook)));
    pos.set(at("4h"), Some(piece(Color::Gote, Role::Gold)));
    pos.set(at("1a"), Some(piece(Color::Gote, Role::Gold)));
    let mut found = true_checkers(&pos, Color::Sente);
    found.sort_by_key(|(c, _)| (c.file, c.rank));
    assert_eq!(found, vec![(at("4h"), Role::Gold), (at("5d"), Role::Rook)]);
    assert_eq!(sq(at("4h")), "4h");
}

#[test]
fn the_beginning_of_a_turn_is_found_again() {
    let mut rep = fresh_game();
    let start = rep.logs.of(Color::Sente).events().len();
    for usi in ["5i5h", "7g7e"] {
        add_foul_obs(
            Color::Sente,
            usi.to_string(),
            &rep.pos,
            &mut rep.logs,
            &mut rep.fouls,
        );
    }
    assert_eq!(rep.fouls, [2, 0]);
    let entry = entry_replayed(&rep, Color::Sente, 2).unwrap();
    assert_eq!(entry.fouls, [0, 0]);
    assert_eq!(entry.logs.of(Color::Sente).events().len(), start);
    assert_eq!(entry.logs.of(Color::Gote).events().len(), start);
    assert!(entry_replayed(&rep, Color::Sente, 3).is_none());
    assert!(entry_replayed(&rep, Color::Gote, 1).is_none());
}

fn game_with_a_check() -> GameEndPayload {
    let moves = [
        "7g7f", "3c3d", "8h2b+", "3a2b", "9g9f", "B*7g", "8i7g", "8c8d",
    ];
    GameEndPayload {
        result: "draw".to_string(),
        reason: "test".to_string(),
        moves: moves
            .iter()
            .enumerate()
            .map(|(i, usi)| MoveRecord {
                usi: usi.to_string(),
                by_color: if i % 2 == 0 { Color::Sente } else { Color::Gote },
                ms: 0,
                fouls_before: 0,
            })
            .collect(),
        foul_attempts: vec![FoulRecord {
            move_number: 7,
            by_color: Color::Sente,
            usi: "5i6h".to_string(),
        }],
    }
}

#[test]
fn a_turn_in_check_is_followed_through_its_fouls() {
    let replay = replay_game(&game_with_a_check());
    assert!(replay.ok);
    let positions: Vec<Position> = replay.decisions.iter().map(|d| d.pos).collect();
    let log = replay.last.logs.of(Color::Sente);
    let mut turns = check_turns(log.events(), &positions, Color::Sente, true);
    assert_eq!(turns.len(), 1);
    let t = &turns[0];
    assert_eq!(t.move_number, 7);
    assert_eq!(t.attempts.len(), 2);
    assert_eq!(t.fouls(), 1);
    assert_eq!(t.accepted, Some(1));
    assert_eq!(t.accepted_legal_at_entry, Some(true));
    assert_eq!(t.turn_type(), TurnType::KingThenNonKing);
    assert_eq!(t.first_foul().unwrap().usi, "5i6h");
    assert_eq!(t.accepted_attempt().unwrap().usi, "8i7g");
    assert_eq!(t.attempts[1].kind, CheckMoveKind::CheckerCapture);
    assert!(t.attempts[1].truth_checker_at_to);
    assert!(t.solver_at_entry && t.hypotheses_at_entry > 0);
    assert_eq!(t.legal_candidates_at_entry, positions[6].legal_moves().len());
    let ranked = vec!["5i6h".to_string(), "6i6h".to_string(), "8i7g".to_string()];
    assert!(turns[0].best_legal_rank_at_entry.is_none());
    assert!(turns[0].accepted_rank_at_entry.is_none());
    turns[0].set_ranking(&ranked, &positions[6]);
    assert_eq!(turns[0].best_legal_rank_at_entry, Some(2));
    assert_eq!(turns[0].accepted_rank_at_entry, Some(3));
    assert!(check_turns(
        replay.last.logs.of(Color::Gote).events(),
        &positions,
        Color::Gote,
        true
    )
    .is_empty());
}
