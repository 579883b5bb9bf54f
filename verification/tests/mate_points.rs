use tsuitate_bot::continuation::Arm;
use tsuitate_bot::mate_points::{
    covered_safe, decision_state, decision_states, head_of_order, limit_points, plan_units, spaced,
    PolicyOrders,
};
use tsuitate_bot::protocol::{
    ClockState, Color, FoulCounts, FoulRecord, GameEndPayload, GameStatus, Hand, MoveRecord,
    PlayerView, Role, VisiblePiece,
};
use tsuitate_bot::shogi::parse_usi;

fn texts(list: &[&str]) -> Vec<String> {
    list.iter().map(|s| s.to_string()).collect()
}

fn ended(moves: &[&str], fouls: &[(u32, Color, &str)]) -> GameEndPayload {
    GameEndPayload {
        result: "draw".to_string(),
        reason: "test".to_string(),
        moves: moves
            .iter()
            .enumerate()
            .map(|(i, usi)| MoveRecord {
                usi: usi.to_string(),
                by_color: if i % 2 == 0 { Color::Sente } else { Color::Gote },
                ms: 0,
                fouls_before: 0,
            })
            .collect(),
        foul_attempts: fouls
            .iter()
            .map(|(n, color, usi)| FoulRecord {
                move_number: *n,
                by_color: *color,
                usi: usi.to_string(),
            })
            .collect(),
    }
}

#[test]
fn decisions_are_restored_by_their_number() {
    let end = ended(&["7g7f", "3c3d", "8h2b+"], &[(3, Color::Sente, "8h1a+")]);
    let first = decision_state(&end, 0).unwrap();
    assert_eq!(first.rep.plies, 0);
    assert!(first.tried.is_empty());
    let third = decision_state(&end, 2).unwrap();
    assert_eq!(third.rep.plies, 2);
    assert_eq!(third.tried, ["8h1a+"]);
    assert!(decision_state(&end, 9).is_none());
    let some = decision_states(&end, &vec![2, 9, 0]);
    let numbers: Vec<usize> = some.iter().map(|(i, _)| *i).collect();
    assert_eq!(numbers, [2, 0]);
    assert_eq!(some[0].1.rep.plies, 2);
}

#[test]
fn safe_moves_count_where_they_can_be_tried() {
    let view = PlayerView {
        game_id: "test".to_string(),
        your_color: Color::Sente,
        your_pieces: vec![VisiblePiece { square: "5e".to_string(), role: Role::King }],
        your_hand: Hand::empty(),
        turn: Color::Sente,
        move_number: 1,
        clocks: ClockState { sente_ms: 0, gote_ms: 0, running: None, server_time: 0 },
        fouls: FoulCounts { you: 0, opponent: 0 },
        you_in_check: false,
        opponent_in_check: false,
        status: GameStatus::Playing,
    };
    let safe = ["5e5f", "5e4e", "1a1b", "5e6f"].map(|u| parse_usi(u).unwrap()).to_vec();
    assert_eq!(covered_safe(&safe, &view, &vec![]), ["5e4e", "5e5f", "5e6f"]);
    assert_eq!(covered_safe(&safe, &view, &texts(&["5e5f"])), ["5e4e", "5e6f"]);
}

#[test]
fn moves_are_taken_at_even_distances() {
    let list = texts(&["a", "b", "c", "d", "e", "f", "g"]);
    assert_eq!(spaced(&list, 3), ["a", "c", "e"]);
    assert_eq!(spaced(&list, 7), list);
    assert_eq!(spaced(&list, 0), list);
    assert_eq!(spaced(&list, 1), ["a"]);
}

#[test]
fn a_limit_keeps_every_game_with_danger_first() {
    let danger = vec![false, true, false, true, true];
    let games = texts(&["g1", "g2", "g3", "g1", "g2"]);
    let all = limit_points(&danger, &games, 9);
    assert_eq!(all, [0, 1, 2, 3, 4]);
    let two = limit_points(&danger, &games, 2);
    assert_eq!(two, [0, 1, 3, 4]);
}

#[test]
fn a_point_is_played_on_in_several_ways() {
    let policy = PolicyOrders {
        strict: texts(&["5i4h"]),
        all: vec![],
        plain: (0..20).map(|i| format!("m{i}")).collect(),
    };
    let units = plan_units(&"7g7f".to_string(), &texts(&["5i4h", "5i6h"]), &policy);
    let shown: Vec<(Arm, usize, &str)> =
        units.iter().map(|u| (u.arm, u.order.len(), u.order[0].as_str())).collect();
    assert_eq!(
        shown,
        [
            (Arm::Baseline, 1, "7g7f"),
            (Arm::Oracle, 1, "5i4h"),
            (Arm::Oracle, 1, "5i6h"),
            (Arm::PolicyStrict, 1, "5i4h"),
            (Arm::PolicyW0, 12, "m0"),
        ]
    );
    assert_eq!(head_of_order(&policy.plain).len(), 12);
}
