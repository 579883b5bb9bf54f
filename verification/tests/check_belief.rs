use tsuitate_bot::board::parse_usi_square;
use tsuitate_bot::check_belief::{
    decision_points, focus, redecision, ArmSpec, Attrition, Belief, DiagMode,
    ORACLE_INF,
};
use tsuitate_bot::check_economy::{true_checkers, CheckMoveKind};
use tsuitate_bot::check_policy::{Policy, PolicyMove};
use tsuitate_bot::kifu::fresh_game;
use tsuitate_bot::protocol::{Color, FoulRecord, GameEndPayload, MoveRecord, Role};
use tsuitate_bot::shogi::{parse_usi, Piece, Position};

fn oracle(k: &str) -> Belief {
    Belief::Oracle { k: k.to_string() }
}

fn put(pos: &mut Position, square: &str, color: Color, role: Role) {
    pos.set(parse_usi_square(square).unwrap(), Some(Piece { color, role }));
}

#[test]
fn belief_tags_roundtrip() {
    for b in [
        Belief::Current,
        oracle("2"),
        oracle(ORACLE_INF),
        Belief::Misdirected { k: "4".to_string() },
        Belief::DeduceLastMove,
    ] {
        let back = Belief::parse(&b.tag()).unwrap();
        assert_eq!(format!("{:?}", back), format!("{:?}", b));
    }
    assert!(matches!(Belief::parse("oracle@kinf"), Some(Belief::Oracle { k }) if k == ORACLE_INF));
    assert!(Belief::parse("oracle@k-1").is_none());
    assert!(Belief::parse("nope").is_none());
}

#[test]
fn factors_are_kept_in_plain_form() {
    let named = |tag: &str| Belief::parse(tag).unwrap().tag();
    assert_eq!(named("oracle@k1e9"), "oracle@kinf");
    assert_eq!(named("oracle@k2e12"), "oracle@kinf");
    assert_eq!(named("oracle@k999999999"), "oracle@k999999999");
    assert_eq!(named("oracle_misdirected@k4.0"), "oracle_misdirected@k4");
    assert_eq!(named("oracle@k0.250"), "oracle@k0.25");
    assert_eq!(named("oracle@k-0"), "oracle@k0");
    assert_eq!(named("oracle@k-1e-999"), "oracle@k0");
    for bad in ["oracle@k1e999", "oracle@k-1e-9", "oracle@kInf", "oracle@knan"] {
        assert!(Belief::parse(bad).is_none(), "{bad}");
    }
}

/// armタグはbeliefとpolicyの両方を読む
#[test]
fn arms_name_a_belief_or_a_policy() {
    let a = ArmSpec::parse("oracle@kinf@real").unwrap();
    assert!(matches!(a.belief, Belief::Oracle { k } if k == ORACLE_INF));
    assert!(matches!(a.policy, Policy::Current));
    assert!(a.real);
    assert_eq!(a.tag, "oracle@kinf@real");
    let b = ArmSpec::parse("alpha@k2").unwrap();
    assert!(matches!(b.belief, Belief::Current));
    assert!(matches!(b.policy, Policy::Alpha { k } if k == "2"));
    assert!(!b.real);
    let c = ArmSpec::parse("current@real").unwrap();
    assert!(matches!(c.belief, Belief::Current));
    assert!(matches!(c.policy, Policy::Current));
    assert!(c.real);
    assert!(matches!(
        ArmSpec::parse("deduce_last_move@shadow").unwrap().belief,
        Belief::DeduceLastMove
    ));
    assert!(ArmSpec::parse("oracle@k?@real").is_none());
    assert!(ArmSpec::parse("nope").is_none());
}

/// 恒等対照は介入しない
#[test]
fn the_control_changes_nothing() {
    let truth = Position::initial();
    let d = oracle("1").diag(&truth, Color::Sente);
    assert!(matches!(&d.mode, DiagMode::Oracle { k } if k == "1"));
    assert!(!d.deduce_last_move);
    assert!(!d.is_noop());
    assert!(Belief::Current.diag(&truth, Color::Sente).is_noop());
    assert!(!Belief::DeduceLastMove.diag(&truth, Color::Sente).is_noop());
    assert!(oracle("1").needs_truth());
    assert!(!Belief::DeduceLastMove.needs_truth());
}

/// 両王手にはオラクルを掛けない
#[test]
fn a_double_check_is_left_alone() {
    let mut pos = Position::empty(Color::Sente);
    put(&mut pos, "5e", Color::Sente, Role::King);
    put(&mut pos, "5a", Color::Gote, Role::Rook);
    put(&mut pos, "1a", Color::Gote, Role::Bishop);
    put(&mut pos, "5i", Color::Gote, Role::King);
    assert_eq!(true_checkers(&pos, Color::Sente).len(), 2);
    let d = oracle("4").diag(&pos, Color::Sente);
    assert!(d.truth.is_empty());
    pos.set(parse_usi_square("1a").unwrap(), None);
    let d = oracle("4").diag(&pos, Color::Sente);
    assert_eq!(d.truth, vec![(parse_usi_square("5a").unwrap(), Role::Rook)]);
}

#[test]
fn the_focus_is_on_the_first_captures() {
    let mut pos = Position::empty(Color::Sente);
    put(&mut pos, "5e", Color::Sente, Role::King);
    put(&mut pos, "5d", Color::Gote, Role::Pawn);
    put(&mut pos, "4e", Color::Sente, Role::Gold);
    put(&mut pos, "1a", Color::Gote, Role::King);
    let pm = |usi: &str, king: bool| PolicyMove {
        rank: 0,
        usi: usi.to_string(),
        mv: parse_usi(usi).unwrap(),
        kind: CheckMoveKind::OtherBoard,
        is_king: king,
        truth_legal: true,
    };
    let moves = vec![
        pm("5e5d", true),
        pm("P*5d", false),
        pm("4e4d", false),
        pm("4e5d", false),
        pm("4e4d", false),
    ];
    let square = |s: &str| parse_usi_square(s).unwrap();
    let f = focus(&moves, &pos, Color::Sente, &vec![square("5d"), square("4d")]);
    assert_eq!(f.true_capture, Some(3));
    assert_eq!(f.false_capture, Some(2));
    let f = focus(&moves, &pos, Color::Sente, &vec![]);
    assert_eq!(f.false_capture, None);
}

#[test]
fn a_decision_after_fouls_shows_them() {
    let entry = fresh_game();
    let fouls = vec![parse_usi("8h2b+").unwrap(), parse_usi("P*5e").unwrap()];
    let r = redecision(&entry, Color::Sente, &fouls);
    assert_eq!(r.tried, vec!["8h2b+".to_string(), "P*5e".to_string()]);
    assert_eq!(r.view.fouls.you, 2);
    assert_eq!(r.view.your_pieces.len(), 20);
    assert_eq!(r.log.events().len(), 2);
}

fn game(moves: &[&str], fouls: &[(u32, Color, &str)]) -> GameEndPayload {
    GameEndPayload {
        result: "gote_win".to_string(),
        reason: "resign".to_string(),
        moves: moves
            .iter()
            .enumerate()
            .map(|(i, usi)| MoveRecord {
                usi: usi.to_string(),
                by_color: if i % 2 == 0 { Color::Sente } else { Color::Gote },
                ms: 0,
                fouls_before: 0,
            })
            .collect(),
        foul_attempts: fouls
            .iter()
            .map(|(n, by_color, usi)| FoulRecord {
                move_number: *n,
                by_color: *by_color,
                usi: usi.to_string(),
            })
            .collect(),
    }
}

#[test]
fn every_turn_in_check_is_taken_out() {
    // 8h3c+ gives check; the first answer is a foul, the second takes the horse.
    let end = game(
        &["7g7f", "8c8d", "8h3c+", "2a3c", "2g2f"],
        &[(4, Color::Gote, "8d8e")],
    );
    let mut at = Attrition { turns: 0, terminal: 0, unreplayable: 0 };
    let points = decision_points(&end, Color::Gote, &mut at).unwrap();
    assert_eq!(at, Attrition { turns: 1, terminal: 0, unreplayable: 0 });
    assert_eq!(points.len(), 1);
    let p = &points[0];
    assert_eq!(p.move_number, 4);
    assert_eq!(p.record_fouls, vec!["8d8e".to_string()]);
    assert_eq!(p.record_accepted.as_deref(), Some("2a3c"));
    assert_eq!(p.opp_last_usi.as_deref(), Some("8h3c+"));
    assert_eq!(p.opp_captured_at.as_deref(), Some("3c"));
    assert_eq!(p.estimand(), "foul");
    assert!(!p.terminal);
    assert_eq!(p.entry.fouls, [0, 0]);
    let points = decision_points(&end, Color::Sente, &mut at).unwrap();
    assert!(points.is_empty());
    assert_eq!(at.turns, 1);
}

#[test]
fn a_turn_in_which_the_game_ended_counts() {
    let end = game(&["7g7f", "8c8d", "8h3c+"], &[]);
    let mut at = Attrition { turns: 0, terminal: 0, unreplayable: 0 };
    let points = decision_points(&end, Color::Gote, &mut at).unwrap();
    assert_eq!(at, Attrition { turns: 1, terminal: 1, unreplayable: 0 });
    assert!(points[0].terminal);
    assert_eq!(points[0].record_accepted, None);
    assert_eq!(points[0].estimand(), "nofoul");
    let broken = game(&["7g7f", "7g7f"], &[]);
    assert!(decision_points(&broken, Color::Gote, &mut at).is_none());
    assert_eq!(at.turns, 1);
}
