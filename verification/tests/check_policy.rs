use tsuitate_bot::board::parse_usi_square;
use tsuitate_bot::check_economy::CheckMoveKind;
use tsuitate_bot::check_policy::{
    count_kind, fmt_num, keep_consistent, mate_moves_in_1, material_diff, opp_board_count, pick,
    policy_moves, pools_after, remaining_fouls, simulate, truth_after, PickRule, Policy,
    PolicyMove, Sim,
};
use tsuitate_bot::observation::{Observation, ObservationLog};
use tsuitate_bot::protocol::{Color, Role};
use tsuitate_bot::replay::make_view;
use tsuitate_bot::shogi::{parse_usi, Piece, Position};

fn pm(usi: &str, king: bool, legal: bool) -> PolicyMove {
    PolicyMove {
        rank: 0,
        usi: usi.to_string(),
        mv: parse_usi(usi).unwrap(),
        kind: if king { CheckMoveKind::King } else { CheckMoveKind::CheckerCapture },
        is_king: king,
        truth_legal: legal,
    }
}

/// The score of a move in thousandths: what it gains times the chance that it is legal, less the
/// price of a foul times the chance that it is not.
fn key(gain: f64, p: f64, cost: f64) -> i64 {
    ((gain * p - (1.0 - p) * cost) * 1000.0).round() as i64
}

fn rows(keys: &[i64]) -> Vec<Vec<i64>> {
    (0..10).map(|_| keys.to_vec()).collect()
}

fn put(pos: &mut Position, square: &str, color: Color, role: Role) {
    pos.set(parse_usi_square(square).unwrap(), Some(Piece { color, role }));
}

/// 価格を上げるとプローブより玉の手が浮く
#[test]
fn a_higher_price_lifts_the_king_above_the_probe() {
    let moves = vec![pm("5f5e", false, false), pm("5i4h", true, true)];
    let at = |cost: f64| vec![key(8.0, 0.4, cost), key(2.0, 0.9, cost)];
    assert_eq!(pick(PickRule::Best, &moves, &at(1.0), &at(1.0), &vec![]), Some(0));
    assert_eq!(pick(PickRule::Best, &moves, &at(4.0), &at(1.0), &vec![]), Some(1));
}

/// beta_orderは玉の手が首位のときは何もしない
#[test]
fn reordering_leaves_a_king_move_in_front() {
    let moves = vec![pm("5f5e", false, false), pm("5i4h", true, true)];
    let present = vec![key(1.0, 0.4, 1.0), key(5.0, 0.9, 1.0)];
    let taught = vec![9000, 0];
    assert_eq!(pick(PickRule::Best, &moves, &present, &present, &vec![]), Some(1));
    assert_eq!(
        pick(PickRule::ReorderProbes, &moves, &taught, &present, &vec![]),
        Some(1)
    );
}

#[test]
fn reordering_chooses_among_the_probes() {
    let moves = vec![
        pm("5f5e", false, false),
        pm("5g5e", false, true),
        pm("5i4h", true, true),
    ];
    let present = vec![9, 8, 7];
    let taught = vec![1, 2, 99];
    assert_eq!(
        pick(PickRule::ReorderProbes, &moves, &taught, &present, &vec![]),
        Some(1)
    );
    assert_eq!(
        pick(
            PickRule::ReorderProbes,
            &moves,
            &taught,
            &present,
            &vec!["5g5e".to_string()]
        ),
        Some(0)
    );
}

/// simulateは非合法な手で反則を積んで次へ進む
#[test]
fn a_turn_goes_on_after_a_foul() {
    let moves = vec![pm("5f5e", false, false), pm("5i4h", true, true)];
    let keys = rows(&[key(8.0, 0.4, 1.0), key(2.0, 0.9, 1.0)]);
    let out = simulate(PickRule::Best, &moves, &keys, &keys, 0);
    assert_eq!(out.fouls, 1);
    assert_eq!(out.accepted.as_deref(), Some("5i4h"));
    assert_eq!(out.accepted_kind, Some(CheckMoveKind::King));
    assert!(!out.foul_limit);
    assert_eq!(out.sequence, vec!["5f5e", "5i4h"]);
    assert_eq!(out.updates, 0);
}

/// simulateは反則上限で打ち切る
#[test]
fn a_turn_ends_with_the_last_foul() {
    let moves = vec![pm("5f5e", false, false), pm("5i4h", true, false)];
    let keys = rows(&[key(8.0, 0.4, 1.0), key(2.0, 0.9, 1.0)]);
    let out = simulate(PickRule::Best, &moves, &keys, &keys, 9);
    assert!(out.foul_limit, "{out:?}");
    assert_eq!(out.fouls, 1);
    assert_eq!(out.accepted, None);
}

#[test]
fn a_turn_ends_without_candidates() {
    let moves = vec![pm("5f5e", false, false)];
    let keys = rows(&[1]);
    let out = simulate(PickRule::Best, &moves, &keys, &keys, 3);
    assert_eq!((out.fouls, out.accepted, out.foul_limit), (1, None, false));
}

#[test]
fn a_turn_is_judged_step_by_step() {
    let foul = pm("5f5e", false, false);
    let good = pm("5i4h", true, true);
    let mut sim = Sim::start(2, true);
    assert!(sim.limit().is_none());
    assert!(sim.judge(Some(&foul)).is_none());
    assert_eq!(sim.excluded, vec!["5f5e".to_string()]);
    assert_eq!(sim.fouls_mv, vec![foul.mv]);
    let out = sim.judge(Some(&good)).unwrap();
    assert_eq!((out.fouls, out.updates), (1, 1));
    assert_eq!(out.sequence, vec!["5f5e", "5i4h"]);
    let mut sim = Sim::start(2, false);
    let out = sim.judge(None).unwrap();
    assert_eq!((out.fouls, out.accepted, out.foul_limit), (0, None, false));
    assert!(Sim::start(10, false).limit().unwrap().foul_limit);
}

/// 同点はusiの辞書順で割る
#[test]
fn of_equal_scores_the_earlier_text_is_taken() {
    let moves = vec![pm("5i4h", true, true), pm("5i6h", true, true)];
    let keys = vec![500, 500];
    assert_eq!(pick(PickRule::Best, &moves, &keys, &keys, &vec![]), Some(0));
    let moves = vec![pm("5i6h", true, true), pm("5i4h", true, true)];
    assert_eq!(pick(PickRule::Best, &moves, &keys, &keys, &vec![]), Some(1));
    assert_eq!(pick(PickRule::Best, &vec![], &vec![], &vec![], &vec![]), None);
}

/// arm名は往復する
#[test]
fn names_of_policies_read_back() {
    for p in [
        Policy::Current,
        Policy::SolverGreedy,
        Policy::Alpha { k: "1.5".to_string() },
        Policy::Alpha { k: "3".to_string() },
        Policy::Beta { k: "1".to_string(), lambda: "0.5".to_string() },
        Policy::BetaOrder { lambda: "1".to_string() },
    ] {
        let tag = p.tag();
        let back = Policy::parse(&tag).unwrap();
        assert_eq!(format!("{:?}", back), format!("{:?}", p));
        assert_eq!(back.tag(), tag);
    }
    for bad in ["", "alpha", "alpha@k", "alpha@kx", "beta@k1", "beta@k1lx", "nope"] {
        assert!(Policy::parse(bad).is_none(), "{bad}");
    }
}

#[test]
fn numbers_of_policies_are_kept_in_plain_form() {
    let named = |tag: &str| Policy::parse(tag).unwrap().tag();
    assert_eq!(named("alpha@k2.0"), "alpha@k2");
    assert_eq!(named("alpha@k+1.50"), "alpha@k1.5");
    assert_eq!(named("alpha@k25e-1"), "alpha@k2.5");
    assert_eq!(named("alpha@k.5"), "alpha@k0.5");
    assert_eq!(named("alpha@k1e3"), "alpha@k1000");
    assert_eq!(named("alpha@k-0"), "alpha@k0");
    assert_eq!(named("alpha@k-1.25"), "alpha@k-1.25");
    assert_eq!(named("alpha@k1e-10"), "alpha@k0");
    assert_eq!(named("alpha@k2.9999999999"), "alpha@k3");
    assert_eq!(named("alpha@k1e30"), "alpha@k9223372036854775807");
    assert_eq!(named("beta@k1.0l0.50"), "beta@k1l0.5");
    assert_eq!(named("beta_order@l1e0"), "beta_order@l1");
    for bad in ["alpha@k1e999", "alpha@k-1e309", "alpha@kinf", "beta@k1l1e999", "alpha@k1.8e308"] {
        assert!(Policy::parse(bad).is_none(), "{bad}");
    }
    assert!(matches!(Policy::parse("alpha@k1e-10"), Some(Policy::Alpha { k }) if k == "0.0000000001"));
}

#[test]
fn numbers_are_named_as_they_print() {
    for text in [
        "0", "1", "-1", "2.0", "0.5", "1e-3", "12.50", "1e15", "-7.25e2", "1e-12", "123456.789", "4e18",
        "1e22", "-1e22", "0.3", "99.9999999999", "3.0000000001", "1e-400", "5e-324", "00012.500",
        "32.000000001", "33.000000001", "8.000000001", "0.999999999", "31.999999999", "1e-9", "-1e-9",
        "0.000000000999999999999999999", "9007199254740993", "9223372036854775807", "-9223372036854775809",
        "1152921504606846976", "0.1234567890123456789", "123456789.123456789123", "4503599627370497.5",
        "1e308",
    ] {
        let v: f64 = text.parse().unwrap();
        let expected = if (v - v.round()).abs() < 1e-9 {
            format!("{}", v.round() as i64)
        } else {
            format!("{v}")
        };
        assert_eq!(fmt_num(text), expected, "{text}");
    }
}

#[test]
fn policies_tell_what_they_need() {
    let beta = Policy::parse("beta@k1l0.5").unwrap();
    let order = Policy::parse("beta_order@l1").unwrap();
    let alpha = Policy::parse("alpha@k2").unwrap();
    assert!(beta.needs_delta_v() && order.needs_delta_v() && !alpha.needs_delta_v());
    assert_eq!(beta.rule(), PickRule::Best);
    assert_eq!(order.rule(), PickRule::ReorderProbes);
    assert_eq!(alpha.rule(), PickRule::Best);
}

/// 材料差は初期局面で0
#[test]
fn material_is_even_at_the_start() {
    let roles = [
        Role::Pawn, Role::Lance, Role::Knight, Role::Silver, Role::Gold, Role::Bishop, Role::Rook,
    ];
    let pos = Position::initial();
    for role in roles {
        assert_eq!(material_diff(&pos, Color::Sente, role), 0);
    }
    let mut down = pos;
    down.set(parse_usi_square("7g").unwrap(), None);
    assert_eq!(material_diff(&down, Color::Sente, Role::Pawn), -1);
    assert_eq!(material_diff(&down, Color::Gote, Role::Pawn), 1);
    down.set_hand(Color::Sente, Role::Pawn, 3);
    assert_eq!(material_diff(&down, Color::Sente, Role::Pawn), 2);
}

/// 真実指標は受理できなかったら空になる
#[test]
fn nothing_is_known_after_a_refused_move() {
    let mut pos = Position::empty(Color::Sente);
    put(&mut pos, "5i", Color::Sente, Role::King);
    put(&mut pos, "8a", Color::Gote, Role::King);
    let none = truth_after(&pos, Color::Sente, &None);
    assert!(!none.accepted);
    let ok = truth_after(&pos, Color::Sente, &Some("5i5h".to_string()));
    assert!(ok.accepted && !ok.mated_in_1 && !ok.next_check);
    assert!(!truth_after(&pos, Color::Sente, &Some("5i5a".to_string())).accepted);
    assert!(!truth_after(&pos, Color::Sente, &Some("no".to_string())).accepted);
}

#[test]
fn a_threat_of_mate_is_seen() {
    // Whatever happens elsewhere, a gold dropped on 1h mates in the corner.
    let mut pos = Position::empty(Color::Sente);
    put(&mut pos, "1i", Color::Sente, Role::King);
    put(&mut pos, "9g", Color::Sente, Role::Pawn);
    put(&mut pos, "1g", Color::Gote, Role::Knight);
    put(&mut pos, "2g", Color::Gote, Role::Gold);
    put(&mut pos, "5a", Color::Gote, Role::King);
    let calm = truth_after(&pos, Color::Sente, &Some("9g9f".to_string()));
    assert!(calm.accepted && !calm.mated_in_1);
    pos.set_hand(Color::Gote, Role::Gold, 1);
    let after = truth_after(&pos, Color::Sente, &Some("9g9f".to_string()));
    assert!(after.accepted && after.mated_in_1 && after.next_check);
    pos.set_turn(Color::Gote);
    assert!(mate_moves_in_1(&pos).contains(&parse_usi("G*1h").unwrap()));
}

#[test]
fn fouls_left_and_pieces_left() {
    assert_eq!(remaining_fouls(0), 10);
    assert_eq!(remaining_fouls(9), 1);
    assert_eq!(remaining_fouls(12), 0);
    let mut log = ObservationLog::default();
    assert_eq!(opp_board_count(&log), 20);
    for i in 0..25 {
        log.record(Observation::MyMove {
            move_number: i,
            usi: "7g7f".to_string(),
            captured: if i % 2 == 0 { Some(Role::Pawn) } else { None },
        });
    }
    assert_eq!(opp_board_count(&log), 7);
    for i in 0..20 {
        log.record(Observation::MyMove {
            move_number: i,
            usi: "7g7f".to_string(),
            captured: Some(Role::Pawn),
        });
    }
    assert_eq!(opp_board_count(&log), 1);
}

#[test]
fn samples_in_which_a_foul_was_legal_are_dropped() {
    let free = Position::initial();
    let mut blocked = Position::initial();
    put(&mut blocked, "7f", Color::Sente, Role::Pawn);
    let foul = parse_usi("7g7f").unwrap();
    let pool = vec![free, blocked, free];
    assert_eq!(keep_consistent(&pool, &vec![foul]), vec![1]);
    assert_eq!(keep_consistent(&pool, &vec![]), vec![0, 1, 2]);
}

#[test]
fn the_tainted_pool_stands_in() {
    let p = pools_after(0, 3, true);
    assert!(p.use_taint && p.votes_from_taint);
    let p = pools_after(0, 3, false);
    assert!(!p.use_taint && p.votes_from_taint);
    let p = pools_after(0, 0, true);
    assert!(!p.use_taint && p.votes_from_taint);
    let p = pools_after(2, 3, true);
    assert!(!p.use_taint && !p.votes_from_taint);
}

#[test]
fn candidates_are_labelled_by_the_truth() {
    let pos = Position::initial();
    let view = make_view(&pos, Color::Sente, &[0, 0]);
    let ranking: Vec<String> = ["8h2b+", "what", "5i5h", "7g7f"]
        .iter()
        .map(|s| s.to_string())
        .collect();
    let king = parse_usi_square("5i");
    let moves = policy_moves(&ranking, &view, &pos, None, king);
    assert_eq!(moves.len(), 3);
    assert_eq!(moves[0].rank, 0);
    assert!(!moves[0].truth_legal);
    assert_eq!(moves[1].rank, 2);
    assert!(moves[1].is_king && moves[1].truth_legal);
    assert_eq!(moves[1].kind, CheckMoveKind::King);
    assert_eq!(moves[2].kind, CheckMoveKind::OtherBoard);
    let c = count_kind(&moves, CheckMoveKind::OtherBoard);
    assert_eq!((c.legal, c.total), (1, 2));
}
