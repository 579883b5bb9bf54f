use tsuitate_bot::board::parse_usi_square;
use tsuitate_bot::chase::{chase_contribution, Contribution};
use tsuitate_bot::check_prep::{ChaseClass, ChaseEvent};

fn chase(class: ChaseClass, covered: bool, fouls: u32) -> ChaseEvent {
    ChaseEvent {
        move_number: 10,
        prev_king: parse_usi_square("5i").unwrap(),
        new_king: parse_usi_square("4h").unwrap(),
        class,
        double_check: false,
        same_piece: true,
        prev_king_covered: covered,
        checkers_covered: covered,
        fouls,
    }
}

fn value(c: Contribution) -> f64 {
    let share = (c.covered + c.open) as f64 / c.events as f64;
    let with = c.covered_fouls as f64 / c.covered as f64;
    let without = c.open_fouls as f64 / c.open as f64;
    share * (without - with)
}

/// 連続王手の寄与量は頻度と被覆別の反則差の積
#[test]
fn contribution_is_the_share_times_the_difference_of_fouls() {
    let events = vec![
        chase(ChaseClass::AtPrevKing, false, 3),
        chase(ChaseClass::AtPrevKing, true, 1),
        chase(ChaseClass::Elsewhere, false, 5),
        chase(ChaseClass::Elsewhere, true, 5),
    ];
    let c = chase_contribution(&events, ChaseClass::AtPrevKing).unwrap();
    assert_eq!(
        c,
        Contribution { events: 4, covered: 1, covered_fouls: 1, open: 1, open_fouls: 3 }
    );
    let v = value(c);
    assert!((v - 0.5 * 2.0).abs() < 1e-9, "{v}");
    let v = value(chase_contribution(&events, ChaseClass::Elsewhere).unwrap());
    assert!(v.abs() < 1e-9);
    let one = vec![chase(ChaseClass::AtPrevKing, true, 1)];
    assert!(chase_contribution(&one, ChaseClass::AtPrevKing).is_none());
    assert!(chase_contribution(&vec![], ChaseClass::AtPrevKing).is_none());
}

#[test]
fn each_class_has_its_own_cover() {
    let mut a = chase(ChaseClass::AtPrevKing, true, 2);
    a.checkers_covered = false;
    let mut b = chase(ChaseClass::AtPrevKing, false, 4);
    b.checkers_covered = true;
    let c = chase_contribution(&vec![a, b], ChaseClass::AtPrevKing).unwrap();
    assert_eq!((c.covered_fouls, c.open_fouls), (2, 4));
    let mut a = chase(ChaseClass::Elsewhere, true, 2);
    a.prev_king_covered = false;
    let mut b = chase(ChaseClass::Elsewhere, false, 4);
    b.prev_king_covered = true;
    let c = chase_contribution(&vec![a, b], ChaseClass::Elsewhere).unwrap();
    assert_eq!((c.covered_fouls, c.open_fouls), (2, 4));
}
