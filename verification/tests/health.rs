use tsuitate_bot::health::{bucket, health_steps, unique_up_to, HealthStat, HealthStep};
use tsuitate_bot::observation::Observation;
use tsuitate_bot::protocol::Color;

#[test]
fn a_game_has_three_parts() {
    assert_eq!(bucket(0), 0);
    assert_eq!(bucket(20), 0);
    assert_eq!(bucket(21), 1);
    assert_eq!(bucket(40), 1);
    assert_eq!(bucket(41), 2);
}

#[test]
fn a_check_is_handed_over_with_its_move() {
    let observations = vec![
        Observation::MyMove { move_number: 1, usi: "7g7f".to_string(), captured: None },
        Observation::OpponentMoved { move_number: 2, captured_my_piece_at: None },
        Observation::Check { in_check: Color::Sente },
        Observation::MyFoul { move_number: 3, usi: "5i5h".to_string() },
        Observation::OpponentFoul { count: 1 },
        Observation::MyMove { move_number: 3, usi: "5i4h".to_string(), captured: None },
        Observation::Check { in_check: Color::Gote },
    ];
    let step = |upto: usize, update: bool, measure: Option<u32>| HealthStep { upto, update, measure };
    assert_eq!(
        health_steps(&observations),
        vec![
            step(1, false, None),
            step(3, true, Some(2)),
            step(4, true, None),
            step(5, false, None),
            step(7, false, None),
        ]
    );
    assert!(health_steps(&vec![]).is_empty());
}

#[test]
fn fingerprints_are_counted_up_to_a_cap() {
    assert_eq!(unique_up_to(&vec![3, 1, 3, 2, 1], 9), 3);
    assert_eq!(unique_up_to(&vec![3, 1, 3, 2, 1], 2), 2);
    assert_eq!(unique_up_to(&vec![], 2), 0);
    assert_eq!(unique_up_to(&vec![7], 0), 0);
}

#[test]
fn looks_are_summed_up() {
    let mut s = HealthStat::new();
    s.count(200, true);
    s.count(50, false);
    assert_eq!(s, HealthStat { unique: 250, healthy: 1, n: 2 });
}
