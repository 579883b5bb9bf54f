use tsuitate_bot::mate_report::{
    best_share, calibrate, contributions, games_agree, games_in, honest_share, in_shard, is_below,
    is_shard, moves_in, parse_shard, seeds_in, share_of, shards_complete, summarize_defence,
    CalibrationRow, DefenceUnit, Part, Row, ShardMeta, Share,
};

fn row(game: &str, arm: &str, usi: &str, seed: u64, halves: u32) -> Row {
    Row {
        game: game.to_string(),
        arm: arm.to_string(),
        usi: usi.to_string(),
        seed,
        halves,
    }
}

fn share(halves: u64, count: u64) -> Share {
    Share { halves, count }
}

fn meta(games: u64, shard: Option<(usize, usize)>) -> ShardMeta {
    ShardMeta { games, games_mated: 0, dropped_safe: 0, shard }
}

#[test]
fn parts_are_read_and_tested() {
    assert_eq!(parse_shard("1/4"), Some((1, 4)));
    assert_eq!(parse_shard("4/4"), Some((4, 4)));
    for text in ["", "1", "1/", "/4", "a/4", "1/2/3"] {
        assert_eq!(parse_shard(text), None, "{text}");
    }
    assert!(is_shard((3, 4)));
    assert!(!is_shard((4, 4)));
    assert!(!is_shard((0, 0)));
}

#[test]
fn every_game_is_in_one_part() {
    for index in 0..20 {
        let n = (0..4).filter(|&a| in_shard(index, (a, 4))).count();
        assert_eq!(n, 1);
    }
    assert!(in_shard(7, (3, 4)));
}

#[test]
fn the_parts_of_a_record_belong_together() {
    assert!(games_agree(&vec![]));
    assert!(games_agree(&vec![meta(9, None), meta(9, Some((0, 2)))]));
    assert!(!games_agree(&vec![meta(9, None), meta(8, None)]));
    assert!(shards_complete(&vec![meta(9, Some((1, 2))), meta(9, Some((0, 2)))]));
    assert!(!shards_complete(&vec![meta(9, Some((1, 2)))]));
    assert!(!shards_complete(&vec![meta(9, Some((1, 2))), meta(9, Some((1, 2)))]));
}

#[test]
fn means_are_compared_without_dividing() {
    assert!(is_below(share(1, 2), share(2, 3)));
    assert!(!is_below(share(2, 4), share(1, 2)));
    assert!(is_below(share(0, 0), share(1, 9)));
    assert!(!is_below(share(1, 9), share(0, 0)));
}

#[test]
fn a_later_row_takes_the_place_of_an_earlier_one() {
    let rows = vec![
        row("g", "oracle", "7g7f", 1, 2),
        row("g", "oracle", "7g7f", 2, 1),
        row("g", "oracle", "7g7f", 1, 0),
        row("g", "oracle", "2g2f", 1, 2),
        row("h", "oracle", "7g7f", 1, 2),
    ];
    assert_eq!(share_of(&rows, "g", "oracle", &Part::Arm), share(3, 3));
    assert_eq!(
        share_of(&rows, "g", "oracle", &Part::Move("7g7f".to_string())),
        share(1, 2)
    );
    assert_eq!(
        share_of(&rows, "g", "oracle", &Part::Before("7g7f".to_string(), 2)),
        share(0, 1)
    );
    assert_eq!(
        share_of(&rows, "g", "oracle", &Part::From("7g7f".to_string(), 2)),
        share(1, 1)
    );
    assert_eq!(share_of(&rows, "g", "baseline", &Part::Arm), share(0, 0));
    assert_eq!(games_in(&rows), vec!["g".to_string(), "h".to_string()]);
    assert_eq!(
        moves_in(&rows, "g", "oracle"),
        vec!["2g2f".to_string(), "7g7f".to_string()]
    );
    assert_eq!(seeds_in(&rows, "g", "oracle"), vec![1, 2]);
    assert_eq!(
        best_share(&rows, "g", "oracle", &moves_in(&rows, "g", "oracle")),
        share(2, 1)
    );
}

#[test]
fn the_choice_and_its_measure_use_different_seeds() {
    // The move that wins early loses later, and the other way round.
    let rows = vec![
        row("g", "oracle", "a", 1, 2),
        row("g", "oracle", "a", 2, 0),
        row("g", "oracle", "b", 1, 0),
        row("g", "oracle", "b", 2, 2),
        row("g", "baseline", "c", 1, 1),
    ];
    let moves = moves_in(&rows, "g", "oracle");
    let seeds = seeds_in(&rows, "g", "oracle");
    assert_eq!(honest_share(&rows, "g", "oracle", &seeds, &moves), Some(share(0, 1)));
    assert_eq!(honest_share(&rows, "g", "oracle", &vec![1], &moves), None);
    let all = contributions(&rows);
    assert_eq!(all.len(), 1);
    assert_eq!(all[0].game, "g");
    assert_eq!(all[0].baseline, share(1, 1));
    assert_eq!(all[0].oracle, share(2, 2));
    assert_eq!(all[0].oracle_honest, Some(share(0, 1)));
    assert_eq!(all[0].policy_strict, share(0, 0));
    assert_eq!(all[0].policy_all, share(0, 0));
    assert_eq!(all[0].policy_w0, share(0, 0));
}

#[test]
fn a_calibration_counts_its_rows() {
    let kinded = |danger: bool, allows_mate: Option<bool>, kind: &str, bin: usize, n: usize| {
        let mut reaches = [false; 7];
        for r in reaches.iter_mut().take(n) {
            *r = true;
        }
        let kind = if kind.is_empty() { None } else { Some(kind.to_string()) };
        CalibrationRow { danger, allows_mate, kind, bin, reaches }
    };
    let row = |danger: bool, allows_mate: Option<bool>, bin: usize, n: usize| {
        kinded(danger, allows_mate, "", bin, n)
    };
    let c = calibrate(&vec![
        row(true, Some(true), 9, 7),
        row(true, Some(false), 2, 2),
        row(false, Some(false), 2, 1),
        row(false, Some(true), 0, 0),
        row(true, None, 5, 7),
    ]);
    assert_eq!(c.rows, [2, 2]);
    assert_eq!(c.positives, [1, 1]);
    assert_eq!((c.danger_bins[9], c.control_bins[9]), ((1, 1), (0, 0)));
    assert_eq!((c.danger_bins[2], c.control_bins[2]), ((1, 0), (1, 0)));
    assert_eq!((c.danger_bins[0], c.control_bins[0]), ((0, 0), (1, 1)));
    assert_eq!((c.danger_bins[5], c.control_bins[5]), ((0, 0), (0, 0)));
    assert!(c.kinds.is_empty());
    assert_eq!(c.predicted, [3, 2, 1, 1, 1, 1, 1]);
    assert_eq!(c.hits, [1, 1, 1, 1, 1, 1, 1]);
    assert_eq!(c.false_alarms, [1, 0, 0, 0, 0, 0, 0]);
    assert_eq!(c.negatives, 1);
    let c = calibrate(&vec![
        kinded(true, Some(true), "drop", 9, 7),
        kinded(true, Some(true), "adjacent", 9, 7),
        kinded(false, Some(true), "drop", 3, 2),
        kinded(false, Some(false), "line", 2, 1),
        kinded(true, None, "line", 2, 1),
    ]);
    assert_eq!(c.kinds, vec![("adjacent".to_string(), 1), ("drop".to_string(), 2)]);
}

#[test]
fn a_defence_is_summed_up() {
    let unit = |blind: bool, best_rank: Option<usize>, safe: bool| DefenceUnit {
        blind,
        fired: !blind,
        covered: 2,
        safe: 3,
        best_rank,
        safe_choice: [safe; 6],
    };
    let s = summarize_defence(&vec![
        unit(true, Some(7), true),
        unit(false, Some(16), false),
        unit(false, Some(30), true),
        unit(false, None, true),
    ]);
    assert_eq!((s.units, s.blind, s.fired, s.without), (4, 1, 3, 1));
    assert_eq!((s.covered, s.safe), (8, 12));
    assert_eq!(s.ranks, vec![7, 16, 30]);
    assert_eq!((s.top8, s.top17), (1, 2));
    assert_eq!(s.safe_choices, [2; 6]);
}
