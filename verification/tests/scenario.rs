use tsuitate_bot::board::parse_usi_square;
use tsuitate_bot::kifu::{fresh_game, replay, resolve_foul, Kifu, Ply, RawFoul};
use tsuitate_bot::observation::Observation;
use tsuitate_bot::protocol::{Color, Role};
use tsuitate_bot::scenario::{
    attack_column, attackers, is_accepted, is_file_name, load_scenario, median, parse_flags,
    prewarm_points, scenario_line, top_others, ChoiceStats, FlagError, Flags, ScenarioError, Tally, Trial,
};
use tsuitate_bot::shogi::{parse_usi, Position, ShogiMove};

const KEIMA: [&str; 30] = [
    "7g7f", "3a3b", "5g5f", "2b3a", "5f5e", "5a6b", "2h5h", "5c5d", "5i4h", "7c7d", "7i6h", "8c8d",
    "6h5g", "6b7c", "5g5f", "6c6d", "4h3h", "9c9d", "6i6h", "9d9e", "6h5g", "9e9f", "4g4f", "9f9g+",
    "8h6f", "P*9h", "8i7g", "9h9i+", "7g8e", "8d8e",
];

const KAKUNARI: [&str; 76] = [
    "7g7f", "3a3b", "6i7h", "1c1d", "7h7g", "2b1c", "4i5h", "5a4b", "6g6f", "7c7d", "5h6g", "8a7c",
    "5g5f", "8c8d", "8g8f", "8d8e", "4g4f", "8e8f", "7i7h", "8f8g+", "4f4e", "8g8h", "4e4d", "8h8i",
    "4d4c+", "3b4c", "P*8c", "8b8c", "7h8g", "8i7i", "2h8h", "7i6i", "5i5h", "P*8f", "8h8i",
    "8f8g+", "7g8g", "8c8g+", "8i8g", "P*8e", "8g8i", "4c3d", "8i6i", "N*5g", "6i8i", "B*6i",
    "8i6i", "5g6i+", "5h6i", "1c7i", "6i5h", "R*6i", "P*4f", "P*4h", "R*4e", "4b3b", "4e8e", "7c8e",
    "N*5d", "8e7g+", "5h4g", "4h4i+", "B*2b", "6i5i+", "2b1a+", "R*5h", "L*4c", "G*4e", "4c4a+",
    "7i5g+", "6g5g", "5h5g+", "4g3h", "4i3i", "3h2h", "5i4h",
];

fn score(moves: &[&str], directives: &[(&str, &str)]) -> Kifu {
    Kifu {
        plies: moves
            .iter()
            .map(|m| Ply { mv: parse_usi(m).unwrap(), fouls: vec![] })
            .collect(),
        trailing_fouls: vec![],
        directives: directives
            .iter()
            .map(|(k, v)| (k.to_string(), v.to_string()))
            .collect(),
    }
}

fn no_flags() -> Flags {
    Flags { ply: None, target: None, diag: None }
}

#[test]
fn the_score_with_the_knight_is_replayed() {
    let mut kifu = score(&KEIMA, &[("ply", "29")]);
    let square = |s: &str| parse_usi_square(s).unwrap();
    kifu.plies[29].fouls.push(RawFoul::Board {
        from: square("6d"),
        to: square("6e"),
        role: Role::Pawn,
    });
    let sc = load_scenario("keima".to_string(), kifu, &no_flags()).unwrap();
    let usi: Vec<String> = sc.kifu.plies.iter().map(|p| p.mv.to_usi()).collect();
    assert_eq!(usi, KEIMA);
    assert_eq!(sc.ply, 29);
    assert_eq!(sc.target, "8d8e");
    assert_eq!(sc.limit, 200);
    assert_eq!(sc.desc, "29手目まで再生し、30手目を考えさせる");
    let rep = replay(&sc.kifu, 29).unwrap();
    assert_eq!(rep.plies, 29);
    assert_eq!(rep.pos.turn(), Color::Gote);
    assert!(rep.pos.in_check(Color::Gote));
    // The attempt 6d6e before the last move leaves the king in check, so it is a foul.
    let rep = replay(&sc.kifu, 30).unwrap();
    assert_eq!(rep.fouls, [0, 1]);
}

#[test]
fn the_score_with_the_horse_is_replayed() {
    let sc = load_scenario(
        "kakunari".to_string(),
        score(&KAKUNARI, &[("ply", "69"), ("desc", "角成"), ("limit", "120")]),
        &no_flags(),
    )
    .unwrap();
    assert_eq!(sc.target, "7i5g+");
    assert_eq!(sc.desc, "角成");
    assert_eq!(sc.limit, 120);
    let rep = replay(&sc.kifu, sc.ply).unwrap();
    assert_eq!(rep.pos.turn(), Color::Gote);
    assert!(is_accepted(&rep.pos, &sc.target));
    let rep = replay(&sc.kifu, KAKUNARI.len()).unwrap();
    assert_eq!(rep.plies, 76);
    assert_eq!(rep.fouls, [0, 0]);
}

#[test]
fn what_is_asked_for_comes_first() {
    let directives = [
        ("ply", "2"),
        ("target", "2g2f"),
        ("diag", "5e"),
        ("desc", "序盤"),
        ("limit", "many"),
    ];
    let moves = ["7g7f", "3c3d", "2g2f"];
    let sc = load_scenario("a".to_string(), score(&moves, &directives), &no_flags()).unwrap();
    assert_eq!((sc.ply, sc.target.as_str(), sc.limit), (2, "2g2f", 200));
    assert_eq!(sc.diag_squares, vec!["5e".to_string()]);
    let flags = Flags {
        ply: Some(3),
        target: Some("8h2b+".to_string()),
        diag: Some("1a,9i".to_string()),
    };
    let sc = load_scenario("a".to_string(), score(&moves, &directives), &flags).unwrap();
    assert_eq!((sc.ply, sc.target.as_str()), (3, "8h2b+"));
    assert_eq!(sc.diag_squares, vec!["1a".to_string(), "9i".to_string()]);
    assert_eq!(sc.desc, "3手目まで再生し、4手目を考えさせる");
    let sc = load_scenario("b".to_string(), score(&moves, &[("ply", "3")]), &no_flags()).unwrap();
    assert_eq!(sc.target, "");
}

#[test]
fn scores_that_make_no_scenario_are_refused() {
    let moves = ["7g7f", "3c3d"];
    let load = |d: &[(&str, &str)]| load_scenario("x".to_string(), score(&moves, d), &no_flags());
    assert_eq!(load(&[]).err(), Some(ScenarioError::NoPly));
    assert_eq!(load(&[("ply", "two")]).err(), Some(ScenarioError::NoPly));
    assert_eq!(
        load(&[("ply", "3")]).err(),
        Some(ScenarioError::BeyondScore { ply: 3, plies: 2 })
    );
    assert_eq!(
        load(&[("ply", "1"), ("diag", "5e,5z")]).err(),
        Some(ScenarioError::BadSquare { place: 1 })
    );
}

#[test]
fn scenarios_are_named_or_files() {
    assert!(is_file_name("dir/keima"));
    assert!(is_file_name("keima.kif"));
    assert!(!is_file_name("keima"));
    assert!(!is_file_name("kif"));
}

#[test]
fn a_score_that_does_not_hold_together_is_not_replayed() {
    assert!(replay(&score(&["7g7f", "7g7f"], &[]), 2).is_none());
    let mut kifu = score(&["7g7f"], &[]);
    let square = |s: &str| parse_usi_square(s).unwrap();
    // A legal move cannot have been a foul.
    kifu.plies[0].fouls.push(RawFoul::Board {
        from: square("2g"),
        to: square("2f"),
        role: Role::Pawn,
    });
    assert!(replay(&kifu, 1).is_none());
    assert!(replay(&kifu, 0).is_some());
}

#[test]
fn fouls_of_a_score_are_resolved_on_the_position() {
    let rep = fresh_game();
    let square = |s: &str| parse_usi_square(s).unwrap();
    let horse = RawFoul::Board { from: square("8h"), to: square("2b"), role: Role::Horse };
    assert_eq!(
        resolve_foul(&rep.pos, Color::Sente, &horse),
        Some(ShogiMove::Board { from: square("8h"), to: square("2b"), promote: true })
    );
    assert_eq!(resolve_foul(&rep.pos, Color::Gote, &horse), None);
    let rook = RawFoul::Board { from: square("8h"), to: square("2b"), role: Role::Rook };
    assert_eq!(resolve_foul(&rep.pos, Color::Sente, &rook), None);
    let drop = RawFoul::Drop { role: Role::Gold, to: square("5e") };
    assert_eq!(
        resolve_foul(&rep.pos, Color::Sente, &drop),
        Some(ShogiMove::Drop { role: Role::Gold, to: square("5e") })
    );
    let none = RawFoul::Drop { role: Role::Tokin, to: square("5e") };
    assert_eq!(resolve_foul(&rep.pos, Color::Sente, &none), None);
}

#[test]
fn a_tally_ranks_by_count() {
    let mut t = Tally::new();
    for key in ["b", "a", "c", "a", "c", "a"] {
        t.count(key.to_string());
    }
    let ranked = t.ranked();
    assert_eq!(
        ranked,
        vec![("a".to_string(), 3), ("c".to_string(), 2), ("b".to_string(), 1)]
    );
    let stats = ChoiceStats { tally: ranked, total_fouls: 0 };
    assert_eq!(stats.target_hits("c"), 2);
    assert_eq!(stats.target_hits("d"), 0);
    assert_eq!(
        top_others(&stats.tally, "a"),
        vec![("c".to_string(), 2), ("b".to_string(), 1)]
    );
    let many: Vec<(String, u32)> = (0..6).map(|i| (format!("m{i}"), 9)).collect();
    assert_eq!(top_others(&many, "m0").len(), 3);
}

#[test]
fn a_trial_ends_with_a_move_a_surrender_or_the_last_foul() {
    let rep = fresh_game();
    let mut t = Trial::start(&rep);
    assert_eq!(t.judge(&rep.pos, &Some("8h2b+".to_string())), None);
    assert_eq!(t.fouls, [1, 0]);
    assert_eq!(t.foul_tried, vec!["8h2b+".to_string()]);
    assert_eq!(t.foul_seq, vec!["8h2b+".to_string()]);
    assert!(matches!(
        &t.log.events()[0],
        Observation::MyFoul { move_number: 1, usi } if usi == "8h2b+"
    ));
    assert_eq!(
        t.judge(&rep.pos, &Some("7g7f".to_string())),
        Some("7g7f".to_string())
    );
    assert_eq!(t.judge(&rep.pos, &None), Some("resign".to_string()));
    for _ in 1..9 {
        assert_eq!(t.judge(&rep.pos, &Some("nonsense".to_string())), None);
    }
    assert_eq!(
        t.judge(&rep.pos, &Some("8h2b+".to_string())),
        Some("foul_limit".to_string())
    );
    assert_eq!(t.fouls, [10, 0]);
    assert_eq!(t.foul_seq.len(), 10);
    assert_eq!(t.foul_tried.len(), 2);
}

#[test]
fn a_strategy_is_warmed_up_before_its_own_attempts() {
    let kifu = score(&["7g7f", "3c3d", "2g2f"], &[]);
    let rep = replay(&kifu, 3).unwrap();
    assert_eq!(prewarm_points(rep.logs.of(Color::Sente)), vec![0, 2]);
    assert_eq!(prewarm_points(rep.logs.of(Color::Gote)), vec![1]);
}

#[test]
fn attackers_are_counted_with_the_king_or_without() {
    let pos = Position::initial();
    let square = |s: &str| parse_usi_square(s).unwrap();
    // 5h: the king and both golds; the rook reaches it along its rank.
    assert_eq!(attackers(&pos, Color::Sente, square("5h"), true), 4);
    assert_eq!(attackers(&pos, Color::Sente, square("5h"), false), 3);
    assert_eq!(attackers(&pos, Color::Gote, square("5h"), true), 0);
    assert_eq!(attack_column(0), 0);
    assert_eq!(attack_column(2), 2);
    assert_eq!(attack_column(7), 3);
}

#[test]
fn the_median_is_the_upper_middle() {
    assert_eq!(median(&vec![]), None);
    assert_eq!(median(&vec![5, 1, 9]), Some(5));
    assert_eq!(median(&vec![5, 1, 9, 7]), Some(7));
}

#[test]
fn flags_are_taken_out_of_the_arguments() {
    let args = |list: &[&str]| -> Vec<String> { list.iter().map(|a| a.to_string()).collect() };
    let (flags, rest) = parse_flags(&args(&[
        "keima", "--ply", "12", "20", "--target", "7g7f", "--diag", "5e,5f",
    ]))
    .unwrap();
    assert_eq!(flags.ply, Some(12));
    assert_eq!(flags.target.as_deref(), Some("7g7f"));
    assert_eq!(flags.diag.as_deref(), Some("5e,5f"));
    assert_eq!(rest, args(&["keima", "20"]));
    let fault = |list: &[&str]| parse_flags(&args(list)).err();
    assert_eq!(fault(&["--ply"]), Some(FlagError::PlyMissing));
    assert_eq!(fault(&["--ply", "x"]), Some(FlagError::PlyNoNumber));
    assert_eq!(fault(&["--target"]), Some(FlagError::TargetMissing));
    assert_eq!(fault(&["--target", "7g"]), Some(FlagError::TargetNoMove));
    assert_eq!(fault(&["a", "--diag"]), Some(FlagError::DiagMissing));
}

#[test]
fn a_scenario_takes_one_line_of_its_score() {
    assert_eq!(
        scenario_line(29, "8d8e", "桂馬の\n王手"),
        "*scenario ply=29 target=8d8e desc=桂馬の 王手\n"
    );
}
