use tsuitate_bot::board::parse_usi_square;
use tsuitate_bot::protocol::{Color, GameEndPayload, MoveRecord, Role};
use tsuitate_bot::shogi::{parse_usi, Position};
use tsuitate_bot::tsume::{
    accept, capped, mine_game, parse_args, question_from, role_kind, signature_of, take_fresh,
    take_per_game, ArgError, Opt, PuzzlePiece, Question, Standard, Verdict,
};

fn played(moves: &[&str]) -> Position {
    let mut pos = Position::initial();
    for usi in moves {
        pos.play_unchecked(&parse_usi(usi).unwrap());
    }
    pos
}

/// A problem as it is written out.
fn canonical(q: &Question) -> String {
    let label = |c: Color| {
        match c {
            Color::Sente => "sente",
            Color::Gote => "gote",
        }
        .to_string()
    };
    let text = |s: String| serde_json::Value::String(s);
    let number = |n: i64| serde_json::Value::Number(serde_json::Number::from(n));
    let board: Vec<serde_json::Value> = q
        .board
        .iter()
        .map(|p| {
            let mut m = serde_json::Map::new();
            m.insert("file".to_string(), number(i64::from(p.square.file)));
            m.insert("rank".to_string(), number(i64::from(p.square.rank)));
            m.insert("color".to_string(), text(label(p.color)));
            m.insert("kind".to_string(), text(role_kind(p.role).to_string()));
            serde_json::Value::Object(m)
        })
        .collect();
    let hand: Vec<serde_json::Value> = q
        .hand
        .iter()
        .map(|(role, n)| {
            let mut m = serde_json::Map::new();
            m.insert("kind".to_string(), text(role_kind(*role).to_string()));
            m.insert("count".to_string(), number(i64::from(*n)));
            serde_json::Value::Object(m)
        })
        .collect();
    let mut whole = serde_json::Map::new();
    whole.insert("board".to_string(), serde_json::Value::Array(board));
    whole.insert("sente_hand".to_string(), serde_json::Value::Array(hand));
    serde_json::to_string(&serde_json::Value::Object(whole)).unwrap()
}

fn signature(q: &Question) -> String {
    signature_of(q)
}

#[test]
fn a_problem_is_written_as_an_object() {
    let q = question_from(&Position::initial(), Color::Sente).unwrap();
    assert_eq!(q.text(), canonical(&q));
    let small = Question {
        board: vec![
            PuzzlePiece {
                square: parse_usi_square("5a").unwrap(),
                color: Color::Gote,
                role: Role::King,
            },
            PuzzlePiece {
                square: parse_usi_square("5c").unwrap(),
                color: Color::Sente,
                role: Role::Tokin,
            },
        ],
        hand: vec![(Role::Gold, 2)],
    };
    assert_eq!(
        small.text(),
        "{\"board\":[{\"color\":\"gote\",\"file\":5,\"kind\":\"king\",\"rank\":1},\
         {\"color\":\"sente\",\"file\":5,\"kind\":\"promoted_pawn\",\"rank\":3}],\
         \"sente_hand\":[{\"count\":2,\"kind\":\"gold\"}]}"
    );
    assert_eq!(small.text(), canonical(&small));
}

#[test]
fn question_keeps_the_whole_position() {
    let pos = Position::initial();
    let q = question_from(&pos, Color::Sente).expect("a problem");
    assert_eq!(q.board.len(), 40);
    assert_eq!(q.board.iter().filter(|p| p.color == Color::Gote).count(), 20);
    assert!(q
        .board
        .iter()
        .any(|p| p.color == Color::Sente && p.role == Role::King));
    assert!(q
        .board
        .iter()
        .any(|p| p.color == Color::Gote && p.role == Role::King));
}

#[test]
fn defender_hand_is_left_to_the_solver() {
    let mut pos = played(&["7g7f", "3c3d", "8h2b+"]);
    let q = question_from(&pos, Color::Gote).expect("a problem");
    assert_eq!(q.hand.len(), 0);
    pos.play_unchecked(&parse_usi("3a2b").unwrap());
    let q = question_from(&pos, Color::Sente).expect("a problem");
    assert_eq!(q.hand, vec![(Role::Bishop, 1)]);
    assert_eq!(role_kind(q.hand[0].0), "bishop");
}

#[test]
fn gote_question_is_rotated() {
    let pos = Position::initial();
    let q = question_from(&pos, Color::Gote).expect("a problem");
    assert!(q.board.iter().any(|p| {
        p.color == Color::Gote
            && p.role == Role::King
            && p.square.file == 5
            && p.square.rank == 1
    }));
    assert!(q.board.iter().any(|p| {
        p.color == Color::Sente
            && p.role == Role::Rook
            && p.square.file == 2
            && p.square.rank == 8
    }));
}

#[test]
fn positions_with_the_defender_already_in_check_are_rejected() {
    let mut pos = played(&["7g7f", "3c3d"]);
    assert!(question_from(&pos, Color::Sente).is_some());
    pos.play_unchecked(&parse_usi("8h3c+").unwrap());
    assert!(question_from(&pos, Color::Sente).is_none());
    assert!(question_from(&pos, Color::Gote).is_some());
}

#[test]
fn signature_is_stable_and_distinguishes_positions() {
    let pos = Position::initial();
    let a = question_from(&pos, Color::Sente).unwrap();
    let b = question_from(&pos, Color::Sente).unwrap();
    assert_eq!(signature(&a), signature(&b));
    assert_eq!(
        signature(&a),
        signature(&question_from(&pos, Color::Gote).unwrap())
    );
    let moved = played(&["7g7f"]);
    assert_ne!(
        signature(&a),
        signature(&question_from(&moved, Color::Sente).unwrap())
    );
    assert_ne!(
        signature(&a),
        signature(&question_from(&moved, Color::Gote).unwrap())
    );
    assert_eq!(signature(&a).len(), 16);
}

fn standard() -> Standard {
    Standard {
        min_depth: 3,
        max_depth: 15,
        allow_second: false,
    }
}

#[test]
fn accept_requires_depth_range_and_rating() {
    let ok = Verdict {
        found: true,
        depth: Some(5),
        second: false,
        rated: true,
    };
    assert!(accept(&standard(), &ok));
    assert!(!accept(&standard(), &Verdict { found: false, ..ok }));
    assert!(!accept(&standard(), &Verdict { depth: Some(1), ..ok }));
    assert!(!accept(&standard(), &Verdict { depth: Some(99), ..ok }));
    assert!(!accept(&standard(), &Verdict { rated: false, ..ok }));
    assert!(!accept(&standard(), &Verdict { second: true, ..ok }));
    assert!(!accept(&standard(), &Verdict { depth: None, ..ok }));
    let lax = Standard {
        allow_second: true,
        ..standard()
    };
    assert!(accept(&lax, &Verdict { second: true, ..ok }));
}

fn taken(accepted: &[(&'static str, i32)], max_per_game: usize) -> Vec<(&'static str, i32)> {
    let games: Vec<String> = accepted.iter().map(|(g, _)| g.to_string()).collect();
    take_per_game(max_per_game, &games)
        .into_iter()
        .map(|i| accepted[i])
        .collect()
}

#[test]
fn only_the_first_mate_of_each_game_and_attacker_is_taken() {
    let accepted = vec![
        ("game-a/sente", 40),
        ("game-a/sente", 42),
        ("game-b/gote", 51),
        ("game-a/sente", 44),
        ("game-a/gote", 45),
        ("game-b/gote", 53),
        ("game-a/gote", 47),
    ];
    assert_eq!(
        taken(&accepted, 1),
        vec![("game-a/sente", 40), ("game-b/gote", 51), ("game-a/gote", 45)]
    );
    assert_eq!(
        taken(&accepted, 2),
        vec![
            ("game-a/sente", 40),
            ("game-a/sente", 42),
            ("game-b/gote", 51),
            ("game-a/gote", 45),
            ("game-b/gote", 53),
            ("game-a/gote", 47),
        ]
    );
    assert_eq!(taken(&accepted, 0), accepted);
}

#[test]
fn the_board_of_a_problem_is_sorted() {
    let q = question_from(&played(&["7g7f", "3c3d"]), Color::Sente).unwrap();
    let places: Vec<(i8, i8)> = q.board.iter().map(|p| (p.square.file, p.square.rank)).collect();
    let mut sorted = places.clone();
    sorted.sort();
    assert_eq!(places, sorted);
    assert_eq!(parse_usi_square("1a").unwrap().file, places[0].0);
}

#[test]
fn a_game_is_mined_from_a_move_on() {
    let end = GameEndPayload {
        result: "draw".to_string(),
        reason: "test".to_string(),
        moves: ["7g7f", "3c3d", "2g2f"]
            .iter()
            .enumerate()
            .map(|(i, usi)| MoveRecord {
                usi: usi.to_string(),
                by_color: if i % 2 == 0 { Color::Sente } else { Color::Gote },
                ms: 0,
                fouls_before: 0,
            })
            .collect(),
        foul_attempts: vec![],
    };
    let found = mine_game(&end, "g1", 1).unwrap();
    assert_eq!(found.len(), 2);
    assert_eq!(found[0].game, "g1/gote");
    assert_eq!(found[0].origin, "g1#1");
    assert_eq!(found[1].game, "g1/sente");
    assert_eq!(found[1].origin, "g1#2");
}

#[test]
fn a_signature_counts_once() {
    let mut seen = vec!["old".to_string()];
    let list: Vec<String> = ["a", "old", "b", "a"].iter().map(|s| s.to_string()).collect();
    assert_eq!(take_fresh(&mut seen, &list), vec![0, 2]);
    assert_eq!(take_fresh(&mut seen, &list), Vec::<usize>::new());
}

fn args(list: &[&str]) -> Vec<String> {
    list.iter().map(|s| s.to_string()).collect()
}

#[test]
fn arguments_are_read_or_refused() {
    let a = parse_args(
        &args(&["x.jsonl", "--min-depth", "5", "--allow-second", "--out", "o.json", "y"]),
        Some("solve".to_string()),
    )
    .unwrap();
    assert_eq!(a.inputs, vec!["x.jsonl".to_string(), "y".to_string()]);
    assert_eq!((a.min_depth, a.max_depth, a.skip_plies), (5, 15, 20));
    assert_eq!((a.limit, a.max_per_game, a.max_candidates, a.jobs), (0, 1, 0, 1));
    assert_eq!((a.timeout_secs, a.memory_limit_mb), (60, 2000));
    assert_eq!((a.node_limit, a.rating_node_limit), (20_000_000, 200_000));
    assert!(a.allow_second);
    assert_eq!(a.out, Some("o.json".to_string()));
    assert_eq!(a.solver, Some("solve".to_string()));
    assert_eq!(a.source, "selfplay");
    assert!(a.dump_candidates.is_none());
    assert!(matches!(
        parse_args(&args(&["x", "--limit"]), None),
        Err(ArgError::Missing(Opt::Limit))
    ));
    assert!(matches!(
        parse_args(&args(&["x", "--jobs", "many"]), None),
        Err(ArgError::NoNumber(Opt::Jobs))
    ));
    assert!(matches!(
        parse_args(&args(&["x", "--min-depth", "4294967296"]), None),
        Err(ArgError::NoNumber(Opt::MinDepth))
    ));
    assert!(matches!(
        parse_args(&args(&["x", "--what"]), None),
        Err(ArgError::Unknown(_))
    ));
    assert!(matches!(parse_args(&args(&[]), None), Err(ArgError::NoInputs)));
    assert!(matches!(
        parse_args(&args(&["x", "--jobs", "0"]), None),
        Err(ArgError::NoJobs)
    ));
}

#[test]
fn a_long_mate_is_not_cut_to_a_short_one() {
    let ok = Verdict { found: true, depth: Some(5), second: false, rated: true };
    assert!(!accept(&standard(), &Verdict { depth: Some((1 << 32) + 5), ..ok }));
    let wide = Standard { max_depth: u32::MAX, ..standard() };
    assert!(accept(&wide, &Verdict { depth: Some(u64::from(u32::MAX)), ..ok }));
    assert!(!accept(&wide, &Verdict { depth: Some(u64::from(u32::MAX) + 1), ..ok }));
}

#[test]
fn enough_candidates_end_the_search() {
    assert_eq!(capped(7, 0), (7, false));
    assert_eq!(capped(7, 8), (7, false));
    assert_eq!(capped(8, 8), (8, true));
    assert_eq!(capped(11, 8), (8, true));
}

#[test]
fn a_signature_is_short_hexadecimal() {
    let q = question_from(&Position::initial(), Color::Sente).unwrap();
    let s = signature_of(&q);
    assert_eq!(s.len(), 16);
    assert!(s.chars().all(|c| c.is_ascii_digit() || ('a'..='f').contains(&c)));
    let none = Question { board: vec![], hand: vec![] };
    assert_eq!(none.text(), "{\"board\":[],\"sente_hand\":[]}");
    assert_eq!(signature_of(&none), "d1f4d95c04f35d65");
}
