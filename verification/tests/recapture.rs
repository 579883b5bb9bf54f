use tsuitate_bot::board::parse_usi_square;
use tsuitate_bot::protocol::{Color, GameEndPayload, MoveRecord, Role};
use tsuitate_bot::recapture::{
    measure, moves_to, probe_game, profitable, role_index, Measure, Ranked, Summaries,
    Summary, WORTH_IT,
};
use tsuitate_bot::shogi::{Piece, Position};

fn game(moves: &[&str]) -> GameEndPayload {
    GameEndPayload {
        result: "draw".to_string(),
        reason: "limit".to_string(),
        moves: moves
            .iter()
            .enumerate()
            .map(|(i, usi)| MoveRecord {
                usi: usi.to_string(),
                by_color: if i % 2 == 0 { Color::Sente } else { Color::Gote },
                ms: 0,
                fouls_before: 0,
            })
            .collect(),
        foul_attempts: vec![],
    }
}

#[test]
fn a_move_goes_to_its_square() {
    let t = parse_usi_square("2b").unwrap();
    assert!(moves_to("8h2b+", t));
    assert!(moves_to("3a2b", t));
    assert!(!moves_to("P*2b", t));
    assert!(!moves_to("2b3c", t));
    assert!(!moves_to("2b", t));
}

#[test]
fn a_capture_gives_a_chance_to_take_back() {
    let end = game(&["7g7f", "3c3d", "8h2b+", "3a2b", "2g2f"]);
    let probed = probe_game(&end, Color::Gote).unwrap();
    assert_eq!(probed.decisions.len(), 5);
    assert_eq!(probed.chances.len(), 1);
    assert_eq!(probed.chances[0].decision, 3);
    assert_eq!(probed.chances[0].target, parse_usi_square("2b").unwrap());
    let probed = probe_game(&end, Color::Sente).unwrap();
    assert_eq!(probed.chances.len(), 1);
    assert_eq!(probed.chances[0].decision, 4);
    assert!(probe_game(&game(&["7g7f", "7g7f"]), Color::Gote).is_none());
}

#[test]
fn taking_back_is_weighed() {
    let put = |pos: &mut Position, square: &str, color: Color, role: Role| {
        pos.set(parse_usi_square(square).unwrap(), Some(Piece { color, role }));
    };
    let mut worth = [0u32; 14];
    worth[role_index(Role::Pawn)] = 1000;
    worth[role_index(Role::Rook)] = 10000;
    worth[role_index(Role::Silver)] = 5000;
    let mut pos = Position::empty(Color::Sente);
    put(&mut pos, "5i", Color::Sente, Role::King);
    put(&mut pos, "1a", Color::Gote, Role::King);
    put(&mut pos, "2h", Color::Sente, Role::Rook);
    put(&mut pos, "2d", Color::Gote, Role::Pawn);
    let target = parse_usi_square("2d").unwrap();
    assert!(profitable(&pos, Color::Sente, target, &worth));
    // A guard makes a rook too dear for a pawn.
    put(&mut pos, "2c", Color::Gote, Role::Gold);
    assert!(!profitable(&pos, Color::Sente, target, &worth));
    put(&mut pos, "2d", Color::Gote, Role::Silver);
    put(&mut pos, "2e", Color::Sente, Role::Pawn);
    assert!(profitable(&pos, Color::Sente, target, &worth));
    assert_eq!(WORTH_IT, 500);
    assert_eq!(role_index(Role::Dragon), 13);
}

#[test]
fn a_ranking_is_measured() {
    let r = |usi: &str, static_key: i64| Ranked {
        usi: usi.to_string(),
        static_key,
        depth2: usi == "3a2b",
    };
    let t = parse_usi_square("2b").unwrap();
    let ranking = vec![r("7g7f", 5), r("3a2b", 3), r("2g2f", 9), r("1c2b", 8)];
    assert_eq!(
        measure(&ranking, "2g2f", t),
        Some(Measure { final_rank: 1, static_rank: 1, chosen: 2, took: false, depth2: true })
    );
    assert_eq!(
        measure(&ranking, "3a2b", t),
        Some(Measure { final_rank: 1, static_rank: 1, chosen: 1, took: true, depth2: true })
    );
    assert_eq!(measure(&ranking, "9i9h", t), None);
    assert_eq!(measure(&vec![r("7g7f", 5)], "7g7f", t), None);
}

#[test]
fn chances_are_summed_up() {
    let m = |final_rank: usize, static_rank: usize, took: bool, depth2: bool| {
        Some(Measure { final_rank, static_rank, chosen: 0, took, depth2 })
    };
    let mut s = Summary::new();
    s.count(true, &m(0, 4, true, true));
    s.count(false, &m(2, 1, false, false));
    s.count(true, &None);
    assert_eq!(
        s,
        Summary {
            cases: 3,
            with_candidate: 2,
            chosen_recapture: 1,
            final_rank_sum: 4,
            static_rank_sum: 7,
            depth2_in: 1,
            truth_profitable: 2,
            truth_profitable_taken: 1,
        }
    );
    let t = s;
    s.merge(&t);
    assert_eq!((s.cases, s.final_rank_sum, s.depth2_in), (6, 8, 2));
}

/// 「真実では得なのに取り返さなかった」機会だけの集計
#[test]
fn missed_chances_stand_apart() {
    let m = |took: bool| {
        Some(Measure { final_rank: 2, static_rank: 5, chosen: 0, took, depth2: true })
    };
    let mut s = Summaries::new();
    s.count(true, &m(true));
    s.count(false, &m(false));
    s.count(true, &None);
    assert_eq!(s.missed, Summary::new());
    s.count(true, &m(false));
    assert_eq!(
        s.missed,
        Summary {
            cases: 1,
            with_candidate: 1,
            chosen_recapture: 0,
            final_rank_sum: 3,
            static_rank_sum: 6,
            depth2_in: 1,
            truth_profitable: 0,
            truth_profitable_taken: 0,
        }
    );
    assert_eq!((s.all.cases, s.all.with_candidate, s.all.truth_profitable), (4, 3, 3));
    let t = s;
    s.merge(&t);
    assert_eq!((s.all.cases, s.missed.cases), (8, 2));
}
