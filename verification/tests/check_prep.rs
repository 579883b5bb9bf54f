use std::collections::BTreeSet;

use tsuitate_bot::board::{parse_usi_square, Coord};
use tsuitate_bot::check_prep::{
    bot_foul_counts, chase_events, coverage_of, decision_snapshots, dist_bucket, f4_from_covered,
    features, k_def_truth, known_enemy_squares, nonking_capture_of_checker, origin_squares,
    pieces_after, ChaseClass, OriginClass, PrepFeatures,
};
use tsuitate_bot::observation::{Observation, ObservationLog};
use tsuitate_bot::protocol::{Color, FoulRecord, GameEndPayload, MoveRecord, Role, VisiblePiece};
use tsuitate_bot::replay::replay_game;
use tsuitate_bot::shogi::{parse_usi, Piece, Position};

fn at(usi: &str) -> Coord {
    parse_usi_square(usi).unwrap()
}

fn vp(square: &str, role: Role) -> VisiblePiece {
    VisiblePiece {
        square: square.to_string(),
        role,
    }
}

/// 王手起点集合は玉位置だけで決まり自駒では縮まない
#[test]
fn origins_of_checks_depend_on_the_king_alone() {
    let origins = origin_squares(at("5i"), Color::Sente);
    assert_eq!(origins.len(), origin_squares(at("5i"), Color::Sente).len());
    assert!(origins.iter().all(|o| o.dist >= 2));
    let knights: BTreeSet<(i8, i8)> = origins
        .iter()
        .filter(|o| o.class == OriginClass::Knight)
        .map(|o| (o.sq.file, o.sq.rank))
        .collect();
    assert_eq!(
        knights,
        BTreeSet::from([
            (at("4g").file, at("4g").rank),
            (at("6g").file, at("6g").rank)
        ])
    );
    assert!(origin_squares(at("1a"), Color::Sente)
        .iter()
        .all(|o| o.class != OriginClass::Knight));
}

/// 起点の被覆は確定利きと楽観レイを分ける
#[test]
fn coverage_tells_sure_attacks_from_optimistic_rays() {
    let pieces = vec![
        vp("5i", Role::King),
        vp("5g", Role::Pawn),
        vp("8h", Role::Bishop),
    ];
    let cov = coverage_of(&pieces, Color::Sente);
    assert!(cov.covered_sure(at("5f")));
    assert!(cov.covered(at("5e")) && !cov.covered_sure(at("5e")));
    assert!(!cov.covered(at("5h")));
}

/// f3は隣接を3状態に排他分割する
#[test]
fn f3_splits_the_neighbours_into_three() {
    let pieces = vec![
        vp("5i", Role::King),
        vp("5h", Role::Gold),
        vp("4h", Role::Silver),
    ];
    let f = features(&pieces, Color::Sente, &[]);
    assert_eq!(f.f3.on_board_total(), 5);
    assert_eq!(f.f3.own_occupied, 2);
    assert_eq!(f.f3.open_covered, 1);
    assert_eq!(f.f3.open_uncovered, 2);
    assert_eq!(f.f2.flight_all, 3);
}

/// f4は着手後の配置で出発マスの被覆を見る
#[test]
fn f4_looks_at_the_square_left_behind() {
    let after = vec![vp("4i", Role::King), vp("5f", Role::Rook)];
    let (covered, n) = f4_from_covered(&after, Color::Sente, at("5i"));
    assert!(covered && n == 1);
    let after2 = vec![vp("4i", Role::King), vp("5h", Role::Gold)];
    assert!(f4_from_covered(&after2, Color::Sente, at("5i")).0);
    let bare = vec![vp("4i", Role::King)];
    assert!(!f4_from_covered(&bare, Color::Sente, at("5i")).0);
}

/// 被覆率は自駒を足すと単調に上がる
#[test]
fn coverage_grows_with_own_pieces() {
    let bare = vec![vp("5i", Role::King)];
    let with_rook = vec![vp("5i", Role::King), vp("5h", Role::Rook)];
    let a = features(&bare, Color::Sente, &[]);
    let b = features(&with_rook, Color::Sente, &[]);
    assert_eq!(a.f1.total(), b.f1.total());
    assert!(b.f1.covered() > a.f1.covered());
    // With equal weights the weighted share is the plain one.
    let share = |covered: u32, total: u32| f64::from(covered) / f64::from(total);
    assert!(share(b.f1.covered(), b.f1.total()) > share(a.f1.covered(), a.f1.total()));
}

/// 既知の敵駒は自分がそのマスで取り返すと消える
#[test]
fn a_known_enemy_is_gone_once_retaken() {
    let mut log = ObservationLog::default();
    log.record(Observation::OpponentMoved {
        move_number: 4,
        captured_my_piece_at: Some("7f".to_string()),
    });
    log.record(Observation::MyFoul {
        move_number: 5,
        usi: "P*5e".to_string(),
    });
    assert_eq!(known_enemy_squares(&log), vec![at("5e"), at("7f")]);
    log.record(Observation::MyMove {
        move_number: 6,
        usi: "8h7f".to_string(),
        captured: Some(Role::Pawn),
    });
    assert_eq!(known_enemy_squares(&log), vec![at("5e")]);
}

/// 玉以外での王手駒捕獲の合法性は真実で判定する
#[test]
fn capturing_the_checker_is_judged_by_the_truth() {
    let mut pos = Position::empty(Color::Sente);
    pos.set(
        at("5i"),
        Some(Piece {
            color: Color::Sente,
            role: Role::King,
        }),
    );
    pos.set(
        at("4h"),
        Some(Piece {
            color: Color::Sente,
            role: Role::Gold,
        }),
    );
    pos.set(
        at("5h"),
        Some(Piece {
            color: Color::Gote,
            role: Role::Gold,
        }),
    );
    pos.set(
        at("1a"),
        Some(Piece {
            color: Color::Gote,
            role: Role::King,
        }),
    );
    assert!(pos.in_check(Color::Sente));
    assert!(nonking_capture_of_checker(&pos, Color::Sente));
    let mut pinned = pos;
    pinned.set(at("4h"), None);
    assert!(!nonking_capture_of_checker(&pinned, Color::Sente));
    assert_eq!(k_def_truth(&pinned), pinned.legal_moves().len() as u32);
}

fn end_of(moves: &[(&str, Color)], fouls: &[(u32, Color, &str)]) -> GameEndPayload {
    GameEndPayload {
        result: "draw".to_string(),
        reason: "test".to_string(),
        moves: moves
            .iter()
            .map(|&(usi, by_color)| MoveRecord {
                usi: usi.to_string(),
                by_color,
                ms: 0,
                fouls_before: 0,
            })
            .collect(),
        foul_attempts: fouls
            .iter()
            .map(|&(move_number, by_color, usi)| FoulRecord {
                move_number,
                by_color,
                usi: usi.to_string(),
            })
            .collect(),
    }
}

/// 決定点の復元は終端の手番も1つ足す
#[test]
fn restored_decision_points_count_the_last_turn() {
    let end = end_of(
        &[
            ("7g7f", Color::Sente),
            ("3c3d", Color::Gote),
            ("8h2b+", Color::Sente),
        ],
        &[(4, Color::Gote, "5a5b"), (4, Color::Gote, "5a4b")],
    );
    let snaps = decision_snapshots(&end).unwrap();
    assert_eq!(snaps.len(), 4);
    assert!(snaps[..3].iter().all(|s| !s.terminal));
    let last = snaps.last().unwrap();
    assert!(last.terminal);
    assert_eq!(last.side, Color::Gote);
    assert_eq!(last.fouls_this_turn, 2);
    assert_eq!(last.fouls, [0, 2]);
    assert!(last
        .pos
        .piece_at(at("2b"))
        .is_some_and(|p| p.color == Color::Sente));
    assert_eq!(
        last.logs
            .of(Color::Gote)
            .events()
            .iter()
            .filter(|e| matches!(e, Observation::OpponentMoved { .. }))
            .count(),
        2
    );
    assert!(decision_snapshots(&end_of(&[("9i9a", Color::Sente)], &[])).is_none());
    for (i, s) in snaps.iter().enumerate() {
        assert_eq!(s.decision_id, i as u64);
    }
}

#[test]
fn fouls_are_counted_by_move() {
    let end = end_of(
        &[("7g7f", Color::Sente)],
        &[
            (1, Color::Sente, "5i5g"),
            (1, Color::Sente, "5i5f"),
            (2, Color::Gote, "5a5c"),
        ],
    );
    let counts = bot_foul_counts(&end, Color::Sente);
    assert_eq!(counts.get(&1), Some(&2));
    assert_eq!(counts.get(&2), None);
}

#[test]
fn a_second_check_after_a_flight_is_a_chase() {
    // A bishop is dropped with check, the king flees, the bishop follows onto its square.
    let moves = [
        "7g7f", "3c3d", "8h2b+", "3a2b", "9g9f", "B*7g", "5i4h", "7g5i+", "4i5i",
    ];
    let list: Vec<(&str, Color)> = moves
        .iter()
        .enumerate()
        .map(|(i, m)| (*m, if i % 2 == 0 { Color::Sente } else { Color::Gote }))
        .collect();
    let end = end_of(&list, &[(9, Color::Sente, "4h5h")]);
    let replay = replay_game(&end);
    assert!(replay.ok);
    let positions: Vec<Position> = replay.decisions.iter().map(|d| d.pos).collect();
    let fouls = bot_foul_counts(&end, Color::Sente);
    let events = chase_events(&end, &positions, Color::Sente, &fouls);
    assert_eq!(events.len(), 1);
    let e = &events[0];
    assert_eq!(e.class, ChaseClass::AtPrevKing);
    assert_eq!((e.prev_king, e.new_king), (at("5i"), at("4h")));
    assert_eq!(e.fouls, 1);
    assert!(e.prev_king_covered);
    assert!(chase_events(&end, &positions, Color::Gote, &fouls).is_empty());
    let labels: Vec<&str> = ChaseClass::all().iter().map(|c| c.label()).collect();
    assert_eq!(labels.len(), 3);
}

#[test]
fn a_moved_piece_leaves_its_square() {
    let pieces = vec![vp("5i", Role::King), vp("7g", Role::Pawn)];
    let after = pieces_after(&pieces, &parse_usi("7g7f").unwrap());
    assert_eq!(after, vec![vp("5i", Role::King), vp("7f", Role::Pawn)]);
    let dropped = pieces_after(&pieces, &parse_usi("G*5h").unwrap());
    assert_eq!(dropped.len(), 3);
    assert_eq!(
        (dist_bucket(2), dist_bucket(3), dist_bucket(4), dist_bucket(7)),
        (0, 1, 2, 3)
    );
}

/// 一手も通らずに反則で終わった局でも、終局した手番が残る
#[test]
fn a_game_lost_before_a_move_keeps_its_terminal_turn() {
    let end = end_of(
        &[],
        &[
            (1, Color::Sente, "5i5a"),
            (1, Color::Sente, "2h2a"),
            (1, Color::Sente, "8h1a"),
        ],
    );
    let snaps = decision_snapshots(&end).unwrap();
    assert_eq!(snaps.len(), 1);
    assert!(snaps[0].terminal);
    assert_eq!(snaps[0].side, Color::Sente);
    assert_eq!(snaps[0].fouls_this_turn, 3);
    assert_eq!(snaps[0].fouls, [3, 0]);
    assert_eq!(snaps[0].decision_id, 0);
    assert_eq!(snaps[0].pos.move_number(), 1);
    assert!(snaps[0].pos.piece_at(at("5i")).is_some());

    let quiet = decision_snapshots(&end_of(&[], &[])).unwrap();
    assert_eq!(quiet.len(), 1);
    assert!(quiet[0].terminal);
    assert_eq!(quiet[0].fouls_this_turn, 0);
    assert_eq!(quiet[0].fouls, [0, 0]);
}

#[test]
fn the_counts_around_the_king_agree() {
    let a = vec![vp("5i", Role::King), vp("5h", Role::Rook), vp("4i", Role::Gold), vp("6g", Role::Pawn)];
    let b = vec![vp("5i", Role::King), vp("9i", Role::Lance)];
    let fa = features(&a, Color::Sente, &[at("5e")]);
    let fb = features(&b, Color::Sente, &[]);
    for i in 0..3 {
        assert_eq!(fa.f1.by_class[i].0, fb.f1.by_class[i].0);
        assert!(fa.f1.by_class[i].2 <= fa.f1.by_class[i].1);
    }
    for j in 0..4 {
        assert_eq!(fa.f1.by_dist[j].0, fb.f1.by_dist[j].0);
    }
    assert_eq!(fa.f1.by_dist.iter().map(|d| d.0).sum::<u32>(), fa.f1.total());
    assert_eq!(fa.f1.by_dist.iter().map(|d| d.1).sum::<u32>(), fa.f1.covered());
    assert_eq!(fa.f3.adj_total, 5);
    assert_eq!(fa.f3.on_board_total(), 5);
    assert_eq!(fa.f3.own_occupied, 2);
    assert_eq!(fa.f2.flight_all, fa.f3.open_uncovered + fa.f3.open_covered);
    assert!(fa.f2.flight_shielded <= fa.f2.flight_all);
    assert!(fa.f3.open_covered <= fa.f3.adj_covered);
    assert!(fa.f3.adj_covered <= fa.f3.open_covered + fa.f3.own_occupied);
    let none = features(&[vp("5h", Role::Rook)], Color::Sente, &[at("5e")]);
    assert_eq!(none, PrepFeatures::default());
    assert_eq!(none.f3.adj_total, 0);
}
