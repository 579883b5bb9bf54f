use tsuitate_bot::board::{parse_usi_square, Coord};
use tsuitate_bot::diagnosis::{
    checker_key, clusters, columns, diagnose_particles, heaviest, list_attackers, Particle,
    TAINT_POOL_CAP,
};
use tsuitate_bot::protocol::{Color, Role};
use tsuitate_bot::shogi::{Piece, Position};

fn at(s: &str) -> Coord {
    parse_usi_square(s).unwrap()
}

fn board(gote: &[(&str, Role)]) -> Position {
    let mut pos = Position::empty(Color::Sente);
    pos.set(at("5e"), Some(Piece { color: Color::Sente, role: Role::King }));
    for (square, role) in gote {
        pos.set(at(square), Some(Piece { color: Color::Gote, role: *role }));
    }
    pos
}

fn particle(pos: &Position, print: u64, miss: u8, taint: u8) -> Particle {
    Particle { pos: pos.clone(), print, miss, taint }
}

#[test]
fn copies_of_a_sample_are_counted_together() {
    let pos = board(&[("9a", Role::King)]);
    let ps = vec![
        particle(&pos, 1, 2, 0),
        particle(&pos, 2, 0, 0),
        particle(&pos, 1, 1, 0),
        particle(&pos, 1, 0, 3),
        particle(&pos, 3, 0, 7),
    ];
    let all = clusters(&ps, false);
    let shown: Vec<(usize, &[usize], u8)> =
        all.iter().map(|c| (c.first, c.members.as_slice(), c.penalty)).collect();
    // A tainted sample never explains all there is.
    assert_eq!(shown, [(0, &[0, 2, 3][..], 1), (1, &[1][..], 0), (4, &[4][..], 1)]);
    let tainted = clusters(&ps, true);
    let shown: Vec<(usize, &[usize], u8)> =
        tainted.iter().map(|c| (c.first, c.members.as_slice(), c.penalty)).collect();
    // A taint above the highest that counts is left out.
    assert_eq!(shown, [(3, &[3][..], 1)]);
}

#[test]
fn the_heaviest_stay() {
    let mut kept = heaviest(&vec![3, 9, 1, 7], 2);
    kept.sort();
    assert_eq!(kept, [1, 3]);
    assert_eq!(heaviest(&vec![3, 9], 5).len(), 2);
    assert!(heaviest(&vec![3, 9], 0).is_empty());
}

#[test]
fn checks_have_a_name() {
    let pos = board(&[("5a", Role::Rook), ("1a", Role::Bishop), ("9a", Role::King)]);
    let checkers = list_attackers(&pos, Color::Gote, at("5e"));
    assert_eq!(checkers.len(), 2);
    let name = checker_key(&checkers);
    assert!(name == "Rook@5a+Bishop@1a" || name == "Bishop@1a+Rook@5a", "{name}");
    assert_eq!(checker_key(&vec![]), "（王手なし）");
    assert_eq!(checker_key(&vec![(at("5a"), Role::Rook)]), "Rook@5a");
}

#[test]
fn samples_are_held_against_the_truth() {
    let truth = board(&[("5a", Role::Rook), ("9a", Role::King)]);
    let other = board(&[("5d", Role::Gold), ("8b", Role::King)]);
    let ps = vec![
        particle(&truth, 1, 0, 0),
        particle(&other, 2, 1, 0),
        particle(&truth, 1, 0, 0),
        particle(&other, 3, 0, 2),
    ];
    let squares = vec![at("5e"), at("8a")];
    let d = diagnose_particles(&ps, &truth, &squares, &vec![5]);
    assert_eq!(d.opp_king, Some(at("9a")));
    assert_eq!(d.without_king, [1, 1]);
    assert_eq!(d.with_king, [1, 2]);
    assert_eq!(d.findings.len(), 3);
    assert_eq!(d.strict, 1);
    assert_eq!(d.findings[0].cluster.members, [0, 2]);
    assert_eq!(d.findings[0].opp_king, Some(at("9a")));
    assert_eq!(d.findings[0].checkers, Some(vec![(at("5a"), Role::Rook)]));
    assert_eq!(d.findings[0].columns, Some(vec![1, 1]));
    assert_eq!(d.findings[1].opp_king, Some(at("8b")));
    assert_eq!(d.findings[1].checkers, Some(vec![(at("5d"), Role::Gold)]));
    assert_eq!(d.findings[1].columns, None);
    assert_eq!(d.pool, [0]);
    assert_eq!(d.tainted.len(), 1);
    assert_eq!(d.tainted[0].columns, [1, 1]);
    assert_eq!(columns(&other, Color::Gote, &squares, false), [1, 0]);
}

#[test]
fn only_the_heaviest_tainted_samples_count() {
    let pos = board(&[("5a", Role::Rook), ("9a", Role::King)]);
    let ps: Vec<Particle> = (0..300).map(|i| particle(&pos, i, 0, 1)).collect();
    assert_eq!(clusters(&ps, true).len(), 300);
    let keys: Vec<i64> = (0..300).collect();
    let d = diagnose_particles(&ps, &pos, &vec![at("5e")], &keys);
    assert_eq!(TAINT_POOL_CAP, 256);
    assert_eq!(d.tainted.len(), 256);
    let mut firsts: Vec<usize> = d.tainted.iter().map(|f| f.cluster.first).collect();
    firsts.sort();
    assert_eq!(firsts, (44..300).collect::<Vec<usize>>());
    assert_eq!(d.findings.len(), 300);
}
