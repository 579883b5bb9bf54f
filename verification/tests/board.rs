use tsuitate_bot::board::{
    drop_targets, make_usi_drop, make_usi_move, make_usi_square, move_targets, parse_usi_square,
    promotion_choice, Coord, Promotion,
};
use tsuitate_bot::protocol::{Color, Role, VisiblePiece};

fn piece(square: &str, role: Role) -> VisiblePiece {
    VisiblePiece {
        square: square.to_string(),
        role,
    }
}

#[test]
fn usi_square_roundtrip() {
    let c = parse_usi_square("7g").unwrap();
    assert_eq!(c, Coord { file: 7, rank: 7 });
    assert_eq!(make_usi_square(c), "7g");
    assert_eq!(parse_usi_square("0a"), None);
    assert_eq!(parse_usi_square("1j"), None);
}

#[test]
fn usi_move_and_drop() {
    let from = parse_usi_square("8h").unwrap();
    let to = parse_usi_square("2b").unwrap();
    assert_eq!(make_usi_move(from, to, true), "8h2b+");
    assert_eq!(
        make_usi_drop(Role::Pawn, parse_usi_square("5e").unwrap()),
        Some("P*5e".to_string())
    );
    assert_eq!(make_usi_drop(Role::Tokin, parse_usi_square("5e").unwrap()), None);
}

#[test]
fn pawn_moves_forward_only() {
    let pieces = vec![piece("7g", Role::Pawn)];
    let targets = move_targets(&pieces, &pieces[0], Color::Sente);
    assert_eq!(targets, vec![Coord { file: 7, rank: 6 }]);
    // Gote moves the other way.
    let targets = move_targets(&pieces, &pieces[0], Color::Gote);
    assert_eq!(targets, vec![Coord { file: 7, rank: 8 }]);
}

#[test]
fn own_piece_blocks_step_and_ray() {
    let pieces = vec![piece("7g", Role::Pawn), piece("7f", Role::Silver)];
    // The own silver stands in front of the pawn.
    assert!(move_targets(&pieces, &pieces[0], Color::Sente).is_empty());

    let pieces = vec![piece("1i", Role::Lance), piece("1f", Role::Pawn)];
    // The run of the lance ends before the own piece.
    let targets = move_targets(&pieces, &pieces[0], Color::Sente);
    assert_eq!(
        targets,
        vec![Coord { file: 1, rank: 8 }, Coord { file: 1, rank: 7 }]
    );
}

#[test]
fn knight_jumps() {
    let pieces = vec![piece("8i", Role::Knight), piece("8h", Role::Rook)];
    let targets = move_targets(&pieces, &pieces[0], Color::Sente);
    assert_eq!(
        targets,
        vec![Coord { file: 9, rank: 7 }, Coord { file: 7, rank: 7 }]
    );
}

#[test]
fn horse_combines_step_and_ray() {
    let pieces = vec![piece("5e", Role::Horse)];
    let targets = move_targets(&pieces, &pieces[0], Color::Sente);
    // Four steps and four runs of four squares each.
    assert_eq!(targets.len(), 20);
}

#[test]
fn pawn_drop_respects_nifu_and_dead_end() {
    let pieces = vec![piece("7g", Role::Pawn)];
    let targets = drop_targets(&pieces, Role::Pawn, Color::Sente);
    assert!(targets.iter().all(|c| c.file != 7));
    assert!(targets.iter().all(|c| c.rank != 1));
    assert_eq!(targets.len(), 8 * 9 - 8);
}

#[test]
fn knight_drop_dead_end() {
    let targets = drop_targets(&[], Role::Knight, Color::Sente);
    assert!(targets.iter().all(|c| c.rank >= 3));
    let targets = drop_targets(&[], Role::Knight, Color::Gote);
    assert!(targets.iter().all(|c| c.rank <= 7));
}

#[test]
fn promotion_rules() {
    let from = parse_usi_square("2c").unwrap();
    let to = parse_usi_square("2b").unwrap();
    assert_eq!(
        promotion_choice(Role::Silver, from, to, Color::Sente),
        Promotion::Optional
    );
    // A pawn on the last rank has to promote.
    let to1 = parse_usi_square("2a").unwrap();
    let from2 = parse_usi_square("2b").unwrap();
    assert_eq!(
        promotion_choice(Role::Pawn, from2, to1, Color::Sente),
        Promotion::Forced
    );
    // A move far from the zone cannot promote.
    let f = parse_usi_square("5g").unwrap();
    let t = parse_usi_square("5f").unwrap();
    assert_eq!(promotion_choice(Role::Rook, f, t, Color::Sente), Promotion::Never);
    // Neither can gold, king and promoted pieces.
    assert_eq!(promotion_choice(Role::Gold, from, to, Color::Sente), Promotion::Never);
}

#[test]
fn every_square_reads_back() {
    for file in 1..=9i8 {
        for rank in 1..=9i8 {
            let c = Coord { file, rank };
            assert_eq!(parse_usi_square(&make_usi_square(c)), Some(c));
        }
    }
    assert_eq!(parse_usi_square(""), None);
    assert_eq!(parse_usi_square("55"), None);
    assert_eq!(parse_usi_square("5ee"), None);
}

#[test]
fn pieces_that_do_not_read_stay_where_they_are() {
    let pieces = vec![piece("nowhere", Role::Rook)];
    assert!(move_targets(&pieces, &pieces[0], Color::Sente).is_empty());
}

#[test]
fn the_turned_board_has_the_turned_targets() {
    let turn = |c: Coord| Coord { file: 10 - c.file, rank: 10 - c.rank };
    let turned = |p: &VisiblePiece| {
        piece(&make_usi_square(turn(parse_usi_square(&p.square).unwrap())), p.role)
    };
    let pieces = vec![
        piece("5e", Role::Horse),
        piece("5c", Role::Pawn),
        piece("2h", Role::Rook),
        piece("2f", Role::Knight),
        piece("7g", Role::Silver),
    ];
    let other: Vec<VisiblePiece> = pieces.iter().map(turned).collect();
    for (p, q) in pieces.iter().zip(&other) {
        let targets = move_targets(&pieces, p, Color::Sente);
        assert!(!targets.is_empty());
        assert_eq!(
            move_targets(&other, q, Color::Gote),
            targets.into_iter().map(turn).collect::<Vec<_>>()
        );
    }
}
