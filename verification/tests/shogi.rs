use tsuitate_bot::board::parse_usi_square;
use tsuitate_bot::protocol::{Color, Role};
use tsuitate_bot::shogi::{
    parse_usi, promote_role, unpromote_role, Outcome, Piece, Position, ShogiMove,
};

fn put(pos: &mut Position, square: &str, color: Color, role: Role) {
    pos.set(parse_usi_square(square).unwrap(), Some(Piece { color, role }));
}

#[test]
fn moves_read_back() {
    for text in ["7g7f", "8h2b+", "P*5e", "G*1a", "9i9a"] {
        let mv = parse_usi(text).unwrap();
        assert_eq!(mv.to_usi(), text);
    }
    for text in ["", "7g", "7g7j", "K*5e", "7g7f-", "P5e", "7g7f++"] {
        assert!(parse_usi(text).is_none(), "{text}");
    }
}

#[test]
fn thirty_moves_at_the_start() {
    let pos = Position::initial();
    assert_eq!(pos.legal_moves().len(), 30);
    assert_eq!(pos.turn(), Color::Sente);
    assert_eq!(pos.move_number(), 1);
    assert!(pos.outcome().is_none());
    assert_eq!(pos.pieces().len(), 40);
}

#[test]
fn captures_go_to_the_hand_unpromoted() {
    let mut pos = Position::initial();
    for text in ["7g7f", "3c3d", "8h2b+"] {
        let mv = parse_usi(text).unwrap();
        assert!(pos.is_legal(&mv), "{text}");
        pos.play_unchecked(&mv);
    }
    assert_eq!(pos.hand_count(Color::Sente, Role::Bishop), 1);
    let horse = pos.piece_at(parse_usi_square("2b").unwrap()).unwrap();
    assert_eq!(horse.role, Role::Horse);
    let taken = pos.play_unchecked(&parse_usi("3a2b").unwrap());
    assert_eq!(taken, Some(Role::Horse));
    assert_eq!(pos.hand_count(Color::Gote, Role::Bishop), 1);
}

#[test]
fn a_king_may_not_stay_in_check() {
    let mut pos = Position::empty(Color::Sente);
    put(&mut pos, "5i", Color::Sente, Role::King);
    put(&mut pos, "5a", Color::Gote, Role::Rook);
    put(&mut pos, "1a", Color::Gote, Role::King);
    assert!(pos.in_check(Color::Sente));
    assert!(!pos.in_check(Color::Gote));
    assert!(!pos.is_legal(&parse_usi("5i5h").unwrap()));
    assert!(pos.is_legal(&parse_usi("5i4i").unwrap()));
}

#[test]
fn a_dropped_pawn_may_not_mate() {
    // The king in the corner, its own pieces around it, a gold that guards the pawn.
    let mut pos = Position::empty(Color::Sente);
    put(&mut pos, "1a", Color::Gote, Role::King);
    put(&mut pos, "2a", Color::Gote, Role::Knight);
    put(&mut pos, "2b", Color::Gote, Role::Gold);
    put(&mut pos, "2c", Color::Sente, Role::Gold);
    put(&mut pos, "9i", Color::Sente, Role::King);
    pos.set_hand(Color::Sente, Role::Pawn, 1);
    pos.set_hand(Color::Sente, Role::Lance, 1);
    let pawn = ShogiMove::Drop {
        role: Role::Pawn,
        to: parse_usi_square("1b").unwrap(),
    };
    // The gold takes the pawn, so this is no mate yet.
    assert!(pos.is_legal(&pawn));
    put(&mut pos, "2b", Color::Gote, Role::Pawn);
    put(&mut pos, "2c", Color::Sente, Role::Gold);
    put(&mut pos, "1c", Color::Sente, Role::Gold);
    assert!(pos.is_pseudo_legal(&pawn));
    assert!(!pos.is_legal(&pawn));
    // A lance may.
    let lance = ShogiMove::Drop {
        role: Role::Lance,
        to: parse_usi_square("1b").unwrap(),
    };
    assert!(pos.is_legal(&lance));
}

#[test]
fn without_a_move_the_game_is_over() {
    let mut pos = Position::empty(Color::Gote);
    put(&mut pos, "1a", Color::Gote, Role::King);
    put(&mut pos, "1b", Color::Sente, Role::Gold);
    put(&mut pos, "1c", Color::Sente, Role::Lance);
    put(&mut pos, "2c", Color::Sente, Role::Gold);
    put(&mut pos, "9i", Color::Sente, Role::King);
    assert_eq!(pos.outcome(), Some(Outcome::Checkmate { winner: Color::Sente }));
    let mut still = Position::empty(Color::Gote);
    put(&mut still, "1a", Color::Gote, Role::King);
    put(&mut still, "2c", Color::Sente, Role::Dragon);
    put(&mut still, "9i", Color::Sente, Role::King);
    put(&mut still, "1c", Color::Sente, Role::Gold);
    assert_eq!(still.outcome(), Some(Outcome::Stalemate { winner: Color::Sente }));
}

#[test]
fn promotion_goes_both_ways() {
    assert_eq!(promote_role(Role::Pawn), Some(Role::Tokin));
    assert_eq!(promote_role(Role::Gold), None);
    assert_eq!(unpromote_role(Role::Dragon), Role::Rook);
    assert_eq!(unpromote_role(Role::King), Role::King);
}
