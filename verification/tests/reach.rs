use tsuitate_bot::board::parse_usi_square;
use tsuitate_bot::protocol::{Color, Role};
use tsuitate_bot::reach::{distances, piece_attacks_square};

#[test]
fn moves_on_an_empty_board_are_counted() {
    let at = |s: &str| parse_usi_square(s).unwrap();
    let d = distances(Role::Gold, Color::Sente, at("5i"), 9);
    assert_eq!(d.get(at("5i"), false), Some(0));
    assert_eq!(d.get(at("5h"), false), Some(1));
    assert_eq!(d.get(at("5a"), false), Some(8));
    assert_eq!(d.get(at("4h"), true), None);
    let d = distances(Role::Rook, Color::Gote, at("8b"), 2);
    assert_eq!(d.get(at("8g"), false), Some(1));
    assert_eq!(d.get(at("8g"), true), Some(1));
    assert_eq!(d.get(at("2f"), false), Some(2));
}

#[test]
fn a_promoted_piece_moves_otherwise() {
    let at = |s: &str| parse_usi_square(s).unwrap();
    // A pawn becomes a gold in the third rank and may come back.
    let d = distances(Role::Pawn, Color::Sente, at("5d"), 5);
    assert_eq!(d.get(at("5c"), false), Some(1));
    assert_eq!(d.get(at("5c"), true), Some(1));
    assert_eq!(d.get(at("4c"), true), Some(2));
    assert_eq!(d.get(at("5d"), true), Some(2));
    assert_eq!(d.get(at("5a"), false), None);
    assert_eq!(d.get(at("5a"), true), Some(3));
}

#[test]
fn a_budget_bounds_the_moves() {
    let at = |s: &str| parse_usi_square(s).unwrap();
    let d = distances(Role::King, Color::Sente, at("5i"), 2);
    assert_eq!(d.get(at("5g"), false), Some(2));
    assert_eq!(d.get(at("5f"), false), None);
}

#[test]
fn pieces_attack_along_their_lines() {
    let at = |s: &str| parse_usi_square(s).unwrap();
    assert!(piece_attacks_square(Role::Bishop, Color::Gote, at("1a"), at("5e")));
    assert!(piece_attacks_square(Role::Knight, Color::Sente, at("5g"), at("4e")));
    assert!(!piece_attacks_square(Role::Knight, Color::Gote, at("5g"), at("4e")));
    assert!(piece_attacks_square(Role::Lance, Color::Gote, at("1a"), at("1i")));
    assert!(!piece_attacks_square(Role::Pawn, Color::Sente, at("5e"), at("5f")));
}
