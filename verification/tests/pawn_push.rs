use tsuitate_bot::board::parse_usi_square;
use tsuitate_bot::pawn_push::{
    ahead, backed_by, behind, count_group, home_rank, in_zone, pawn_events, Exposure, PushGroup,
};
use tsuitate_bot::protocol::{Color, GameEndPayload, MoveRecord, Role};
use tsuitate_bot::shogi::{parse_usi, Piece, Position};

fn game(moves: &[&str]) -> GameEndPayload {
    GameEndPayload {
        result: "draw".to_string(),
        reason: "limit".to_string(),
        moves: moves
            .iter()
            .enumerate()
            .map(|(i, usi)| MoveRecord {
                usi: usi.to_string(),
                by_color: if i % 2 == 0 { Color::Sente } else { Color::Gote },
                ms: 0,
                fouls_before: 0,
            })
            .collect(),
        foul_attempts: vec![],
    }
}

#[test]
fn squares_lie_ahead_and_behind() {
    let at = |s: &str| parse_usi_square(s).unwrap();
    assert_eq!(ahead(at("5e"), Color::Sente), Some(at("5d")));
    assert_eq!(ahead(at("5e"), Color::Gote), Some(at("5f")));
    assert_eq!(ahead(at("5a"), Color::Sente), None);
    assert_eq!(behind(at("5a"), Color::Gote), None);
    assert_eq!(behind(at("5e"), Color::Sente), Some(at("5f")));
    assert!(in_zone(at("1c"), Color::Sente) && !in_zone(at("1d"), Color::Sente));
    assert!(in_zone(at("1g"), Color::Gote) && !in_zone(at("1f"), Color::Gote));
    assert_eq!(home_rank(Color::Sente), 7);
    assert_eq!(home_rank(Color::Gote), 3);
}

#[test]
fn a_pawn_is_backed_along_its_file() {
    let at = |s: &str| parse_usi_square(s).unwrap();
    let pos = Position::initial();
    assert_eq!(backed_by(&pos, at("1g"), Color::Sente), (true, false));
    assert_eq!(backed_by(&pos, at("2g"), Color::Sente), (false, true));
    assert_eq!(backed_by(&pos, at("5g"), Color::Sente), (false, false));
    assert_eq!(backed_by(&pos, at("8c"), Color::Gote), (false, true));
    let mut pos = pos;
    pos.set(at("1h"), Some(Piece { color: Color::Gote, role: Role::Lance }));
    assert_eq!(backed_by(&pos, at("1g"), Color::Sente), (false, false));
}

#[test]
fn a_capture_reveals_a_piece() {
    let at = |s: &str| parse_usi_square(s).unwrap();
    let mut pos = Position::initial();
    let mut known = Exposure::new();
    for (usi, side) in [
        ("2g2f", Color::Sente),
        ("2c2d", Color::Gote),
        ("2f2e", Color::Sente),
        ("2d2e", Color::Gote),
    ] {
        let mv = parse_usi(usi).unwrap();
        known.note(&pos, side, &mv);
        pos.play_unchecked(&mv);
    }
    assert!(known.revealed[1].contains(at("2e")));
    assert!(known.touched[0].contains(at("2f")));
    assert!(!known.touched[0].contains(at("7f")));
    let mv = parse_usi("2h2e").unwrap();
    known.note(&pos, Color::Sente, &mv);
    assert!(!known.revealed[1].contains(at("2e")));
    assert!(known.revealed[0].contains(at("2e")));
}

#[test]
fn pawns_that_can_advance_are_noted() {
    let end = game(&["7g7f", "3c3d", "7f7e", "3d3e"]);
    let events = pawn_events(&end, 1, Some(Color::Gote)).unwrap();
    // Nine pawns at each of the four decisions; none is blocked.
    let all = count_group(&events, PushGroup::All);
    assert_eq!(all.n, 36);
    assert_eq!(all.now, 4);
    assert_eq!(all.promoted, 0);
    let first = events.iter().find(|e| e.now).unwrap();
    assert_eq!(first.decision, 0);
    assert_eq!(first.square, parse_usi_square("7g").unwrap());
    assert_eq!(first.within, Some(0));
    assert!(first.human);
    let home = count_group(&events, PushGroup::Home);
    let advanced = count_group(&events, PushGroup::Advanced);
    let revealed = count_group(&events, PushGroup::Revealed);
    assert_eq!(home.n + advanced.n + revealed.n, all.n);
    assert_eq!(advanced.n, 2);
    assert_eq!(advanced.now, 2);
    assert!(pawn_events(&game(&["7g7f", "7g7f"]), 1, None).is_none());
}

#[test]
fn a_pawn_that_has_taken_is_known() {
    let end = game(&["2g2f", "2c2d", "2f2e", "2d2e", "9g9f", "2e2f", "9f9e", "2f2g+"]);
    let events = pawn_events(&end, 5, None).unwrap();
    let revealed = count_group(&events, PushGroup::Revealed);
    assert!(revealed.n >= 1);
    let soon = events
        .iter()
        .find(|e| e.decision == 5 && e.revealed)
        .unwrap();
    assert!(soon.now && soon.advanced && soon.ahead_empty);
    assert!(!soon.human);
    let last = events.iter().find(|e| e.decision == 7 && e.now).unwrap();
    assert!(last.promoted);
    assert_eq!(last.within, Some(0));
    let open = count_group(&events, PushGroup::RevealedOpen);
    let attacked = count_group(&events, PushGroup::RevealedOpenAttacked);
    let safe = count_group(&events, PushGroup::RevealedOpenSafe);
    assert_eq!(open.n, attacked.n + safe.n);
}
