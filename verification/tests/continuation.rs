use tsuitate_bot::board::parse_usi_square;
use tsuitate_bot::continuation::{
    force_move, forced_seeds, half_points, side_seeds, tried_this_turn, Arm, Continuation,
    EndReason, Ending, GameStats,
};
use tsuitate_bot::kifu::fresh_game;
use tsuitate_bot::observation::{Observation, ObservationLog};
use tsuitate_bot::protocol::{Color, Role};
use tsuitate_bot::seeds::{mix, stable_hash};
use tsuitate_bot::shogi::{Piece, Position};

fn choice(usi: &str) -> Option<String> {
    Some(usi.to_string())
}

#[test]
fn a_game_is_played_on_until_it_is_broken_off() {
    let mut game = Continuation::start(fresh_game(), 2);
    assert_eq!(game.overdue(), None);
    assert_eq!(game.take_choice(&choice("7g7f")), None);
    assert_eq!(game.take_choice(&choice("3c3d")), None);
    assert_eq!(
        game.overdue(),
        Some(Ending { winner: None, reason: EndReason::Limit })
    );
    assert_eq!(game.me, Color::Sente);
    assert_eq!(game.first_move.as_deref(), Some("7g7f"));
    assert_eq!(game.rep.plies, 2);
}

#[test]
fn a_foul_leaves_the_turn_where_it_is() {
    let mut game = Continuation::start(fresh_game(), 200);
    assert_eq!(game.take_choice(&choice("8h2b+")), None);
    assert_eq!(game.rep.pos.turn(), Color::Sente);
    assert_eq!(game.rep.fouls, [1, 0]);
    assert_eq!(game.tried_sente, vec!["8h2b+".to_string()]);
    assert_eq!(game.rep.logs.of(Color::Gote).events().len(), 1);
    assert_eq!(game.take_choice(&choice("7g7f")), None);
    assert!(game.tried_sente.is_empty());
    assert_eq!(game.first_move.as_deref(), Some("7g7f"));
}

#[test]
fn games_end_by_surrender_or_fouls() {
    let mut game = Continuation::start(fresh_game(), 200);
    assert_eq!(
        game.take_choice(&None),
        Some(Ending { winner: Some(Color::Gote), reason: EndReason::Resign })
    );

    let mut game = Continuation::start(fresh_game(), 200);
    for _ in 0..9 {
        assert_eq!(game.take_choice(&choice("1a1b")), None);
    }
    assert_eq!(
        game.take_choice(&choice("1a1b")),
        Some(Ending { winner: Some(Color::Gote), reason: EndReason::FoulLimit })
    );
}

fn put(pos: &mut Position, square: &str, color: Color, role: Role) {
    pos.set(parse_usi_square(square).unwrap(), Some(Piece { color, role }));
}

#[test]
fn a_side_without_a_move_has_lost() {
    let mut rep = fresh_game();
    rep.pos = Position::empty(Color::Sente);
    put(&mut rep.pos, "1a", Color::Gote, Role::King);
    put(&mut rep.pos, "1c", Color::Sente, Role::Lance);
    put(&mut rep.pos, "2c", Color::Sente, Role::Gold);
    put(&mut rep.pos, "9i", Color::Sente, Role::King);
    rep.pos.set_hand(Color::Sente, Role::Gold, 1);
    let mut game = Continuation::start(rep, 200);
    assert_eq!(
        game.take_choice(&choice("G*1b")),
        Some(Ending { winner: Some(Color::Sente), reason: EndReason::Checkmate })
    );

    let mut rep = fresh_game();
    rep.pos = Position::empty(Color::Sente);
    put(&mut rep.pos, "1a", Color::Gote, Role::King);
    put(&mut rep.pos, "2d", Color::Sente, Role::Dragon);
    put(&mut rep.pos, "1c", Color::Sente, Role::Gold);
    put(&mut rep.pos, "9i", Color::Sente, Role::King);
    let mut game = Continuation::start(rep, 200);
    assert_eq!(
        game.take_choice(&choice("2d2c")),
        Some(Ending { winner: Some(Color::Sente), reason: EndReason::Stalemate })
    );
}

#[test]
fn the_first_acceptable_text_is_forced() {
    let order: Vec<String> = ["8h2b+", "nonsense", "7g7f", "2g2f"]
        .iter()
        .map(|s| s.to_string())
        .collect();
    let forced = force_move(fresh_game(), &order);
    assert_eq!(forced.played.as_deref(), Some("7g7f"));
    assert_eq!(forced.forced_fouls, 2);
    assert!(!forced.foul_limit);
    assert_eq!(forced.rep.fouls, [2, 0]);
    assert_eq!(forced.rep.plies, 1);

    let forced = force_move(fresh_game(), &order[..2].to_vec());
    assert_eq!(forced.played, None);
    assert_eq!(forced.forced_fouls, 2);
    assert!(!forced.foul_limit);

    let wrong: Vec<String> = (0..12).map(|_| "1a1b".to_string()).collect();
    let forced = force_move(fresh_game(), &wrong);
    assert_eq!(forced.played, None);
    assert_eq!(forced.forced_fouls, 10);
    assert!(forced.foul_limit);
}

#[test]
fn the_attempts_of_a_turn_are_the_last_of_the_log() {
    let mut log = ObservationLog::default();
    let foul = |usi: &str| Observation::MyFoul { move_number: 3, usi: usi.to_string() };
    log.record(foul("1a1b"));
    log.record(Observation::OpponentMoved { move_number: 2, captured_my_piece_at: None });
    log.record(foul("2a2b"));
    log.record(foul("3a3b"));
    assert_eq!(
        tried_this_turn(&log, 2),
        vec!["3a3b".to_string(), "2a2b".to_string()]
    );
    assert_eq!(tried_this_turn(&log, 1), vec!["3a3b".to_string()]);
    assert_eq!(tried_this_turn(&log, 9).len(), 2);
    assert!(tried_this_turn(&log, 0).is_empty());
}

#[test]
fn arms_and_endings_have_names() {
    assert_eq!(Arm::Baseline.tag(), "baseline");
    assert_eq!(Arm::Oracle.tag(), "oracle");
    assert_eq!(Arm::PolicyStrict.tag(), "policy_strict");
    assert_eq!(Arm::PolicyAll.tag(), "policy_all");
    assert_eq!(Arm::PolicyW0.tag(), "policy_w0");
    assert_eq!(EndReason::Limit.label(), "limit");
    assert_eq!(EndReason::Resign.label(), "resign");
    assert_eq!(EndReason::FoulLimit.label(), "foul_limit");
    assert_eq!(EndReason::Checkmate.label(), "checkmate");
    assert_eq!(EndReason::Stalemate.label(), "stalemate");
}

#[test]
fn both_sides_of_a_continuation_have_a_seed_of_their_own() {
    let (own, other) = forced_seeds("game", 12, "7g7f", 5);
    let base = stable_hash(5, "game#12#7g7f");
    assert_eq!(own, mix(base ^ 0x0C0F_FEE0));
    assert_eq!(other, mix(base ^ 0x0BEE_F000));
    assert_ne!(own, other);
    assert_ne!(forced_seeds("game", 12, "2g2f", 5).0, own);
}

#[test]
fn a_win_counts_two_halves_and_a_draw_one() {
    assert_eq!(half_points(Some(Color::Sente), Color::Sente), 2);
    assert_eq!(half_points(Some(Color::Gote), Color::Sente), 0);
    assert_eq!(half_points(None, Color::Gote), 1);
}

#[test]
fn games_that_were_played_on_are_tallied() {
    let mut stats = GameStats::new();
    let won = Ending { winner: Some(Color::Sente), reason: EndReason::Checkmate };
    let lost = Ending { winner: Some(Color::Gote), reason: EndReason::FoulLimit };
    let drawn = Ending { winner: None, reason: EndReason::Limit };
    stats.count(Color::Sente, won, &choice("7g7f"), 31);
    stats.count(Color::Sente, lost, &None, 0);
    stats.count(Color::Sente, won, &choice("7g7f"), 11);
    stats.count(Color::Sente, drawn, &choice("2g2f"), 99);
    assert_eq!(stats.wins(), 2);
    assert_eq!(stats.win_plies, [31, 11]);
    let reasons = stats.reasons.ranked();
    assert_eq!(reasons[0], ("checkmate".to_string(), 2));
    assert_eq!(reasons.len(), 3);
    let firsts = stats.first_moves.ranked();
    assert_eq!(
        firsts,
        [("7g7f".to_string(), 2), ("-".to_string(), 1), ("2g2f".to_string(), 1)]
    );
    assert_eq!(side_seeds(0), (0x5E17E, 0x607E));
}
