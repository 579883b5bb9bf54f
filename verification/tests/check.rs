use tsuitate_bot::board::Coord;
use tsuitate_bot::check::{opponent_role_counts, role_order, CheckSolver, FoulEvidence};
use tsuitate_bot::observation::{Observation, ObservationLog};
use tsuitate_bot::protocol::{
    ClockState, Color, FoulCounts, GameStatus, Hand, PlayerView, Role, VisiblePiece,
};
use tsuitate_bot::shogi::{parse_usi, ShogiMove};

fn view_with(pieces: Vec<(&str, Role)>) -> PlayerView {
    PlayerView {
        game_id: "test".to_string(),
        your_color: Color::Sente,
        your_pieces: pieces
            .into_iter()
            .map(|(sq, role)| VisiblePiece {
                square: sq.to_string(),
                role,
            })
            .collect(),
        your_hand: Hand::empty(),
        turn: Color::Sente,
        move_number: 1,
        clocks: ClockState {
            sente_ms: 0,
            gote_ms: 0,
            running: None,
            server_time: 0,
        },
        fouls: FoulCounts {
            you: 0,
            opponent: 0,
        },
        you_in_check: true,
        opponent_in_check: false,
        status: GameStatus::Playing,
    }
}

fn mv(usi: &str) -> ShogiMove {
    parse_usi(usi).unwrap()
}

fn solver(view: &PlayerView, fouls: &[ShogiMove], log: &ObservationLog) -> CheckSolver {
    CheckSolver::new(view, &[None; 81], fouls, log, true).unwrap()
}

fn captured_at(move_number: u32, square: &str) -> ObservationLog {
    let mut log = ObservationLog::default();
    log.record(Observation::OpponentMoved {
        move_number,
        captured_my_piece_at: Some(square.to_string()),
    });
    log
}

#[test]
fn enumerates_plausible_checkers() {
    // A bare king in the middle: attackers next to it, knights and pieces from afar.
    let view = view_with(vec![("5e", Role::King)]);
    let s = solver(&view, &[], &ObservationLog::default());
    assert!(s.hypothesis_count() > 50);
}

#[test]
fn own_pieces_block_hypotheses() {
    let open = solver(
        &view_with(vec![("5e", Role::King)]),
        &[],
        &ObservationLog::default(),
    );
    let blocked = solver(
        &view_with(vec![("5e", Role::King), ("5d", Role::Pawn)]),
        &[],
        &ObservationLog::default(),
    );
    assert!(blocked.hypothesis_count() < open.hypothesis_count());
}

#[test]
fn known_enemy_square_is_still_enumerated_as_checker_hypothesis() {
    // The piece on 5d is guessed to be a knight, which would give no check.
    let view = view_with(vec![("5e", Role::King)]);
    let log = captured_at(10, "5d");
    let sq = Coord { file: 5, rank: 4 };
    let mut guesses = [None; 81];
    guesses[(5 - 1) * 9 + (4 - 1)] = Some(Role::Knight);
    let s = CheckSolver::new(&view, &guesses, &[], &log, true).unwrap();
    assert!(s.hypotheses().iter().any(|h| h.square == sq));
}

/// Where no piece can have uncovered a check, only the piece that has just captured can give it.
#[test]
fn capture_check_prunes_geometrically_impossible_discovered_checks() {
    let view = view_with(vec![
        ("6h", Role::King),
        ("7h", Role::Silver),
        ("5h", Role::Knight),
        ("5g", Role::Pawn),
        ("8f", Role::Pawn),
    ]);
    let log = captured_at(112, "6g");
    let s = solver(&view, &[], &log);
    let on = Coord { file: 6, rank: 7 };
    assert!(s.hypothesis_count() > 0);
    assert!(s.hypotheses().iter().all(|h| h.square == on));
    // Taking there with the silver answers every hypothesis.
    let take = mv("7h6g");
    for i in 0..s.hypothesis_count() {
        assert!(s.legal_under(i, &take));
    }
}

/// Where a check may have been uncovered, the other hypotheses stay.
#[test]
fn capture_check_keeps_feasible_discovered_checks() {
    let view = view_with(vec![("5e", Role::King)]);
    let log = captured_at(10, "5d");
    let s = solver(&view, &[], &log);
    let has = |f: i8, r: i8| {
        s.hypotheses()
            .iter()
            .any(|h| h.square == Coord { file: f, rank: r })
    };
    assert!(has(1, 1));
    assert!(!has(5, 1));
    assert!(!has(4, 4));
}

#[test]
fn captures_checker_detects_only_non_king_capture_on_hypothesis_square() {
    let view = view_with(vec![
        ("5e", Role::King),
        ("4e", Role::Gold),
        ("1e", Role::Rook),
    ]);
    let s = solver(&view, &[], &ObservationLog::default());
    assert!(s.captures_checker(&mv("4e5d")));
    assert!(!s.captures_checker(&mv("5e5d")));
    assert!(!s.captures_checker(&mv("1e1b")));
    assert!(!s.captures_checker(&mv("P*5d")));
}

#[test]
fn a_move_that_answers_no_hypothesis_is_legal_under_none() {
    let view = view_with(vec![("5e", Role::King), ("1a", Role::Gold)]);
    let s = solver(&view, &[], &ObservationLog::default());
    for i in 0..s.hypothesis_count() {
        assert!(!s.legal_under(i, &mv("1a1b")));
    }
}

#[test]
fn a_known_enemy_piece_covers_squares_under_every_hypothesis() {
    let mut view = view_with(vec![("5e", Role::King)]);
    view.move_number = 12;
    let log = captured_at(10, "5g");
    let s = solver(&view, &[], &log);
    for i in 0..s.hypothesis_count() {
        assert!(!s.legal_under(i, &mv("5e5f")));
    }
    assert!((0..s.hypothesis_count()).any(|i| s.legal_under(i, &mv("5e4e"))));
}

#[test]
fn fouls_are_counted_against_the_hypotheses() {
    let view = view_with(vec![("5e", Role::King), ("4e", Role::Gold)]);
    let on = Coord { file: 5, rank: 4 };
    let mut s = solver(&view, &[], &ObservationLog::default());
    assert_eq!(s.king_fouls(), 0);
    let kinds = [
        s.foul_evidence(&mv("5e5d"), on),
        s.foul_evidence(&mv("4e5d"), on),
    ];
    assert_ne!(kinds[0], kinds[1]);
    assert_eq!(kinds[0], FoulEvidence::KingCapture);
    s.observe_foul(&mv("5e5d"));
    assert_eq!(s.king_fouls(), 1);
    assert_eq!(s.evidence().len(), s.hypothesis_count());
    let whole = solver(&view, &[mv("5e5d")], &ObservationLog::default());
    assert_eq!(whole.king_fouls(), 1);
    assert_eq!(whole.hypothesis_count(), s.hypothesis_count());
}

#[test]
fn roles_of_the_opponent_are_counted() {
    let view = view_with(vec![("5e", Role::King)]);
    let counts = opponent_role_counts(&view, &ObservationLog::default());
    assert_eq!(counts, [9, 2, 2, 2, 2, 1, 1]);
    assert_eq!(role_order(Role::Dragon), 13);
    assert_eq!(role_order(Role::Pawn), 0);
}

#[test]
fn without_a_king_there_is_nothing_to_solve() {
    let view = view_with(vec![("5e", Role::Gold)]);
    let log = ObservationLog::default();
    assert!(CheckSolver::new(&view, &[None; 81], &[], &log, true).is_none());
}
