use tsuitate_bot::board::{parse_usi_square, Coord};
use tsuitate_bot::check::{CheckSolver, Hypothesis};
use tsuitate_bot::check_votes::{
    answers, particle_majority_role, particles_vote_check, vote_by_particles, Answer, Sample,
};
use tsuitate_bot::observation::ObservationLog;
use tsuitate_bot::protocol::{
    ClockState, Color, FoulCounts, GameStatus, Hand, PlayerView, Role, VisiblePiece,
};
use tsuitate_bot::shogi::{parse_usi, Piece, Position};

fn at(s: &str) -> Coord {
    parse_usi_square(s).unwrap()
}

fn sample(square: &str, role: Role, weight: u64) -> Sample {
    let mut pos = Position::empty(Color::Sente);
    pos.set(at("5e"), Some(Piece { color: Color::Sente, role: Role::King }));
    pos.set(at("9a"), Some(Piece { color: Color::Gote, role: Role::King }));
    pos.set(at(square), Some(Piece { color: Color::Gote, role }));
    Sample { pos, weight }
}

#[test]
fn the_role_with_most_of_the_weight_is_believed() {
    let samples = vec![
        sample("5a", Role::Rook, 3),
        sample("5a", Role::Lance, 1),
        sample("4a", Role::Rook, 1),
    ];
    assert_eq!(particle_majority_role(&samples, Color::Gote, at("5a")), Some(Role::Rook));
    assert_eq!(particle_majority_role(&samples, Color::Sente, at("5a")), None);
    // Half of the weight is not more than half.
    let samples = vec![sample("5a", Role::Rook, 2), sample("5a", Role::Lance, 2)];
    assert_eq!(particle_majority_role(&samples, Color::Gote, at("5a")), None);
    assert_eq!(particle_majority_role(&vec![], Color::Gote, at("5a")), None);
}

#[test]
fn only_samples_in_check_vote() {
    let samples = vec![
        sample("5a", Role::Rook, 3),
        sample("5d", Role::Gold, 5),
        sample("1a", Role::Rook, 7),
    ];
    assert!(particles_vote_check(&samples, Color::Sente));
    assert!(!particles_vote_check(&vec![sample("1a", Role::Rook, 7)], Color::Sente));
    let hypotheses = vec![
        Hypothesis { square: at("5a"), role: Role::Rook },
        Hypothesis { square: at("5d"), role: Role::Gold },
        Hypothesis { square: at("5d"), role: Role::Pawn },
        Hypothesis { square: at("1a"), role: Role::Rook },
    ];
    let ballot = vote_by_particles(&samples, Color::Sente, &hypotheses);
    assert_eq!(ballot.voters, 8);
    assert_eq!(ballot.votes, [3, 5, 0, 0]);
}

fn view_with(pieces: &[(&str, Role)]) -> PlayerView {
    PlayerView {
        game_id: "test".to_string(),
        your_color: Color::Sente,
        your_pieces: pieces
            .iter()
            .map(|(sq, role)| VisiblePiece { square: sq.to_string(), role: *role })
            .collect(),
        your_hand: Hand::empty(),
        turn: Color::Sente,
        move_number: 1,
        clocks: ClockState { sente_ms: 0, gote_ms: 0, running: None, server_time: 0 },
        fouls: FoulCounts { you: 0, opponent: 0 },
        you_in_check: true,
        opponent_in_check: false,
        status: GameStatus::Playing,
    }
}

#[test]
fn each_hypothesis_says_what_a_move_would_do() {
    let view = view_with(&[("5e", Role::King), ("4e", Role::Gold)]);
    let s = CheckSolver::new(&view, &[None; 81], &[], &ObservationLog::default(), true).unwrap();
    let gold = answers(&s, &parse_usi("4e5d").unwrap());
    let king = answers(&s, &parse_usi("5e5d").unwrap());
    assert_eq!(gold.len(), s.hypothesis_count());
    for (i, h) in s.hypotheses().iter().enumerate() {
        if h.square == at("5d") {
            assert_eq!(gold[i], Answer::Takes);
            assert_eq!(king[i], Answer::KingTakes);
        } else {
            assert_ne!(gold[i], Answer::Takes);
            assert_ne!(king[i], Answer::KingTakes);
        }
        if h.square == at("5a") && h.role == Role::Rook {
            assert_eq!(gold[i], Answer::Stays);
            assert_eq!(king[i], Answer::Refused);
        }
        if h.square == at("6d") && h.role == Role::Silver {
            assert_eq!(gold[i], Answer::Refused);
        }
    }
}

/// A move that no hypothesis lets pass is refused by all of them.
#[test]
fn a_move_from_an_empty_square_is_always_refused() {
    let view = view_with(&[("5e", Role::King), ("4e", Role::Gold)]);
    let s = CheckSolver::new(&view, &[None; 81], &[], &ObservationLog::default(), true).unwrap();
    let all = answers(&s, &parse_usi("1a1b").unwrap());
    assert!(!all.is_empty());
    assert!(all.iter().all(|a| *a == Answer::Refused));
}
