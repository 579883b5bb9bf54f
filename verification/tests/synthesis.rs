use tsuitate_bot::board::{parse_usi_square, Coord};
use tsuitate_bot::kifu::{replay, Kifu, Ply, RawFoul};
use tsuitate_bot::observation::Observation;
use tsuitate_bot::protocol::{Color, Role};
use tsuitate_bot::shogi::{parse_usi, Piece, Position};
use tsuitate_bot::synthesis::{replay_to, role_tally, roles_agree, shows, Mark, SynthTally};

fn at(s: &str) -> Coord {
    parse_usi_square(s).unwrap()
}

fn score(moves: &[&str]) -> Kifu {
    Kifu {
        plies: moves
            .iter()
            .map(|m| Ply { mv: parse_usi(m).unwrap(), fouls: vec![] })
            .collect(),
        trailing_fouls: vec![],
        directives: vec![],
    }
}

#[test]
fn a_score_is_told_to_the_side_to_move() {
    let mut kifu = score(&["7g7f", "3c3d", "8h2b+"]);
    kifu.plies[1].fouls.push(RawFoul::Board { from: at("8b"), to: at("8h"), role: Role::Rook });
    let told = replay_to(&kifu, 3).unwrap();
    assert_eq!(told.side, Color::Gote);
    assert_eq!(told.truth.turn(), Color::Gote);
    assert_eq!(
        told.truth.piece_at(at("2b")),
        Some(Piece { color: Color::Sente, role: Role::Horse })
    );
    let fouls: Vec<&Observation> = told
        .log
        .events()
        .iter()
        .filter(|o| matches!(o, Observation::MyFoul { .. }))
        .collect();
    assert_eq!(fouls.len(), 1);
    // The other side only learns that there was a foul.
    let told = replay_to(&kifu, 2).unwrap();
    assert_eq!(told.side, Color::Sente);
    assert!(told
        .log
        .events()
        .iter()
        .any(|o| matches!(o, Observation::OpponentFoul { count: 0 })));
}

#[test]
fn a_score_without_a_piece_to_move_is_refused() {
    assert!(replay_to(&score(&["5e5d"]), 1).is_none());
    assert!(replay_to(&score(&["5e5d"]), 0).is_some());
    let mut kifu = score(&["7g7f"]);
    kifu.plies[0].fouls.push(RawFoul::Board { from: at("5e"), to: at("5d"), role: Role::Gold });
    assert!(replay_to(&kifu, 1).is_none());
}

#[test]
fn positions_are_compared_by_the_roles_on_the_board() {
    let start = Position::initial();
    let tally = role_tally(&start, Color::Sente);
    assert_eq!(tally[0], 9);
    assert_eq!(tally.iter().sum::<usize>(), 20);
    let mut other = start.clone();
    other.play_unchecked(&parse_usi("7g7f").unwrap());
    assert!(roles_agree(&start, &other, Color::Sente));
    other.set(at("7f"), None);
    assert!(!roles_agree(&start, &other, Color::Sente));
    assert!(roles_agree(&start, &other, Color::Gote));
}

#[test]
fn what_was_made_up_is_tallied() {
    let truth = Position::initial();
    let mut made = truth.clone();
    made.set(at("5a"), None);
    made.set(at("5b"), Some(Piece { color: Color::Gote, role: Role::King }));
    let marks = vec![
        Mark { square: at("2b"), roles: vec![Role::Bishop, Role::Horse] },
        Mark { square: at("5a"), roles: vec![Role::King] },
    ];
    assert!(shows(&truth, Color::Gote, &marks[1]));
    assert!(!shows(&truth, Color::Sente, &marks[1]));
    let mut tally = SynthTally::new(2);
    tally.count(Some(&truth), &truth, Color::Gote, &marks);
    tally.count(None, &truth, Color::Gote, &marks);
    tally.count(Some(&made), &truth, Color::Gote, &marks);
    assert_eq!((tally.made, tally.failed, tally.roles_right), (2, 1, 2));
    assert_eq!(tally.marks, [2, 1]);
}

#[test]
fn a_score_is_told_as_it_was_played() {
    let mut kifu = score(&["7g7f", "3c3d", "8h2b+", "3a2b"]);
    kifu.plies[1].fouls.push(RawFoul::Board { from: at("8b"), to: at("8h"), role: Role::Rook });
    for n in 0..=4 {
        let told = replay_to(&kifu, n).unwrap();
        let played = replay(&kifu, n).unwrap();
        assert_eq!(told.truth.pieces(), played.pos.pieces());
        assert_eq!(told.side, played.pos.turn());
        let seen = played.logs.of(told.side).events();
        assert_eq!(told.log.events().len(), seen.len());
        for (a, b) in told.log.events().iter().zip(seen) {
            match (a, b) {
                (
                    Observation::OpponentFoul { count: told },
                    Observation::OpponentFoul { count: real },
                ) => assert_eq!((*told, *real), (0, 1)),
                _ => assert_eq!(a, b),
            }
        }
    }
}
