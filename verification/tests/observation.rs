use tsuitate_bot::candidates::{all_candidates, candidate_moves, insert_text, is_listed};
use tsuitate_bot::kifu::fresh_game;
use tsuitate_bot::model::{bump, GameModel};
use tsuitate_bot::observation::{log_prefix, Observation, ObservationLog};
use tsuitate_bot::protocol::{Color, FoulRecord, GameEndPayload, MoveRecord, Role};
use tsuitate_bot::replay::{make_view, replay_game, side_idx, side_only, sort_fouls};
use tsuitate_bot::shogi::Position;

fn game(moves: &[&str], fouls: &[(u32, Color, &str)]) -> GameEndPayload {
    GameEndPayload {
        result: "sente_win".to_string(),
        reason: "resign".to_string(),
        moves: moves
            .iter()
            .enumerate()
            .map(|(i, usi)| MoveRecord {
                usi: usi.to_string(),
                by_color: if i % 2 == 0 { Color::Sente } else { Color::Gote },
                ms: 0,
                fouls_before: 0,
            })
            .collect(),
        foul_attempts: fouls
            .iter()
            .map(|(n, by_color, usi)| FoulRecord {
                move_number: *n,
                by_color: *by_color,
                usi: usi.to_string(),
            })
            .collect(),
    }
}

#[test]
fn a_log_keeps_its_order() {
    let mut log = ObservationLog::default();
    log.record(Observation::OpponentFoul { count: 1 });
    log.record(Observation::Check { in_check: Color::Gote });
    assert_eq!(log.events().len(), 2);
    let head = log_prefix(log.events(), 1);
    assert_eq!(head.events().len(), 1);
    assert!(matches!(head.events()[0], Observation::OpponentFoul { count: 1 }));
    log.clear();
    assert!(log.events().is_empty());
}

#[test]
fn a_game_is_replayed_with_what_both_sides_saw() {
    let end = game(
        &["7g7f", "3c3d", "8h2b+", "3a2b"],
        &[(3, Color::Sente, "P*5e"), (1, Color::Sente, "8h2b+")],
    );
    let replay = replay_game(&end);
    assert!(replay.ok);
    assert_eq!(replay.decisions.len(), 4);
    let last = &replay.decisions[3];
    assert_eq!(last.side, Color::Gote);
    assert_eq!(last.fouls, [2, 0]);
    assert_eq!(last.fouls_this_turn, 0);
    let sente = last.logs.of(Color::Sente).events();
    assert!(matches!(&sente[0], Observation::MyFoul { move_number: 1, .. }));
    assert!(matches!(
        sente.last().unwrap(),
        Observation::MyMove { move_number: 4, captured: Some(Role::Bishop), .. }
    ));
    let gote = last.logs.of(Color::Gote).events();
    assert!(matches!(gote[0], Observation::OpponentFoul { count: 1 }));
    assert!(matches!(
        gote.last().unwrap(),
        Observation::OpponentMoved { move_number: 4, captured_my_piece_at: Some(s) } if s == "2b"
    ));
    assert!(!replay_game(&game(&["7g7f", "7g7f"], &[])).ok);
}

#[test]
fn fouls_are_sorted_by_their_move() {
    let end = game(
        &[],
        &[(3, Color::Sente, "a"), (1, Color::Gote, "b"), (3, Color::Sente, "c"), (2, Color::Gote, "d")],
    );
    let sorted: Vec<String> = sort_fouls(&end.foul_attempts)
        .iter()
        .map(|f| f.usi.clone())
        .collect();
    assert_eq!(sorted, vec!["b", "d", "a", "c"]);
}

#[test]
fn a_model_is_restored_from_a_log() {
    let end = game(&["7g7f", "3c3d", "8h2b+", "3a2b", "2g2f"], &[(4, Color::Gote, "8b2b")]);
    let replay = replay_game(&end);
    let last = &replay.decisions[4];
    let own = GameModel::from_log(Color::Sente, last.logs.of(Color::Sente));
    assert!(own.consistent());
    assert_eq!(own.my_color(), Color::Sente);
    assert_eq!(own.my_pieces().len(), 19);
    assert_eq!(own.my_hand().get(Role::Bishop), 1);
    assert_eq!(own.lost_pieces().len(), 1);
    assert_eq!(own.lost_pieces()[0].1, Role::Horse);
    assert_eq!(own.opponent_fouls(), 1);
    assert_eq!(own.my_fouls(), 0);
    let other = GameModel::from_log(Color::Gote, last.logs.of(Color::Gote));
    assert_eq!(other.my_fouls(), 1);
    assert_eq!(bump(u32::MAX), u32::MAX);
    assert_eq!(bump(4), 5);
}

#[test]
fn a_view_shows_the_own_side_alone() {
    let rep = fresh_game();
    let view = make_view(&rep.pos, Color::Gote, &[1, 2]);
    assert_eq!(view.your_color, Color::Gote);
    assert_eq!(view.your_pieces.len(), 20);
    assert_eq!((view.fouls.you, view.fouls.opponent), (2, 1));
    assert!(!view.you_in_check);
    assert_eq!(side_only(&rep.pos, Color::Sente).pieces().len(), 20);
    assert_eq!((side_idx(Color::Sente), side_idx(Color::Gote)), (0, 1));
}

#[test]
fn candidates_ignore_what_is_not_seen() {
    let pos = Position::initial();
    let view = make_view(&pos, Color::Sente, &[0, 0]);
    let all = all_candidates(&view);
    // Every legal move is a candidate, and moves through unseen pieces are, too.
    for mv in pos.legal_moves() {
        assert!(all.contains(&mv), "{}", mv.to_usi());
    }
    assert!(all.len() >= 30);
    let tried = vec!["7g7f".to_string()];
    let rest = candidate_moves(&view, &tried);
    assert_eq!(rest.len() + 1, all.len());
    assert!(rest.iter().all(|m| m.0 != "7g7f"));
}

#[test]
fn a_list_of_texts_holds_each_once() {
    let mut list = vec![];
    insert_text(&mut list, "a".to_string());
    insert_text(&mut list, "b".to_string());
    insert_text(&mut list, "a".to_string());
    assert_eq!(list.len(), 2);
    assert!(is_listed(&list, &"b".to_string()));
    assert!(!is_listed(&list, &"c".to_string()));
}
