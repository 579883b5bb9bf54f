use tsuitate_bot::client::{Action, BotState, Config, Msg};
use tsuitate_bot::observation::Observation;
use tsuitate_bot::protocol::{
    ClockState, Color, FoulCounts, GameStatus, Hand, PlayerView, Role,
};

fn config(record: bool) -> Config {
    Config {
        url: "http://localhost:3000".to_string(),
        token: "SECRET-REDACTED".to_string(),
        think_delay_ms: 800,
        requeue_delay_ms: 3000,
        queue_retry_ms: 60000,
        strategy_name: "bridge".to_string(),
        record_dir: if record { Some("records".to_string()) } else { None },
    }
}

fn view(game: &str, turn: Color, move_number: u32, status: GameStatus) -> PlayerView {
    PlayerView {
        game_id: game.to_string(),
        your_color: Color::Sente,
        your_pieces: vec![],
        your_hand: Hand::empty(),
        turn,
        move_number,
        clocks: ClockState { sente_ms: 0, gote_ms: 0, running: None, server_time: 0 },
        fouls: FoulCounts { you: 0, opponent: 0 },
        you_in_check: false,
        opponent_in_check: false,
        status,
    }
}

fn found(game: &str) -> Msg {
    Msg::MatchFound { game_id: game.to_string() }
}

fn sync(game: &str, turn: Color, move_number: u32) -> Msg {
    Msg::Sync(Some(view(game, turn, move_number, GameStatus::Playing)))
}

fn done(actions: &[Action], expected: &[Action]) {
    assert_eq!(format!("{:?}", actions), format!("{:?}", expected));
}

fn sent(game: &str, usi: &str) -> Action {
    Action::SendMove { game_id: game.to_string(), usi: usi.to_string() }
}

#[test]
fn a_bot_without_a_game_joins_the_queue() {
    let c = config(false);
    let mut s = BotState::new();
    done(&s.step(&c, &Msg::Connected), &[Action::JoinQueue]);
    done(&s.step(&c, &Msg::QueueAck { ok: true }), &[]);
    done(
        &s.step(&c, &Msg::QueueAck { ok: false }),
        &[Action::Wait(60000), Action::JoinQueue],
    );
    done(
        &s.step(&c, &Msg::QueueClosed("full".to_string())),
        &[Action::Wait(60000), Action::JoinQueue],
    );
    done(&s.step(&c, &Msg::ThinkTrigger), &[]);
    done(&s.step(&c, &Msg::Closed), &[]);
    done(&s.step(&c, &Msg::SocketError("gone".to_string())), &[]);
}

#[test]
fn a_bot_with_a_game_asks_for_its_state() {
    let c = config(false);
    let mut s = BotState::new();
    done(&s.step(&c, &found("g1")), &[Action::FreshStrategy, Action::DropRecord]);
    done(&s.step(&c, &Msg::Connected), &[Action::RequestSync("g1".to_string())]);
    done(
        &s.step(&c, &Msg::ThinkTrigger),
        &[Action::Wait(800), Action::RequestSync("g1".to_string())],
    );
    done(&s.step(&c, &Msg::QueueAck { ok: false }), &[]);
    done(&s.step(&c, &Msg::ActiveGame(Some("g2".to_string()))), &[]);
    assert_eq!(s.game_id.as_deref(), Some("g1"));
}

#[test]
fn a_game_at_the_server_is_taken_up_again() {
    let c = config(false);
    let mut s = BotState::new();
    done(&s.step(&c, &Msg::ActiveGame(None)), &[]);
    done(
        &s.step(&c, &Msg::ActiveGame(Some("g2".to_string()))),
        &[Action::RequestSync("g2".to_string())],
    );
    assert_eq!(s.game_id.as_deref(), Some("g2"));
}

#[test]
fn a_move_is_sent_once_for_a_turn() {
    let c = config(false);
    let mut s = BotState::new();
    s.step(&c, &found("g"));
    done(&s.step(&c, &sync("g", Color::Sente, 1)), &[Action::Choose]);
    done(&s.chosen(1, &Some("7g7f".to_string())), &[sent("g", "7g7f")]);
    done(&s.step(&c, &sync("g", Color::Sente, 1)), &[]);
    done(
        &s.step(&c, &Msg::MoveAccepted { move_number: 1, captured: Some(Role::Pawn) }),
        &[],
    );
    assert_eq!(s.last_sent, None);
    assert_eq!(s.log.events().len(), 1);
    assert!(matches!(
        &s.log.events()[0],
        Observation::MyMove { move_number: 1, usi, captured: Some(Role::Pawn) } if usi == "7g7f"
    ));
    done(&s.step(&c, &Msg::MoveAccepted { move_number: 1, captured: None }), &[]);
    assert_eq!(s.log.events().len(), 1);
}

#[test]
fn a_foul_is_remembered_until_the_next_turn() {
    let c = config(false);
    let mut s = BotState::new();
    s.step(&c, &found("g"));
    s.step(&c, &sync("g", Color::Sente, 1));
    s.chosen(1, &Some("8h2b+".to_string()));
    let foul = Msg::MoveResult {
        usi: "8h2b+".to_string(),
        ok: false,
        reason: Some("foul".to_string()),
    };
    done(&s.step(&c, &foul), &[Action::ThinkAgain]);
    assert_eq!(s.foul_tried, vec!["8h2b+".to_string()]);
    assert_eq!(s.pending_move_number, None);
    done(&s.step(&c, &sync("g", Color::Sente, 1)), &[Action::Choose]);
    assert_eq!(s.foul_tried.len(), 1);
    s.chosen(1, &Some("7g7f".to_string()));
    let late = Msg::MoveResult {
        usi: "7g7f".to_string(),
        ok: false,
        reason: Some("not your turn".to_string()),
    };
    done(&s.step(&c, &late), &[]);
    assert_eq!(s.pending_move_number, Some(1));
    done(&s.step(&c, &sync("g", Color::Sente, 3)), &[Action::Choose]);
    assert!(s.foul_tried.is_empty());
    assert_eq!(s.last_move_number, 3);
}

#[test]
fn a_view_that_is_not_to_be_moved_for_is_left_alone() {
    let c = config(false);
    let mut s = BotState::new();
    s.step(&c, &found("g"));
    done(&s.step(&c, &sync("other", Color::Sente, 1)), &[]);
    done(&s.step(&c, &sync("g", Color::Gote, 2)), &[]);
    done(
        &s.step(&c, &Msg::Sync(Some(view("g", Color::Sente, 1, GameStatus::Finished)))),
        &[],
    );
}

#[test]
fn what_the_opponent_does_enters_the_log() {
    let c = config(true);
    let mut s = BotState::new();
    s.step(&c, &found("g"));
    done(
        &s.step(&c, &sync("g", Color::Gote, 2)),
        &[Action::OpenRecord],
    );
    s.record_opened(true);
    let moved = Msg::OpponentMoved {
        move_number: 2,
        captured_your_piece_at: Some("3c".to_string()),
    };
    done(&s.step(&c, &moved), &[Action::RecordObservation, Action::ThinkAgain]);
    done(&s.step(&c, &Msg::OpponentFoul(2)), &[Action::RecordObservation]);
    done(&s.step(&c, &Msg::Check(Color::Sente)), &[Action::RecordObservation]);
    assert_eq!(s.log.events().len(), 3);
    done(&s.step(&c, &sync("g", Color::Sente, 3)), &[Action::Choose]);
    done(
        &s.chosen(3, &Some("5i5h".to_string())),
        &[Action::RecordChosen(3), sent("g", "5i5h")],
    );
    done(
        &s.chosen(3, &None),
        &[Action::RecordResigned(3), Action::Resign("g".to_string())],
    );
    done(
        &s.step(&c, &Msg::GameEnd),
        &[Action::CloseRecord, Action::Wait(3000), Action::JoinQueue],
    );
    assert_eq!(s.game_id, None);
    assert!(!s.recording);
}

#[test]
fn a_lost_game_is_left() {
    let c = config(true);
    let mut s = BotState::new();
    done(&s.step(&c, &Msg::Sync(None)), &[]);
    s.step(&c, &found("g"));
    s.step(&c, &sync("g", Color::Sente, 1));
    s.record_opened(true);
    done(
        &s.step(&c, &Msg::Sync(None)),
        &[Action::AbortRecord, Action::Wait(3000), Action::JoinQueue],
    );
    assert_eq!(s.game_id, None);
    done(&s.chosen(1, &Some("7g7f".to_string())), &[]);
}

#[test]
fn a_record_that_does_not_open_is_tried_again() {
    let c = config(true);
    let mut s = BotState::new();
    s.step(&c, &found("g"));
    done(&s.step(&c, &sync("g", Color::Gote, 2)), &[Action::OpenRecord]);
    s.record_opened(false);
    done(&s.step(&c, &sync("g", Color::Gote, 2)), &[Action::OpenRecord]);
}

#[test]
fn a_new_game_starts_from_nothing() {
    let c = config(false);
    let mut s = BotState::new();
    s.step(&c, &found("g"));
    s.step(&c, &sync("g", Color::Sente, 1));
    s.chosen(1, &Some("7g7f".to_string()));
    s.step(&c, &Msg::OpponentFoul(1));
    s.step(&c, &found("h"));
    assert_eq!(s.game_id.as_deref(), Some("h"));
    assert_eq!(s.pending_move_number, None);
    assert_eq!(s.last_sent, None);
    assert_eq!(s.last_move_number, 0);
    assert!(s.log.events().is_empty());
    let mut out = vec![];
    s.observe(Observation::OpponentFoul { count: 1 }, &mut out);
    assert_eq!(s.log.events().len(), 1);
    done(&out, &[]);
}
