//! The decisions of the connected bot. The connection hands in what arrives, one message at a
//! time, and carries out the actions that come back in order.

use crate::candidates::{insert_text, lemma_no_texts, text_set};
use crate::observation::{Event, Observation, ObservationLog};
use crate::protocol::{Color, GameStatus, PlayerView, Role};
use vstd::prelude::*;
use vstd::string::*;

verus! {

/// How the bot is run.
#[derive(Debug)]
pub struct Config {
    pub url: String,
    pub token: String,
    /// The wait before a move.
    pub think_delay_ms: u64,
    /// The wait after a game before queueing again.
    pub requeue_delay_ms: u64,
    /// The wait after a refused or closed queue before trying again.
    pub queue_retry_ms: u64,
    pub strategy_name: String,
    /// Where games are recorded; nowhere if absent.
    pub record_dir: Option<String>,
}

/// What arrives at the bot.
#[derive(Debug)]
pub enum Msg {
    Connected,
    Closed,
    SocketError(String),
    QueueAck { ok: bool },
    /// The server has closed the queue and says why.
    QueueClosed(String),
    MatchFound { game_id: String },
    /// The game that the server holds for this bot, if any.
    ActiveGame(Option<String>),
    /// Time to think, or to think again.
    ThinkTrigger,
    MoveAccepted { move_number: u32, captured: Option<Role> },
    OpponentMoved { move_number: u32, captured_your_piece_at: Option<String> },
    OpponentFoul(u32),
    Check(Color),
    GameEnd,
    /// The answer to a request for the state of the game.
    Sync(Option<PlayerView>),
    /// The answer to a move.
    MoveResult { usi: String, ok: bool, reason: Option<String> },
}

/// What the connection is to do.
#[derive(Debug)]
pub enum Action {
    Wait(u64),
    JoinQueue,
    RequestSync(String),
    /// Hand in a `ThinkTrigger` next.
    ThinkAgain,
    /// Set up the strategy anew: it keeps a state of its own during a game.
    FreshStrategy,
    /// Open the record of the game, and report whether that went well.
    OpenRecord,
    /// Put the newest observation into the record.
    RecordObservation,
    RecordChosen(u32),
    RecordResigned(u32),
    /// Close the record with the end of the game.
    CloseRecord,
    /// Close the record of a game that the server has lost.
    AbortRecord,
    /// Let the record go without closing it.
    DropRecord,
    /// Have the strategy choose a move for the view at hand, and report it.
    Choose,
    SendMove { game_id: String, usi: String },
    Resign(String),
}

/// The mathematical content of an `Action`.
pub enum Deed {
    Wait(u64),
    JoinQueue,
    RequestSync(Seq<char>),
    ThinkAgain,
    FreshStrategy,
    OpenRecord,
    RecordObservation,
    RecordChosen(u32),
    RecordResigned(u32),
    CloseRecord,
    AbortRecord,
    DropRecord,
    Choose,
    SendMove { game_id: Seq<char>, usi: Seq<char> },
    Resign(Seq<char>),
}

impl View for Action {
    type V = Deed;

    open spec fn view(&self) -> Deed {
        match self {
            Action::Wait(ms) => Deed::Wait(*ms),
            Action::JoinQueue => Deed::JoinQueue,
            Action::RequestSync(game) => Deed::RequestSync(game@),
            Action::ThinkAgain => Deed::ThinkAgain,
            Action::FreshStrategy => Deed::FreshStrategy,
            Action::OpenRecord => Deed::OpenRecord,
            Action::RecordObservation => Deed::RecordObservation,
            Action::RecordChosen(n) => Deed::RecordChosen(*n),
            Action::RecordResigned(n) => Deed::RecordResigned(*n),
            Action::CloseRecord => Deed::CloseRecord,
            Action::AbortRecord => Deed::AbortRecord,
            Action::DropRecord => Deed::DropRecord,
            Action::Choose => Deed::Choose,
            Action::SendMove { game_id, usi } => Deed::SendMove { game_id: game_id@, usi: usi@ },
            Action::Resign(game) => Deed::Resign(game@),
        }
    }
}

/// The contents of a list of actions.
pub open spec fn deeds(actions: Seq<Action>) -> Seq<Deed> {
    actions.map_values(|a: Action| a@)
}

/// What the bot remembers between messages.
#[derive(Debug)]
pub struct BotState {
    pub game_id: Option<String>,
    /// The attempts of this turn that were fouls. They are not tried again.
    pub foul_tried: Vec<String>,
    pub last_move_number: u32,
    /// The turn for which a move was sent. It keeps repeated triggers from sending two; a foul
    /// lifts it.
    pub pending_move_number: Option<u32>,
    /// The move that was sent last.
    pub last_sent: Option<String>,
    pub log: ObservationLog,
    /// Whether a record is open.
    pub recording: bool,
}

/// The mathematical content of a `BotState`.
pub struct BotModel {
    pub game: Option<Seq<char>>,
    pub foul_tried: Set<Seq<char>>,
    pub last_move_number: u32,
    pub pending: Option<u32>,
    pub last_sent: Option<Seq<char>>,
    pub events: Seq<Event>,
    pub recording: bool,
}

/// The content of a text that may be absent.
pub open spec fn text_of(s: Option<String>) -> Option<Seq<char>> {
    match s {
        Some(t) => Some(t@),
        None => None,
    }
}

impl View for BotState {
    type V = BotModel;

    open spec fn view(&self) -> BotModel {
        BotModel {
            game: text_of(self.game_id),
            foul_tried: text_set(self.foul_tried@),
            last_move_number: self.last_move_number,
            pending: self.pending_move_number,
            last_sent: text_of(self.last_sent),
            events: self.log@,
            recording: self.recording,
        }
    }
}

/// The state in which the bot starts.
pub open spec fn idle() -> BotModel {
    BotModel {
        game: None,
        foul_tried: Set::empty(),
        last_move_number: 0,
        pending: None,
        last_sent: None,
        events: Seq::empty(),
        recording: false,
    }
}

/// The state with one more observation.
pub open spec fn noted(m: BotModel, e: Event) -> BotModel {
    BotModel { events: m.events.push(e), ..m }
}

/// What an observation does besides entering the log.
pub open spec fn note_deeds(m: BotModel) -> Seq<Deed> {
    if m.recording {
        seq![Deed::RecordObservation]
    } else {
        seq![]
    }
}

/// Whether a view is one to move for: of the game at hand, still played, the own turn, and
/// without a move on its way.
pub open spec fn is_to_move(m: BotModel, view: PlayerView) -> bool {
    &&& m.game == Some(view.game_id@)
    &&& view.status == GameStatus::Playing
    &&& view.turn == view.your_color
    &&& m.pending != Some(view.move_number)
}

/// Whether the answer to a move is that it was a foul.
pub open spec fn is_foul(ok: bool, reason: Option<String>) -> bool {
    !ok && text_of(reason) == Some("foul"@)
}

/// The state after a message.
pub open spec fn state_after(m: BotModel, msg: Msg) -> BotModel {
    match msg {
        Msg::MatchFound { game_id } => BotModel { game: Some(game_id@), ..idle() },
        Msg::ActiveGame(Some(game_id)) => if m.game is None {
            BotModel { game: Some(game_id@), ..m }
        } else {
            m
        },
        Msg::Sync(Some(view)) => if is_to_move(m, view) && view.move_number != m.last_move_number {
            BotModel { last_move_number: view.move_number, foul_tried: Set::empty(), ..m }
        } else {
            m
        },
        Msg::Sync(None) => if m.game is Some {
            BotModel {
                game: None,
                foul_tried: Set::empty(),
                pending: None,
                last_sent: None,
                recording: false,
                ..m
            }
        } else {
            m
        },
        Msg::MoveAccepted { move_number, captured } => match m.last_sent {
            Some(usi) => BotModel {
                last_sent: None,
                ..noted(m, Event::MyMove { move_number, usi, captured })
            },
            None => m,
        },
        Msg::OpponentMoved { move_number, captured_your_piece_at } => noted(
            m,
            Event::OpponentMoved { move_number, captured_at: text_of(captured_your_piece_at) },
        ),
        Msg::OpponentFoul(count) => noted(m, Event::OpponentFoul { count }),
        Msg::Check(color) => noted(m, Event::Check { in_check: color }),
        Msg::GameEnd => BotModel { game: None, foul_tried: Set::empty(), recording: false, ..m },
        Msg::MoveResult { usi, ok, reason } => if is_foul(ok, reason) {
            BotModel {
                foul_tried: m.foul_tried.insert(usi@),
                pending: None,
                ..noted(m, Event::MyFoul { move_number: m.last_move_number, usi: usi@ })
            }
        } else {
            m
        },
        _ => m,
    }
}

/// What a message asks the connection to do.
pub open spec fn deeds_after(m: BotModel, config: Config, msg: Msg) -> Seq<Deed> {
    match msg {
        Msg::Connected => match m.game {
            Some(game) => seq![Deed::RequestSync(game)],
            None => seq![Deed::JoinQueue],
        },
        Msg::QueueAck { ok } => if ok || m.game is Some {
            seq![]
        } else {
            seq![Deed::Wait(config.queue_retry_ms), Deed::JoinQueue]
        },
        Msg::QueueClosed(_) => seq![Deed::Wait(config.queue_retry_ms), Deed::JoinQueue],
        Msg::MatchFound { game_id } => seq![Deed::FreshStrategy, Deed::DropRecord],
        Msg::ActiveGame(Some(game_id)) => if m.game is None {
            seq![Deed::RequestSync(game_id@)]
        } else {
            seq![]
        },
        Msg::ThinkTrigger => match m.game {
            Some(game) => seq![Deed::Wait(config.think_delay_ms), Deed::RequestSync(game)],
            None => seq![],
        },
        Msg::Sync(Some(view)) => {
            let open = if m.game == Some(view.game_id@) && !m.recording && config.record_dir
                is Some {
                seq![Deed::OpenRecord]
            } else {
                seq![]
            };
            let think = if is_to_move(m, view) {
                seq![Deed::Choose]
            } else {
                seq![]
            };
            open + think
        },
        Msg::Sync(None) => if m.game is Some {
            let close = if m.recording {
                seq![Deed::AbortRecord]
            } else {
                seq![]
            };
            close + seq![Deed::Wait(config.requeue_delay_ms), Deed::JoinQueue]
        } else {
            seq![]
        },
        Msg::MoveAccepted { move_number, captured } => if m.last_sent is Some {
            note_deeds(m)
        } else {
            seq![]
        },
        Msg::OpponentMoved { move_number, captured_your_piece_at } => note_deeds(m).push(
            Deed::ThinkAgain,
        ),
        Msg::OpponentFoul(_) => note_deeds(m),
        Msg::Check(_) => note_deeds(m),
        Msg::GameEnd => {
            let close = if m.recording {
                seq![Deed::CloseRecord]
            } else {
                seq![]
            };
            close + seq![Deed::Wait(config.requeue_delay_ms), Deed::JoinQueue]
        },
        Msg::MoveResult { usi, ok, reason } => if is_foul(ok, reason) {
            note_deeds(m).push(Deed::ThinkAgain)
        } else {
            seq![]
        },
        _ => seq![],
    }
}

/// The state after the strategy has chosen a move for a turn of the game at hand, or none.
pub open spec fn state_chosen(
    m: BotModel,
    move_number: u32,
    chosen: Option<Seq<char>>,
) -> BotModel {
    match chosen {
        Some(usi) => BotModel { pending: Some(move_number), last_sent: Some(usi), ..m },
        None => m,
    }
}

/// What is done with the choice of the strategy: the move is sent; without one the game is given up.
pub open spec fn deeds_chosen(m: BotModel, move_number: u32, chosen: Option<Seq<char>>) -> Seq<
    Deed,
> {
    match (m.game, chosen) {
        (Some(game), Some(usi)) => {
            let note = if m.recording {
                seq![Deed::RecordChosen(move_number)]
            } else {
                seq![]
            };
            note.push(Deed::SendMove { game_id: game, usi })
        },
        (Some(game), None) => {
            let note = if m.recording {
                seq![Deed::RecordResigned(move_number)]
            } else {
                seq![]
            };
            note.push(Deed::Resign(game))
        },
        (None, _) => seq![],
    }
}

/// Adds an action to a list.
fn push(out: &mut Vec<Action>, action: Action)
    ensures
        deeds(final(out)@) == deeds(old(out)@).push(action@),
{
    out.push(action);
    assert(deeds(out@) =~= deeds(old(out)@).push(action@));
}

fn clone_text(s: &Option<String>) -> (res: Option<String>)
    ensures
        text_of(res) == text_of(*s),
{
    match s {
        Some(t) => Some(t.clone()),
        None => None,
    }
}

impl BotState {
    /// The state in which the bot starts.
    pub fn new() -> (res: BotState)
        ensures
            res@ == idle(),
    {
        let res = BotState {
            game_id: None,
            foul_tried: Vec::new(),
            last_move_number: 0,
            pending_move_number: None,
            last_sent: None,
            log: ObservationLog::default(),
            recording: false,
        };
        proof {
            lemma_no_texts(res.foul_tried@);
        }
        res
    }

    fn clear_tried(&mut self)
        ensures
            final(self)@ == (BotModel { foul_tried: Set::empty(), ..old(self)@ }),
    {
        self.foul_tried = Vec::new();
        proof {
            lemma_no_texts(self.foul_tried@);
        }
    }

    /// Enters an observation into the log, and into the record where one is open.
    pub fn observe(&mut self, obs: Observation, out: &mut Vec<Action>)
        ensures
            final(self)@ == noted(old(self)@, obs@),
            deeds(final(out)@) == deeds(old(out)@) + note_deeds(old(self)@),
    {
        if self.recording {
            push(out, Action::RecordObservation);
        }
        self.log.record(obs);
        assert(deeds(out@) =~= deeds(old(out)@) + note_deeds(old(self)@));
    }

    fn add_tried(&mut self, usi: String)
        ensures
            final(self)@ == (BotModel {
                foul_tried: old(self)@.foul_tried.insert(usi@),
                ..old(self)@
            }),
    {
        insert_text(&mut self.foul_tried, usi);
    }

    /// Takes in the state of the game. A first view opens the record; one to move for has the
    /// strategy choose.
    fn handle_sync(&mut self, record: bool, view: &PlayerView, out: &mut Vec<Action>)
        requires
            deeds(old(out)@) == Seq::<Deed>::empty(),
        ensures
            final(self)@ == (if is_to_move(old(self)@, *view) && view.move_number
                != old(self)@.last_move_number {
                BotModel {
                    last_move_number: view.move_number,
                    foul_tried: Set::empty(),
                    ..old(self)@
                }
            } else {
                old(self)@
            }),
            deeds(final(out)@) == (if old(self)@.game == Some(view.game_id@)
                && !old(self)@.recording && record {
                seq![Deed::OpenRecord]
            } else {
                seq![]
            }) + (if is_to_move(old(self)@, *view) {
                seq![Deed::Choose]
            } else {
                seq![]
            }),
    {
        let same = match &self.game_id {
            Some(game) => *game == view.game_id,
            None => false,
        };
        if !same {
            return;
        }
        if !self.recording && record {
            push(out, Action::OpenRecord);
        }
        if view.status != GameStatus::Playing || view.turn != view.your_color {
            return;
        }
        if let Some(n) = self.pending_move_number {
            if n == view.move_number {
                return;
            }
        }
        if view.move_number != self.last_move_number {
            self.last_move_number = view.move_number;
            self.clear_tried();
        }
        push(out, Action::Choose);
    }

    /// Takes in one message and says what is to be done.
    pub fn step(&mut self, config: &Config, msg: &Msg) -> (res: Vec<Action>)
        ensures
            final(self)@ == state_after(old(self)@, *msg),
            deeds(res@) == deeds_after(old(self)@, *config, *msg),
    {
        let ghost start = self@;
        let mut out: Vec<Action> = Vec::new();
        assert(deeds(out@) =~= Seq::<Deed>::empty());
        match msg {
            Msg::Connected => match &self.game_id {
                Some(game) => push(&mut out, Action::RequestSync(game.clone())),
                None => push(&mut out, Action::JoinQueue),
            },
            Msg::Closed => {},
            Msg::SocketError(_) => {},
            Msg::QueueAck { ok } => {
                if !*ok && self.game_id.is_none() {
                    push(&mut out, Action::Wait(config.queue_retry_ms));
                    push(&mut out, Action::JoinQueue);
                }
            },
            Msg::QueueClosed(_) => {
                push(&mut out, Action::Wait(config.queue_retry_ms));
                push(&mut out, Action::JoinQueue);
            },
            Msg::MatchFound { game_id } => {
                self.clear_tried();
                self.last_move_number = 0;
                self.pending_move_number = None;
                self.last_sent = None;
                self.log.clear();
                self.recording = false;
                self.game_id = Some(game_id.clone());
                push(&mut out, Action::FreshStrategy);
                push(&mut out, Action::DropRecord);
            },
            Msg::ActiveGame(Some(game_id)) => {
                if self.game_id.is_none() {
                    self.game_id = Some(game_id.clone());
                    push(&mut out, Action::RequestSync(game_id.clone()));
                }
            },
            Msg::ActiveGame(None) => {},
            Msg::ThinkTrigger => {
                if let Some(game) = &self.game_id {
                    push(&mut out, Action::Wait(config.think_delay_ms));
                    push(&mut out, Action::RequestSync(game.clone()));
                }
            },
            Msg::Sync(Some(view)) => {
                self.handle_sync(config.record_dir.is_some(), view, &mut out);
            },
            Msg::Sync(None) => {
                if self.game_id.is_some() {
                    self.game_id = None;
                    if self.recording {
                        self.recording = false;
                        push(&mut out, Action::AbortRecord);
                    }
                    self.clear_tried();
                    self.pending_move_number = None;
                    self.last_sent = None;
                    push(&mut out, Action::Wait(config.requeue_delay_ms));
                    push(&mut out, Action::JoinQueue);
                }
            },
            Msg::MoveAccepted { move_number, captured } => {
                if let Some(usi) = clone_text(&self.last_sent) {
                    self.last_sent = None;
                    self.observe(
                        Observation::MyMove { move_number: *move_number, usi, captured: *captured },
                        &mut out,
                    );
                }
            },
            Msg::OpponentMoved { move_number, captured_your_piece_at } => {
                self.observe(
                    Observation::OpponentMoved {
                        move_number: *move_number,
                        captured_my_piece_at: clone_text(captured_your_piece_at),
                    },
                    &mut out,
                );
                push(&mut out, Action::ThinkAgain);
            },
            Msg::OpponentFoul(count) => {
                self.observe(Observation::OpponentFoul { count: *count }, &mut out);
            },
            Msg::Check(color) => {
                self.observe(Observation::Check { in_check: *color }, &mut out);
            },
            Msg::GameEnd => {
                if self.recording {
                    self.recording = false;
                    push(&mut out, Action::CloseRecord);
                }
                self.game_id = None;
                self.clear_tried();
                push(&mut out, Action::Wait(config.requeue_delay_ms));
                push(&mut out, Action::JoinQueue);
            },
            Msg::MoveResult { usi, ok, reason } => {
                let fouled = match reason {
                    Some(r) => !*ok && crate::text::same_text(r.as_str(), "foul"),
                    None => false,
                };
                if fouled {
                    self.add_tried(usi.clone());
                    self.pending_move_number = None;
                    let move_number: u32 = self.last_move_number;
                    self.observe(Observation::MyFoul { move_number, usi: usi.clone() }, &mut out);
                    push(&mut out, Action::ThinkAgain);
                }
            },
        }
        assert(deeds(out@) =~= deeds_after(start, *config, *msg));
        out
    }

    /// Takes in whether the record could be opened.
    pub fn record_opened(&mut self, ok: bool)
        ensures
            final(self)@ == (BotModel { recording: ok, ..old(self)@ }),
    {
        self.recording = ok;
    }

    /// Takes in the strategy's choice for the turn it was asked about.
    pub fn chosen(&mut self, move_number: u32, choice: &Option<String>) -> (res: Vec<Action>)
        requires
            old(self)@.game is Some,
        ensures
            final(self)@ == state_chosen(old(self)@, move_number, text_of(*choice)),
            deeds(res@) == deeds_chosen(old(self)@, move_number, text_of(*choice)),
    {
        let ghost start = self@;
        let mut out: Vec<Action> = Vec::new();
        assert(deeds(out@) =~= Seq::<Deed>::empty());
        if let Some(game) = clone_text(&self.game_id) {
            match choice {
                Some(usi) => {
                    if self.recording {
                        push(&mut out, Action::RecordChosen(move_number));
                    }
                    self.pending_move_number = Some(move_number);
                    self.last_sent = Some(usi.clone());
                    push(&mut out, Action::SendMove { game_id: game, usi: usi.clone() });
                },
                None => {
                    if self.recording {
                        push(&mut out, Action::RecordResigned(move_number));
                    }
                    push(&mut out, Action::Resign(game));
                },
            }
        }
        assert(deeds(out@) =~= deeds_chosen(start, move_number, text_of(*choice)));
        out
    }
}

/// After a move was sent for a turn, no view of that turn makes the strategy choose again, whatever
/// other message came in between, unless the move was a foul, the game was lost or a new one found.
pub proof fn law_one_move_per_turn(
    m: BotModel,
    config: Config,
    usi: Seq<char>,
    view: PlayerView,
    between: Msg,
)
    requires
        !(between matches Msg::MoveResult { usi, ok, reason } && is_foul(ok, reason)),
        !(between matches Msg::Sync(None)),
        !(between is MatchFound),
    ensures
        ({
            let sent = state_chosen(m, view.move_number, Some(usi));
            let then_ = state_after(sent, between);
            &&& !deeds_after(sent, config, Msg::Sync(Some(view))).contains(Deed::Choose)
            &&& !deeds_after(then_, config, Msg::Sync(Some(view))).contains(Deed::Choose)
        }),
{
}

/// A foul has the same turn thought over again, with the attempt set aside.
pub proof fn law_foul_is_retried(
    m: BotModel,
    config: Config,
    usi: String,
    reason: Option<String>,
    view: PlayerView,
)
    requires
        is_foul(false, reason),
        m.game == Some(view.game_id@),
        view.status == GameStatus::Playing,
        view.turn == view.your_color,
        view.move_number == m.last_move_number,
    ensures
        ({
            let fouled = state_after(m, Msg::MoveResult { usi, ok: false, reason });
            let again = state_after(fouled, Msg::Sync(Some(view)));
            &&& deeds_after(m, config, Msg::MoveResult { usi, ok: false, reason }).last()
                == Deed::ThinkAgain
            &&& deeds_after(fouled, config, Msg::Sync(Some(view))).contains(Deed::Choose)
            &&& again.foul_tried == m.foul_tried.insert(usi@)
            &&& again.events == m.events.push(
                Event::MyFoul { move_number: view.move_number, usi: usi@ },
            )
        }),
{
    let fouled = state_after(m, Msg::MoveResult { usi, ok: false, reason });
    let d = deeds_after(fouled, config, Msg::Sync(Some(view)));
    assert(d.last() == Deed::Choose);
}

/// Attempts that were fouls are set aside for one turn only.
pub proof fn law_new_turn_forgets_fouls(m: BotModel, view: PlayerView)
    requires
        is_to_move(m, view),
        view.move_number != m.last_move_number,
    ensures
        state_after(m, Msg::Sync(Some(view))).foul_tried == Set::<Seq<char>>::empty(),
{
}

/// Whenever a game is over or lost, and whenever the queue refuses or closes while no game is on,
/// the bot waits and queues again.
pub proof fn law_always_queues_again(m: BotModel, config: Config, msg: Msg)
    requires
        (msg is GameEnd) || (msg is QueueClosed) || (msg matches Msg::QueueAck { ok: false } && m.game
            is None) || (msg matches Msg::Sync(None) && m.game is Some),
    ensures
        deeds_after(m, config, msg).len() >= 2,
        deeds_after(m, config, msg).last() == Deed::JoinQueue,
        deeds_after(m, config, msg)[deeds_after(m, config, msg).len() - 2] is Wait,
        !(msg is QueueClosed) ==> state_after(m, msg).game is None,
{
}

/// A new game starts from nothing: no attempt, observation or record of an earlier one stays.
pub proof fn law_new_game_starts_afresh(m: BotModel, game_id: String)
    ensures
        state_after(m, Msg::MatchFound { game_id }) == (BotModel {
            game: Some(game_id@),
            ..idle()
        }),
{
}

/// What the server tells enters the log as it was told, behind what is there already: the opponent's
/// move with its number and the square of a lost piece, its fouls with their count, a check with the
/// side in check. Nothing else of the state changes.
pub proof fn law_news_enter_the_log(
    m: BotModel,
    move_number: u32,
    square: Option<String>,
    count: u32,
    color: Color,
)
    ensures
        ({
            let a = state_after(
                m,
                Msg::OpponentMoved { move_number, captured_your_piece_at: square },
            );
            &&& a.events.len() == m.events.len() + 1
            &&& a.events.drop_last() == m.events
            &&& match a.events.last() {
                Event::OpponentMoved { move_number: n, captured_at } => n == move_number && match (
                    captured_at,
                    square,
                ) {
                    (Some(x), Some(y)) => x == y@,
                    (None, None) => true,
                    _ => false,
                },
                _ => false,
            }
            &&& a.game == m.game && a.foul_tried == m.foul_tried && a.pending == m.pending
            &&& a.last_sent == m.last_sent && a.recording == m.recording
            &&& a.last_move_number == m.last_move_number
        }),
        ({
            let a = state_after(m, Msg::OpponentFoul(count));
            &&& a.events.len() == m.events.len() + 1
            &&& a.events.drop_last() == m.events
            &&& a.events.last() == (Event::OpponentFoul { count })
            &&& a.game == m.game && a.foul_tried == m.foul_tried && a.pending == m.pending
            &&& a.last_sent == m.last_sent && a.recording == m.recording
            &&& a.last_move_number == m.last_move_number
        }),
        ({
            let a = state_after(m, Msg::Check(color));
            &&& a.events.len() == m.events.len() + 1
            &&& a.events.drop_last() == m.events
            &&& a.events.last() == (Event::Check { in_check: color })
            &&& a.game == m.game && a.foul_tried == m.foul_tried && a.pending == m.pending
            &&& a.last_sent == m.last_sent && a.recording == m.recording
            &&& a.last_move_number == m.last_move_number
        }),
{
    let a = state_after(m, Msg::OpponentMoved { move_number, captured_your_piece_at: square });
    assert(a.events.drop_last() =~= m.events);
    assert(state_after(m, Msg::OpponentFoul(count)).events.drop_last() =~= m.events);
    assert(state_after(m, Msg::Check(color)).events.drop_last() =~= m.events);
}

/// An accepted move enters the log as the move that was sent, with the number and the capture that the
/// server told, and is then no longer on its way. Without a move on its way nothing changes.
pub proof fn law_accepted_move_enters_the_log(m: BotModel, move_number: u32, captured: Option<Role>)
    ensures
        ({
            let a = state_after(m, Msg::MoveAccepted { move_number, captured });
            match m.last_sent {
                Some(sent) => {
                    &&& a.events.len() == m.events.len() + 1
                    &&& a.events.drop_last() == m.events
                    &&& a.events.last() == (Event::MyMove { move_number, usi: sent, captured })
                    &&& a.last_sent is None
                    &&& a.game == m.game && a.foul_tried == m.foul_tried && a.pending == m.pending
                    &&& a.recording == m.recording && a.last_move_number == m.last_move_number
                },
                None => a == m,
            }
        }),
{
    let a = state_after(m, Msg::MoveAccepted { move_number, captured });
    assert(m.last_sent is Some ==> a.events.drop_last() =~= m.events);
}

/// The answer to a move changes something only where it was a foul: then the attempt is set aside and
/// logged with the number of the turn, and the way is free for another.
pub proof fn law_answers_to_moves(m: BotModel, usi: String, ok: bool, reason: Option<String>)
    ensures
        ({
            let a = state_after(m, Msg::MoveResult { usi, ok, reason });
            if !ok && (reason matches Some(r) && r@ == "foul"@) {
                &&& a.events.len() == m.events.len() + 1
                &&& a.events.drop_last() == m.events
                &&& a.events.last() == (Event::MyFoul {
                    move_number: m.last_move_number,
                    usi: usi@,
                })
                &&& a.pending is None
                &&& forall|t: Seq<char>| #[trigger]
                    a.foul_tried.contains(t) <==> m.foul_tried.contains(t) || t == usi@
                &&& a.game == m.game && a.last_sent == m.last_sent && a.recording == m.recording
                &&& a.last_move_number == m.last_move_number
            } else {
                a == m
            }
        }),
{
    let a = state_after(m, Msg::MoveResult { usi, ok, reason });
    if is_foul(ok, reason) {
        assert(a.events.drop_last() =~= m.events);
    }
}

/// A game is on from when it was found, or was found to be on, until it has ended or is lost. Only
/// then is its record let go, and only a new game empties the log.
pub proof fn law_games_begin_and_end(m: BotModel, msg: Msg)
    ensures
        ({
            let a = state_after(m, msg);
            &&& match msg {
                Msg::MatchFound { game_id } => a.game == Some(game_id@) && !a.recording
                    && a.events.len() == 0 && a.pending is None && a.last_sent is None
                    && a.last_move_number == 0 && forall|t: Seq<char>|
                    !#[trigger] a.foul_tried.contains(t),
                Msg::ActiveGame(Some(game_id)) => a.game == (if m.game is None {
                    Some(game_id@)
                } else {
                    m.game
                }),
                Msg::GameEnd => a.game is None && !a.recording && forall|t: Seq<char>|
                    !#[trigger] a.foul_tried.contains(t),
                Msg::Sync(None) => a.game is None && (m.game is Some ==> !a.recording && a.pending
                    is None && a.last_sent is None && forall|t: Seq<char>|
                    !#[trigger] a.foul_tried.contains(t)),
                _ => a.game == m.game && a.recording == m.recording,
            }
            &&& msg is MatchFound || m.events == a.events.take(m.events.len() as int)
            &&& msg is MatchFound || a.events.len() <= m.events.len() + 1
        }),
{
    let a = state_after(m, msg);
    assert(!(msg is MatchFound) ==> m.events =~= a.events.take(m.events.len() as int));
}

/// A view has the strategy choose exactly where it is of the game at hand, which is still played, at
/// the own turn, and no move for that turn is on its way. The record is opened with the first view of
/// the game where one is wanted. A new turn is remembered with no attempt set aside; within a turn the
/// attempts stay aside.
pub proof fn law_views_of_the_game(m: BotModel, config: Config, view: PlayerView)
    ensures
        ({
            let a = state_after(m, Msg::Sync(Some(view)));
            let d = deeds_after(m, config, Msg::Sync(Some(view)));
            let mine = m.game == Some(view.game_id@) && view.status == GameStatus::Playing
                && view.turn == view.your_color && m.pending != Some(view.move_number);
            &&& d.contains(Deed::Choose) <==> mine
            &&& d.contains(Deed::OpenRecord) <==> m.game == Some(view.game_id@) && !m.recording
                && config.record_dir is Some
            &&& d.len() <= 2
            &&& forall|i: int|
                0 <= i < d.len() ==> #[trigger] d[i] == Deed::Choose || d[i] == Deed::OpenRecord
            &&& d.len() == 2 ==> d[0] == Deed::OpenRecord && d[1] == Deed::Choose
            &&& mine ==> a.last_move_number == view.move_number
            &&& mine && view.move_number == m.last_move_number ==> a.foul_tried == m.foul_tried
            &&& mine && view.move_number != m.last_move_number ==> forall|t: Seq<char>|
                !#[trigger] a.foul_tried.contains(t)
            &&& !mine ==> a == m
            &&& a.events == m.events && a.pending == m.pending && a.last_sent == m.last_sent
        }),
{
    let d = deeds_after(m, config, Msg::Sync(Some(view)));
    let mine = is_to_move(m, view);
    let opens = m.game == Some(view.game_id@) && !m.recording && config.record_dir is Some;
    if mine {
        assert(d[d.len() - 1] == Deed::Choose);
    }
    if opens {
        assert(d[0] == Deed::OpenRecord);
    }
}

/// What is done about the queue and the game: a connection asks for the game at hand or else for the
/// queue, a trigger asks for the game after the pause for thinking, the queue is asked again after the
/// pause set for what happened, and a record that is open is closed with the game.
pub proof fn law_pauses_and_requests(m: BotModel, config: Config, game_id: String, reason: String)
    ensures
        m.game is Some ==> deeds_after(m, config, Msg::Connected) == seq![
            Deed::RequestSync(m.game->0),
        ],
        m.game is None ==> deeds_after(m, config, Msg::Connected) == seq![Deed::JoinQueue],
        m.game is Some ==> deeds_after(m, config, Msg::ThinkTrigger) == seq![
            Deed::Wait(config.think_delay_ms),
            Deed::RequestSync(m.game->0),
        ],
        m.game is None ==> deeds_after(m, config, Msg::ThinkTrigger).len() == 0,
        m.game is None ==> deeds_after(m, config, Msg::ActiveGame(Some(game_id))) == seq![
            Deed::RequestSync(game_id@),
        ],
        m.game is Some ==> deeds_after(m, config, Msg::ActiveGame(Some(game_id))).len() == 0,
        m.game is None ==> deeds_after(m, config, Msg::QueueAck { ok: false }) == seq![
            Deed::Wait(config.queue_retry_ms),
            Deed::JoinQueue,
        ],
        deeds_after(m, config, Msg::QueueAck { ok: true }).len() == 0,
        m.game is Some ==> deeds_after(m, config, Msg::QueueAck { ok: false }).len() == 0,
        deeds_after(m, config, Msg::QueueClosed(reason)) == seq![
            Deed::Wait(config.queue_retry_ms),
            Deed::JoinQueue,
        ],
        deeds_after(m, config, Msg::GameEnd).contains(Deed::CloseRecord) <==> m.recording,
        deeds_after(m, config, Msg::GameEnd).contains(Deed::Wait(config.requeue_delay_ms)),
        deeds_after(m, config, Msg::GameEnd).len() == (if m.recording {
            3nat
        } else {
            2nat
        }),
        m.game is Some ==> (deeds_after(m, config, Msg::Sync(None)).contains(Deed::AbortRecord)
            <==> m.recording),
        m.game is Some ==> deeds_after(m, config, Msg::Sync(None)).contains(
            Deed::Wait(config.requeue_delay_ms),
        ),
        m.game is None ==> deeds_after(m, config, Msg::Sync(None)).len() == 0,
{
    let e = deeds_after(m, config, Msg::GameEnd);
    let n = e.len() as int;
    assert(e[n - 2] == Deed::Wait(config.requeue_delay_ms));
    if m.recording {
        assert(e[0] == Deed::CloseRecord);
    }
    let l = deeds_after(m, config, Msg::Sync(None));
    if m.game is Some {
        assert(l[l.len() - 2] == Deed::Wait(config.requeue_delay_ms));
        if m.recording {
            assert(l[0] == Deed::AbortRecord);
        }
    }
}

/// Every observation that enters the log enters an open record too, and after the opponent's move and
/// after a foul the bot thinks again.
pub proof fn law_observations_are_recorded(m: BotModel, config: Config, msg: Msg)
    requires
        (msg is OpponentMoved) || (msg is OpponentFoul) || (msg is Check) || (msg is MoveAccepted) || (
        msg is MoveResult),
    ensures
        ({
            let d = deeds_after(m, config, msg);
            let more = state_after(m, msg).events.len() > m.events.len();
            &&& d.contains(Deed::RecordObservation) <==> m.recording && more
            &&& d.contains(Deed::ThinkAgain) <==> (msg is OpponentMoved) || (msg is MoveResult
                && more)
            &&& forall|i: int|
                0 <= i < d.len() ==> #[trigger] d[i] == Deed::RecordObservation || d[i]
                    == Deed::ThinkAgain
        }),
{
    let d = deeds_after(m, config, msg);
    if m.recording && state_after(m, msg).events.len() > m.events.len() {
        assert(d[0] == Deed::RecordObservation);
    }
    if (msg is OpponentMoved) || (msg is MoveResult && state_after(m, msg).events.len()
        > m.events.len()) {
        assert(d[d.len() - 1] == Deed::ThinkAgain);
    }
}

/// The choice of the strategy is sent for the game at hand and remembered for its turn; without a
/// choice the game is given up. An open record notes which it was, with the number of the turn.
pub proof fn law_choices_are_sent(m: BotModel, move_number: u32, usi: Seq<char>)
    requires
        m.game is Some,
    ensures
        ({
            let a = state_chosen(m, move_number, Some(usi));
            let d = deeds_chosen(m, move_number, Some(usi));
            &&& a.pending == Some(move_number) && a.last_sent == Some(usi)
            &&& a.game == m.game && a.events == m.events && a.foul_tried == m.foul_tried
            &&& a.recording == m.recording && a.last_move_number == m.last_move_number
            &&& d.last() == (Deed::SendMove { game_id: m.game->0, usi })
            &&& d.len() == (if m.recording {
                2nat
            } else {
                1nat
            })
            &&& m.recording ==> d[0] == Deed::RecordChosen(move_number)
        }),
        ({
            let d = deeds_chosen(m, move_number, None);
            &&& state_chosen(m, move_number, None) == m
            &&& d.last() == Deed::Resign(m.game->0)
            &&& d.len() == (if m.recording {
                2nat
            } else {
                1nat
            })
            &&& m.recording ==> d[0] == Deed::RecordResigned(move_number)
        }),
{
}

/// What a message does not speak of stays as it is: the end of a game leaves the log, the move on its way
/// and the number of the turn; the loss of a game leaves the log and that number; that a game is on
/// changes nothing else; and messages about the queue or the connection change nothing at all.
pub proof fn law_the_rest_stays(m: BotModel, msg: Msg)
    ensures
        ({
            let a = state_after(m, msg);
            match msg {
                Msg::GameEnd => a.events == m.events && a.pending == m.pending && a.last_sent == m.last_sent
                    && a.last_move_number == m.last_move_number,
                Msg::Sync(None) => a.events == m.events && a.last_move_number == m.last_move_number && (m.game
                    is None ==> a == m),
                Msg::ActiveGame(Some(_)) => a.events == m.events && a.pending == m.pending && a.last_sent
                    == m.last_sent && a.last_move_number == m.last_move_number && a.foul_tried
                    == m.foul_tried && a.recording == m.recording,
                Msg::ActiveGame(None) => a == m,
                Msg::Connected => a == m,
                Msg::Closed => a == m,
                Msg::SocketError(_) => a == m,
                Msg::QueueAck { ok } => a == m,
                Msg::QueueClosed(_) => a == m,
                Msg::ThinkTrigger => a == m,
                Msg::MatchFound { game_id } => true,
                _ => a.game == m.game && a.recording == m.recording,
            }
        }),
{
}

/// A new game asks for a strategy that knows nothing yet, and for the record of the last one to be let go.
/// What is done at the end of a game and at its loss comes in order: the record, the pause, the queue. An
/// observation is recorded before the bot thinks again.
pub proof fn law_order_of_actions(
    m: BotModel,
    config: Config,
    game_id: String,
    move_number: u32,
    at: Option<String>,
)
    ensures
        deeds_after(m, config, Msg::MatchFound { game_id }) == seq![Deed::FreshStrategy, Deed::DropRecord],
        m.recording ==> deeds_after(m, config, Msg::GameEnd) == seq![
            Deed::CloseRecord,
            Deed::Wait(config.requeue_delay_ms),
            Deed::JoinQueue,
        ],
        m.recording && m.game is Some ==> deeds_after(m, config, Msg::Sync(None)) == seq![
            Deed::AbortRecord,
            Deed::Wait(config.requeue_delay_ms),
            Deed::JoinQueue,
        ],
        !m.recording && m.game is Some ==> deeds_after(m, config, Msg::Sync(None)) == seq![
            Deed::Wait(config.requeue_delay_ms),
            Deed::JoinQueue,
        ],
        m.recording ==> deeds_after(
            m,
            config,
            Msg::OpponentMoved { move_number, captured_your_piece_at: at },
        ) == seq![Deed::RecordObservation, Deed::ThinkAgain],
        !m.recording ==> deeds_after(
            m,
            config,
            Msg::OpponentMoved { move_number, captured_your_piece_at: at },
        ) == seq![Deed::ThinkAgain],
        deeds_after(m, config, Msg::ActiveGame(None)).len() == 0,
        deeds_after(m, config, Msg::Closed).len() == 0,
        deeds_after(m, config, Msg::SocketError(game_id)).len() == 0,
{
    assert(m.recording ==> deeds_after(m, config, Msg::GameEnd) =~= seq![
        Deed::CloseRecord,
        Deed::Wait(config.requeue_delay_ms),
        Deed::JoinQueue,
    ]);
    assert(m.recording && m.game is Some ==> deeds_after(m, config, Msg::Sync(None)) =~= seq![
        Deed::AbortRecord,
        Deed::Wait(config.requeue_delay_ms),
        Deed::JoinQueue,
    ]);
    assert(!m.recording && m.game is Some ==> deeds_after(m, config, Msg::Sync(None)) =~= seq![
        Deed::Wait(config.requeue_delay_ms),
        Deed::JoinQueue,
    ]);
    let d = deeds_after(m, config, Msg::OpponentMoved { move_number, captured_your_piece_at: at });
    assert(m.recording ==> d =~= seq![Deed::RecordObservation, Deed::ThinkAgain]);
    assert(!m.recording ==> d =~= seq![Deed::ThinkAgain]);
}

} // verus!
