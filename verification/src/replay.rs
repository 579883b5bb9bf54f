//! Replaying a finished game with the referee's knowledge: the true position and what both
//! players had observed at every decision.

use crate::board::{make_usi_square, square_text};
use crate::model::{bump, bumped, own_list, visible_pieces};
use crate::observation::{Event, Observation, ObservationLog};
use crate::protocol::{
    other_color, unpromoted, ClockState, Color, FoulCounts, FoulRecord, GameEndPayload, GameStatus,
    MoveRecord, PlayerView, Role, ViewModel,
};
use crate::shogi::{
    after_move, checked, hand_counts, initial_model, legal, move_of_text, parse_usi, playable,
    taken_by, text_of_move, unpromote_role, writable, Position, PositionModel, ShogiMove,
};
use vstd::prelude::*;

verus! {

/// The place of a side in a pair: Sente first.
pub open spec fn side_place(color: Color) -> int {
    match color {
        Color::Sente => 0,
        Color::Gote => 1,
    }
}

/// The place of a side in a pair: Sente first.
pub fn side_idx(color: Color) -> (res: usize)
    ensures
        res == side_place(color),
        res < 2,
{
    match color {
        Color::Sente => 0,
        Color::Gote => 1,
    }
}

/// The observation logs of both players.
#[derive(Debug)]
pub struct SideLogs {
    pub sente: ObservationLog,
    pub gote: ObservationLog,
}

/// The events that both players have observed.
#[verifier::ext_equal]
pub struct SideEvents {
    pub sente: Seq<Event>,
    pub gote: Seq<Event>,
}

impl SideEvents {
    pub open spec fn of(self, color: Color) -> Seq<Event> {
        match color {
            Color::Sente => self.sente,
            Color::Gote => self.gote,
        }
    }

    /// One more event for one side.
    pub open spec fn push(self, color: Color, e: Event) -> SideEvents {
        match color {
            Color::Sente => SideEvents { sente: self.sente.push(e), ..self },
            Color::Gote => SideEvents { gote: self.gote.push(e), ..self },
        }
    }

    pub open spec fn empty() -> SideEvents {
        SideEvents { sente: Seq::empty(), gote: Seq::empty() }
    }
}

impl View for SideLogs {
    type V = SideEvents;

    open spec fn view(&self) -> SideEvents {
        SideEvents { sente: self.sente@, gote: self.gote@ }
    }
}

impl Clone for SideLogs {
    fn clone(&self) -> (res: SideLogs)
        ensures
            res@ == self@,
    {
        SideLogs { sente: self.sente.clone(), gote: self.gote.clone() }
    }
}

impl SideLogs {
    pub fn new() -> (res: SideLogs)
        ensures
            res@ == SideEvents::empty(),
    {
        SideLogs { sente: ObservationLog::default(), gote: ObservationLog::default() }
    }

    /// The log of one side.
    pub fn of(&self, color: Color) -> (res: &ObservationLog)
        ensures
            res@ == self@.of(color),
    {
        match color {
            Color::Sente => &self.sente,
            Color::Gote => &self.gote,
        }
    }

    /// Adds an observation to the log of one side.
    pub fn record(&mut self, color: Color, obs: Observation)
        ensures
            final(self)@ == old(self)@.push(color, obs@),
    {
        match color {
            Color::Sente => self.sente.record(obs),
            Color::Gote => self.gote.record(obs),
        }
    }
}

/// A pair of counters with the one of a side raised by one.
pub open spec fn raised(fouls: Seq<u32>, side: Color) -> Seq<u32> {
    fouls.update(side_place(side), bumped(fouls[side_place(side)]))
}

/// The events of a foul: the side that tried learns of its attempt, the other of the new count.
pub open spec fn foul_events(
    logs: SideEvents,
    side: Color,
    usi: Seq<char>,
    move_number: u32,
    count: u32,
) -> SideEvents {
    logs.push(side, Event::MyFoul { move_number, usi }).push(
        other_color(side),
        Event::OpponentFoul { count },
    )
}

/// Records a foul for both players and counts it.
pub fn add_foul_obs(
    side: Color,
    usi: String,
    pos: &Position,
    logs: &mut SideLogs,
    fouls: &mut [u32; 2],
)
    ensures
        final(fouls)@ == raised(old(fouls)@, side),
        final(logs)@ == foul_events(
            old(logs)@,
            side,
            usi@,
            pos@.move_number,
            raised(old(fouls)@, side)[side_place(side)],
        ),
{
    let i: usize = side_idx(side);
    let count: u32 = bump(fouls[i]);
    fouls[i] = count;
    logs.record(side, Observation::MyFoul { move_number: pos.move_number(), usi });
    logs.record(side.other(), Observation::OpponentFoul { count });
}

/// The unpromoted role of a captured piece.
pub open spec fn hand_role(captured: Option<Role>) -> Option<Role> {
    match captured {
        Some(role) => Some(unpromoted(role)),
        None => None,
    }
}

/// The events of an accepted move, `pos` being the position after it: the mover learns what was
/// taken, the other side where it lost a piece, and both of a check.
pub open spec fn move_events(
    logs: SideEvents,
    side: Color,
    mv: ShogiMove,
    captured: Option<Role>,
    pos: PositionModel,
) -> SideEvents {
    let told = logs.push(
        side,
        Event::MyMove {
            move_number: pos.move_number,
            usi: text_of_move(mv),
            captured: hand_role(captured),
        },
    ).push(
        other_color(side),
        Event::OpponentMoved {
            move_number: pos.move_number,
            captured_at: match (captured, mv) {
                (Some(_), ShogiMove::Board { from, to, promote }) => Some(square_text(to)),
                _ => None,
            },
        },
    );
    if checked(pos, pos.turn) {
        told.push(Color::Sente, Event::Check { in_check: pos.turn }).push(
            Color::Gote,
            Event::Check { in_check: pos.turn },
        )
    } else {
        told
    }
}

/// Records an accepted move for both players. `pos` is the position after the move.
pub fn add_move_obs(
    side: Color,
    mv: &ShogiMove,
    captured: Option<Role>,
    pos: &Position,
    logs: &mut SideLogs,
)
    requires
        writable(*mv),
        captured is Some ==> mv is Board,
    ensures
        final(logs)@ == move_events(old(logs)@, side, *mv, captured, pos@),
{
    let move_number: u32 = pos.move_number();
    let lost_at: Option<String> = match (captured, *mv) {
        (Some(_), ShogiMove::Board { from: _, to, promote: _ }) => Some(make_usi_square(to)),
        _ => None,
    };
    let taken: Option<Role> = match captured {
        Some(role) => Some(unpromote_role(role)),
        None => None,
    };
    logs.record(side, Observation::MyMove { move_number, usi: mv.to_usi(), captured: taken });
    logs.record(
        side.other(),
        Observation::OpponentMoved { move_number, captured_my_piece_at: lost_at },
    );
    let turn = pos.turn();
    if pos.in_check(turn) {
        logs.record(Color::Sente, Observation::Check { in_check: turn });
        logs.record(Color::Gote, Observation::Check { in_check: turn });
    }
}

/// A replayed game: the true position, both logs, the fouls of both sides and the moves made.
#[derive(Debug)]
pub struct Replayed {
    pub pos: Position,
    pub logs: SideLogs,
    pub fouls: [u32; 2],
    pub plies: u32,
}

/// What a player is shown of a true position.
pub open spec fn shown(pos: PositionModel, color: Color, fouls: Seq<u32>) -> ViewModel {
    ViewModel {
        color,
        pieces: pieces_of_side(pos, color),
        hand: hand_counts(pos.hand(color)),
        turn: pos.turn,
        move_number: pos.move_number,
        fouls: FoulCounts {
            you: fouls[side_place(color)],
            opponent: fouls[side_place(other_color(color))],
        },
        you_in_check: checked(pos, color),
        opponent_in_check: checked(pos, other_color(color)),
        status: GameStatus::Playing,
    }
}

/// The board with the pieces of one side only.
pub open spec fn only_side(pos: PositionModel, color: Color) -> PositionModel {
    PositionModel {
        cells: Seq::new(
            81,
            |i: int|
                match pos.cells[i] {
                    Some(p) => if p.color == color {
                        Some(p)
                    } else {
                        None
                    },
                    None => None,
                },
        ),
        ..pos
    }
}

/// The pieces of one side, in file-major order.
pub open spec fn pieces_of_side(pos: PositionModel, color: Color) -> Seq<(Seq<char>, Role)> {
    own_list(only_side(pos, color))
}

/// The position with the pieces of one side only.
pub fn side_only(pos: &Position, color: Color) -> (res: Position)
    ensures
        res@ == only_side(pos@, color),
{
    let mut own = *pos;
    let mut i: usize = 0;
    while i < 81
        invariant
            i <= 81,
            own@.turn == pos@.turn,
            own@.move_number == pos@.move_number,
            own@.sente_hand == pos@.sente_hand,
            own@.gote_hand == pos@.gote_hand,
            forall|k: int| i <= k < 81 ==> #[trigger] own.cells@[k] == pos.cells@[k],
            forall|k: int|
                0 <= k < i ==> #[trigger] own.cells@[k] == only_side(pos@, color).cells[k],
        decreases 81 - i,
    {
        if let Some(p) = own.cells[i] {
            if p.color != color {
                own.cells[i] = None;
            }
        }
        i += 1;
    }
    assert(own@ =~= only_side(pos@, color));
    own
}

/// What a player is shown of a true position, under the name of a game.
pub fn make_named_view(game_id: &str, pos: &Position, color: Color, fouls: &[u32; 2]) -> (res:
    PlayerView)
    ensures
        res.game_id@ == game_id@,
        res@ == shown(pos@, color, fouls@),
        res.clocks == (ClockState {
            sente_ms: 900_000,
            gote_ms: 900_000,
            running: Some(pos@.turn),
            server_time: 0,
        }),
{
    let own = side_only(pos, color);
    PlayerView {
        game_id: game_id.to_owned(),
        your_color: color,
        your_pieces: visible_pieces(&own),
        your_hand: pos.hand_map(color),
        turn: pos.turn(),
        move_number: pos.move_number(),
        clocks: ClockState {
            sente_ms: 900_000,
            gote_ms: 900_000,
            running: Some(pos.turn()),
            server_time: 0,
        },
        fouls: FoulCounts { you: fouls[side_idx(color)], opponent: fouls[side_idx(color.other())] },
        you_in_check: pos.in_check(color),
        opponent_in_check: pos.in_check(color.other()),
        status: GameStatus::Playing,
    }
}

/// What a player is shown of a true position, with full clocks.
pub fn make_view(pos: &Position, color: Color, fouls: &[u32; 2]) -> (res: PlayerView)
    ensures
        res.game_id@ == "scenario"@,
        res@ == shown(pos@, color, fouls@),
        res.clocks == (ClockState {
            sente_ms: 900_000,
            gote_ms: 900_000,
            running: Some(pos@.turn),
            server_time: 0,
        }),
{
    make_named_view("scenario", pos, color, fouls)
}

/// A decision of one side: the state after the fouls of the turn, before the accepted move.
#[derive(Debug)]
pub struct Decision {
    pub pos: Position,
    pub side: Color,
    pub logs: SideLogs,
    pub fouls: [u32; 2],
    pub fouls_this_turn: u32,
    pub plies: u32,
}

/// The mathematical content of a `Decision`.
pub struct DecisionModel {
    pub pos: PositionModel,
    pub side: Color,
    pub logs: SideEvents,
    pub fouls: Seq<u32>,
    pub fouls_this_turn: u32,
    pub plies: u32,
}

impl View for Decision {
    type V = DecisionModel;

    open spec fn view(&self) -> DecisionModel {
        DecisionModel {
            pos: self.pos@,
            side: self.side,
            logs: self.logs@,
            fouls: self.fouls@,
            fouls_this_turn: self.fouls_this_turn,
            plies: self.plies,
        }
    }
}

/// A record put behind those whose move number is not larger.
pub open spec fn placed(sorted: Seq<FoulRecord>, f: FoulRecord) -> Seq<FoulRecord>
    decreases sorted.len(),
{
    if sorted.len() == 0 || sorted.last().move_number <= f.move_number {
        sorted.push(f)
    } else {
        placed(sorted.drop_last(), f).push(sorted.last())
    }
}

/// The records by move number, equal numbers in their given order.
pub open spec fn by_number(fouls: Seq<FoulRecord>) -> Seq<FoulRecord>
    decreases fouls.len(),
{
    if fouls.len() == 0 {
        Seq::empty()
    } else {
        placed(by_number(fouls.drop_last()), fouls.last())
    }
}

proof fn lemma_placed(sorted: Seq<FoulRecord>, f: FoulRecord, n: int)
    requires
        0 <= n <= sorted.len(),
        n == 0 || sorted[n - 1].move_number <= f.move_number,
        forall|k: int| n <= k < sorted.len() ==> #[trigger] sorted[k].move_number > f.move_number,
    ensures
        placed(sorted, f) == sorted.insert(n, f),
    decreases sorted.len(),
{
    if n < sorted.len() {
        assert(sorted.last().move_number > f.move_number);
        assert forall|k: int| n <= k < sorted.drop_last().len() implies #[trigger]
            sorted.drop_last()[k].move_number > f.move_number by {
            assert(sorted[k].move_number > f.move_number);
        }
        lemma_placed(sorted.drop_last(), f, n);
        assert(sorted.drop_last().insert(n, f).push(sorted.last()) =~= sorted.insert(n, f));
    } else {
        assert(sorted.push(f) =~= sorted.insert(n, f));
    }
}

/// Orders foul records by move number; records of one number keep their order.
pub fn sort_fouls(fouls: &Vec<FoulRecord>) -> (res: Vec<FoulRecord>)
    ensures
        res@ == by_number(fouls@),
{
    let mut sorted: Vec<FoulRecord> = Vec::new();
    let mut i: usize = 0;
    while i < fouls.len()
        invariant
            i <= fouls@.len(),
            sorted@ == by_number(fouls@.take(i as int)),
        decreases fouls@.len() - i,
    {
        let f = fouls[i].clone();
        let mut n: usize = sorted.len();
        while n > 0 && sorted[n - 1].move_number > f.move_number
            invariant
                n <= sorted@.len(),
                forall|k: int|
                    n <= k < sorted@.len() ==> #[trigger] sorted@[k].move_number > f.move_number,
            decreases n,
        {
            n -= 1;
        }
        proof {
            lemma_placed(sorted@, f, n as int);
            let t = fouls@.take(i + 1);
            assert(t.drop_last() =~= fouls@.take(i as int));
            assert(t.last() == fouls@[i as int]);
        }
        sorted.insert(n, f);
        i += 1;
    }
    assert(fouls@.take(i as int) =~= fouls@);
    sorted
}

/// The referee's state between two moves.
pub struct TruthState {
    pub pos: PositionModel,
    pub logs: SideEvents,
    pub fouls: Seq<u32>,
    /// How many of the sorted foul records have been used.
    pub used: int,
}

/// The state in which a game starts.
pub open spec fn truth_start() -> TruthState {
    TruthState {
        pos: initial_model(),
        logs: SideEvents::empty(),
        fouls: seq![0u32, 0u32],
        used: 0,
    }
}

/// Whether the next foul record belongs to the turn at hand.
pub open spec fn foul_is_next(s: TruthState, records: Seq<FoulRecord>) -> bool {
    0 <= s.used < records.len() && records[s.used].move_number == s.pos.move_number
        && records[s.used].by_color == s.pos.turn
}

/// The state after one foul.
pub open spec fn foul_taken(s: TruthState, f: FoulRecord) -> TruthState {
    let fouls = raised(s.fouls, s.pos.turn);
    TruthState {
        pos: s.pos,
        logs: foul_events(
            s.logs,
            s.pos.turn,
            f.usi@,
            s.pos.move_number,
            fouls[side_place(s.pos.turn)],
        ),
        fouls,
        used: s.used + 1,
    }
}

/// The state after all fouls of the turn at hand.
pub open spec fn turn_fouls(s: TruthState, records: Seq<FoulRecord>) -> TruthState
    decreases records.len() - s.used,
{
    if foul_is_next(s, records) {
        turn_fouls(foul_taken(s, records[s.used]), records)
    } else {
        s
    }
}

/// Whether the recorded move is one that the side to move could legally make.
pub open spec fn move_fits(s: TruthState, m: MoveRecord) -> bool {
    move_of_text(m.usi@) matches Some(mv) && m.by_color == s.pos.turn && legal(s.pos, mv)
}

/// The state after an accepted move.
pub open spec fn move_taken(s: TruthState, mv: ShogiMove) -> TruthState {
    let next = after_move(s.pos, mv);
    TruthState {
        pos: next,
        logs: move_events(s.logs, s.pos.turn, mv, taken_by(s.pos, mv), next),
        fouls: s.fouls,
        used: s.used,
    }
}

/// A replay up to some move: the state, the decisions met, and whether every move has fitted.
pub struct TruthRun {
    pub state: TruthState,
    pub decisions: Seq<DecisionModel>,
    pub ok: bool,
}

/// The replay after the first `k` moves. A move that does not fit ends it.
pub open spec fn truth_run(moves: Seq<MoveRecord>, records: Seq<FoulRecord>, k: int) -> TruthRun
    decreases k,
{
    if k <= 0 {
        TruthRun { state: truth_start(), decisions: Seq::empty(), ok: true }
    } else {
        let r = truth_run(moves, records, k - 1);
        if !r.ok {
            r
        } else {
            let s = turn_fouls(r.state, records);
            let decisions = r.decisions.push(
                DecisionModel {
                    pos: s.pos,
                    side: s.pos.turn,
                    logs: s.logs,
                    fouls: s.fouls,
                    fouls_this_turn: (s.used - r.state.used) as u32,
                    plies: (k - 1) as u32,
                },
            );
            if move_fits(s, moves[k - 1]) {
                TruthRun {
                    state: move_taken(s, move_of_text(moves[k - 1].usi@)->0),
                    decisions,
                    ok: true,
                }
            } else {
                TruthRun { state: s, decisions, ok: false }
            }
        }
    }
}

/// The replay of a whole game.
pub open spec fn game_run(end: GameEndPayload) -> TruthRun {
    truth_run(end.moves@, by_number(end.foul_attempts@), end.moves@.len() as int)
}

/// A replayed game: every decision, whether the record held together, and the last state.
#[derive(Debug)]
pub struct GameReplay {
    pub decisions: Vec<Decision>,
    pub ok: bool,
    pub last: Replayed,
}

/// The content of a list of decisions.
pub open spec fn decision_list(decisions: Seq<Decision>) -> Seq<DecisionModel> {
    decisions.map_values(|d: Decision| d@)
}

/// A parsed legal move is made of squares on the board and can be carried out.
pub proof fn lemma_legal_is_playable(m: PositionModel, mv: ShogiMove)
    requires
        legal(m, mv),
    ensures
        playable(m, mv),
        writable(mv),
        taken_by(m, mv) is Some ==> mv is Board,
{
}

/// Replays a finished game. A record whose moves do not fit the rules stops at the first such
/// move, with the decisions up to it.
pub fn replay_game(end: &GameEndPayload) -> (res: GameReplay)
    requires
        end.moves@.len() <= u32::MAX,
        end.foul_attempts@.len() <= u32::MAX,
    ensures
        decision_list(res.decisions@) == game_run(*end).decisions,
        res.ok == game_run(*end).ok,
        res.last.pos@ == game_run(*end).state.pos,
        res.last.logs@ == game_run(*end).state.logs,
        res.last.fouls@ == game_run(*end).state.fouls,
        res.ok ==> res.last.plies == end.moves@.len(),
{
    let records = sort_fouls(&end.foul_attempts);
    proof {
        lemma_by_number_len(end.foul_attempts@);
    }
    let mut pos = Position::initial();
    let mut logs = SideLogs::new();
    let mut fouls: [u32; 2] = [0, 0];
    let mut used: usize = 0;
    let mut decisions: Vec<Decision> = Vec::new();
    let mut k: usize = 0;
    assert(fouls@ =~= seq![0u32, 0u32]);
    assert(decision_list(decisions@) =~= Seq::<DecisionModel>::empty());
    while k < end.moves.len()
        invariant
            end.moves@.len() <= u32::MAX,
            records@ == by_number(end.foul_attempts@),
            records@.len() <= u32::MAX,
            k <= end.moves@.len(),
            used <= records@.len(),
            ({
                let r = truth_run(end.moves@, records@, k as int);
                &&& r.ok
                &&& r.state.pos == pos@
                &&& r.state.logs == logs@
                &&& r.state.fouls == fouls@
                &&& r.state.used == used
                &&& r.decisions == decision_list(decisions@)
            }),
        decreases end.moves@.len() - k,
    {
        let ghost r = truth_run(end.moves@, records@, k as int);
        let ghost settled = turn_fouls(r.state, records@);
        let first: usize = used;
        let side = pos.turn();
        while used < records.len() && records[used].move_number == pos.move_number()
            && records[used].by_color == side
            invariant
                records@.len() <= u32::MAX,
                first <= used <= records@.len(),
                side == pos@.turn,
                pos@ == r.state.pos,
                turn_fouls(
                    TruthState { pos: pos@, logs: logs@, fouls: fouls@, used: used as int },
                    records@,
                ) == settled,
            decreases records@.len() - used,
        {
            add_foul_obs(side, records[used].usi.clone(), &pos, &mut logs, &mut fouls);
            used += 1;
        }
        let ghost before = decisions@;
        decisions.push(
            Decision {
                pos,
                side,
                logs: logs.clone(),
                fouls,
                fouls_this_turn: (used - first) as u32,
                plies: k as u32,
            },
        );
        proof {
            assert(settled == TruthState {
                pos: pos@,
                logs: logs@,
                fouls: fouls@,
                used: used as int,
            });
            assert(decision_list(decisions@) =~= decision_list(before).push(decisions@.last()@));
        }
        let parsed = parse_usi(end.moves[k].usi.as_str());
        let fits = match parsed {
            Some(mv) => end.moves[k].by_color == side && pos.is_legal(&mv),
            None => false,
        };
        proof {
            assert(fits == move_fits(settled, end.moves@[k as int]));
            if !fits {
                let next = truth_run(end.moves@, records@, k + 1);
                assert(!next.ok);
                lemma_run_stays(end.moves@, records@, k + 1, end.moves@.len() as int);
            }
        }
        match parsed {
            Some(mv) => {
                if !fits {
                    return GameReplay {
                        decisions,
                        ok: false,
                        last: Replayed { pos, logs, fouls, plies: k as u32 },
                    };
                }
                proof {
                    lemma_legal_is_playable(pos@, mv);
                }
                let captured = pos.play_unchecked(&mv);
                add_move_obs(side, &mv, captured, &pos, &mut logs);
            },
            None => {
                return GameReplay {
                    decisions,
                    ok: false,
                    last: Replayed { pos, logs, fouls, plies: k as u32 },
                };
            },
        }
        k += 1;
    }
    GameReplay { decisions, ok: true, last: Replayed { pos, logs, fouls, plies: k as u32 } }
}

/// Sorting keeps the number of records.
pub proof fn lemma_by_number_len(fouls: Seq<FoulRecord>)
    ensures
        by_number(fouls).len() == fouls.len(),
    decreases fouls.len(),
{
    if fouls.len() > 0 {
        lemma_by_number_len(fouls.drop_last());
        lemma_placed_len(by_number(fouls.drop_last()), fouls.last());
    }
}

proof fn lemma_placed_len(sorted: Seq<FoulRecord>, f: FoulRecord)
    ensures
        placed(sorted, f).len() == sorted.len() + 1,
    decreases sorted.len(),
{
    if sorted.len() > 0 && sorted.last().move_number > f.move_number {
        lemma_placed_len(sorted.drop_last(), f);
    }
}

/// A replay that has stopped stays as it is.
proof fn lemma_run_stays(moves: Seq<MoveRecord>, records: Seq<FoulRecord>, k: int, n: int)
    requires
        0 <= k <= n,
        !truth_run(moves, records, k).ok,
    ensures
        truth_run(moves, records, n) == truth_run(moves, records, k),
    decreases n - k,
{
    if k < n {
        lemma_run_stays(moves, records, k, n - 1);
    }
}

} // verus!
