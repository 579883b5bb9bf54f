//! Playing a game on from a replayed state under the referee's rules, with the strategies asked for
//! their moves from outside.

use crate::candidates::{insert_text, lemma_no_texts, text_set};
use crate::check_economy::ReplayedModel;
use crate::client::text_of;
use crate::config::texts_of;
use crate::kifu::{moved, play_ply};
use crate::observation::{Event, Observation, ObservationLog};
use crate::protocol::{other_color, Color, MAX_FOULS};
use crate::replay::{
    add_foul_obs, foul_events, raised, side_idx, side_place, Replayed,
};
use crate::scenario::{accepted, counted, Tally};
use crate::seeds::{mix, mixed, stable_hash, text_hash};
use crate::shogi::{move_of_text, outcome_of, parse_usi, Outcome};
use crate::text::{append_decimal, decimal};
use vstd::prelude::*;
use vstd::string::*;

verus! {

/// Why a game is over.
#[derive(Clone, Copy, Debug, PartialEq, Eq, Hash, Structural)]
pub enum EndReason {
    Limit,
    Resign,
    FoulLimit,
    Checkmate,
    Stalemate,
}

impl EndReason {
    /// The name used in records.
    pub fn label(self) -> (res: &'static str)
        ensures
            res@ == match self {
                EndReason::Limit => "limit"@,
                EndReason::Resign => "resign"@,
                EndReason::FoulLimit => "foul_limit"@,
                EndReason::Checkmate => "checkmate"@,
                EndReason::Stalemate => "stalemate"@,
            },
    {
        match self {
            EndReason::Limit => "limit",
            EndReason::Resign => "resign",
            EndReason::FoulLimit => "foul_limit",
            EndReason::Checkmate => "checkmate",
            EndReason::Stalemate => "stalemate",
        }
    }
}

/// How a game ended; without a winner it is drawn.
#[derive(Clone, Copy, Debug, PartialEq, Eq, Structural)]
pub struct Ending {
    pub winner: Option<Color>,
    pub reason: EndReason,
}

/// The state after a refused text.
pub open spec fn refused(s: ReplayedModel, usi: Seq<char>) -> ReplayedModel {
    let fouls = raised(s.fouls, s.pos.turn);
    ReplayedModel {
        logs: foul_events(
            s.logs,
            s.pos.turn,
            usi,
            s.pos.move_number,
            fouls[side_place(s.pos.turn)],
        ),
        fouls,
        ..s
    }
}

fn refuse(rep: &mut Replayed, usi: &String) -> (res: u32)
    ensures
        final(rep)@ == refused(old(rep)@, usi@),
        res == refused(old(rep)@, usi@).fouls[side_place(old(rep)@.pos.turn)],
{
    let side = rep.pos.turn();
    let ghost start = rep@;
    add_foul_obs(side, usi.clone(), &rep.pos, &mut rep.logs, &mut rep.fouls);
    assert(rep@ =~= refused(start, usi@));
    rep.fouls[side_idx(side)]
}

/// A game that is played on.
#[derive(Debug)]
pub struct Continuation {
    pub rep: Replayed,
    pub tried_sente: Vec<String>,
    pub tried_gote: Vec<String>,
    /// The side whose choices are looked at.
    pub me: Color,
    /// The first move that side made.
    pub first_move: Option<String>,
    /// The number of moves at which the game is broken off.
    pub limit: u32,
}

/// The mathematical content of a `Continuation`.
pub struct GameState {
    pub rep: ReplayedModel,
    pub tried_sente: Set<Seq<char>>,
    pub tried_gote: Set<Seq<char>>,
    pub me: Color,
    pub first_move: Option<Seq<char>>,
    pub limit: u32,
}

impl View for Continuation {
    type V = GameState;

    open spec fn view(&self) -> GameState {
        GameState {
            rep: self.rep@,
            tried_sente: text_set(self.tried_sente@),
            tried_gote: text_set(self.tried_gote@),
            me: self.me,
            first_move: text_of(self.first_move),
            limit: self.limit,
        }
    }
}

impl GameState {
    /// The attempts of a side that were fouls in its turn.
    pub open spec fn tried(self, side: Color) -> Set<Seq<char>> {
        match side {
            Color::Sente => self.tried_sente,
            Color::Gote => self.tried_gote,
        }
    }

    pub open spec fn with_tried(self, side: Color, tried: Set<Seq<char>>) -> GameState {
        match side {
            Color::Sente => GameState { tried_sente: tried, ..self },
            Color::Gote => GameState { tried_gote: tried, ..self },
        }
    }
}

/// The state of a game after the choice of the side to move: a foul leaves the turn where it is.
pub open spec fn after_choice(g: GameState, choice: Option<Seq<char>>) -> GameState {
    let side = g.rep.pos.turn;
    match choice {
        None => g,
        Some(usi) => if accepted(g.rep.pos, usi) {
            GameState {
                rep: moved(g.rep, move_of_text(usi)->0),
                first_move: if side == g.me && g.first_move is None {
                    Some(usi)
                } else {
                    g.first_move
                },
                ..g.with_tried(side, Set::empty())
            }
        } else {
            GameState {
                rep: refused(g.rep, usi),
                ..g.with_tried(side, g.tried(side).insert(usi))
            }
        },
    }
}

/// How a game ends with a choice, if it does.
pub open spec fn end_of_choice(g: GameState, choice: Option<Seq<char>>) -> Option<Ending> {
    let side = g.rep.pos.turn;
    let next = after_choice(g, choice);
    match choice {
        None => Some(
            Ending { winner: Some(other_color(side)), reason: EndReason::Resign },
        ),
        Some(usi) => if accepted(g.rep.pos, usi) {
            match outcome_of(next.rep.pos) {
                Some(Outcome::Checkmate { winner }) => Some(
                    Ending { winner: Some(winner), reason: EndReason::Checkmate },
                ),
                Some(Outcome::Stalemate { winner }) => Some(
                    Ending { winner: Some(winner), reason: EndReason::Stalemate },
                ),
                None => None,
            }
        } else if next.rep.fouls[side_place(side)] >= MAX_FOULS {
            Some(Ending { winner: Some(other_color(side)), reason: EndReason::FoulLimit })
        } else {
            None
        },
    }
}

impl Continuation {
    /// A game on from a replayed state.
    pub fn start(rep: Replayed, limit: u32) -> (res: Continuation)
        ensures
            res@ == (GameState {
                rep: rep@,
                tried_sente: Set::empty(),
                tried_gote: Set::empty(),
                me: rep@.pos.turn,
                first_move: None,
                limit,
            }),
    {
        let me = rep.pos.turn();
        let res = Continuation {
            rep,
            tried_sente: Vec::new(),
            tried_gote: Vec::new(),
            me,
            first_move: None,
            limit,
        };
        proof {
            lemma_no_texts(res.tried_sente@);
            lemma_no_texts(res.tried_gote@);
        }
        res
    }

    /// Whether the game is broken off before the next choice.
    pub fn overdue(&self) -> (res: Option<Ending>)
        ensures
            res == broken_off(self@),
    {
        if self.rep.plies >= self.limit {
            Some(Ending { winner: None, reason: EndReason::Limit })
        } else {
            None
        }
    }

    fn clear_tried(&mut self, side: Color)
        ensures
            final(self)@ == old(self)@.with_tried(side, Set::empty()),
    {
        match side {
            Color::Sente => self.tried_sente = Vec::new(),
            Color::Gote => self.tried_gote = Vec::new(),
        }
        proof {
            match side {
                Color::Sente => lemma_no_texts(self.tried_sente@),
                Color::Gote => lemma_no_texts(self.tried_gote@),
            }
        }
    }

    /// Takes in the choice of the side to move.
    pub fn take_choice(&mut self, choice: &Option<String>) -> (res: Option<Ending>)
        requires
            old(self)@.rep.plies < old(self)@.limit,
        ensures
            final(self)@ == after_choice(old(self)@, text_of(*choice)),
            res == end_of_choice(old(self)@, text_of(*choice)),
    {
        let side = self.rep.pos.turn();
        let usi = match choice {
            Some(usi) => usi,
            None => {
                return Some(Ending { winner: Some(side.other()), reason: EndReason::Resign });
            },
        };
        let mv = parse_usi(usi.as_str());
        let fits = match mv {
            Some(m) => self.rep.pos.is_legal(&m),
            None => false,
        };
        if let Some(m) = mv {
            if fits {
                play_ply(&mut self.rep, &m);
                self.clear_tried(side);
                if side == self.me && self.first_move.is_none() {
                    self.first_move = Some(usi.clone());
                }
                return match self.rep.pos.outcome() {
                    Some(Outcome::Checkmate { winner }) => Some(
                        Ending { winner: Some(winner), reason: EndReason::Checkmate },
                    ),
                    Some(Outcome::Stalemate { winner }) => Some(
                        Ending { winner: Some(winner), reason: EndReason::Stalemate },
                    ),
                    None => None,
                };
            }
        }
        let count: u32 = refuse(&mut self.rep, usi);
        match side {
            Color::Sente => insert_text(&mut self.tried_sente, usi.clone()),
            Color::Gote => insert_text(&mut self.tried_gote, usi.clone()),
        }
        if count >= MAX_FOULS {
            Some(Ending { winner: Some(side.other()), reason: EndReason::FoulLimit })
        } else {
            None
        }
    }
}

/// How a game ends before the next choice, if it does: it is broken off at its limit, and nobody wins.
pub open spec fn broken_off(g: GameState) -> Option<Ending> {
    if g.rep.plies >= g.limit {
        Some(Ending { winner: None, reason: EndReason::Limit })
    } else {
        None
    }
}

/// What a game can still hold: moves before it is broken off, and fouls before it is lost.
pub open spec fn room(g: GameState) -> int {
    (g.limit - g.rep.plies) + (MAX_FOULS - g.rep.fouls[0]) + (MAX_FOULS - g.rep.fouls[1])
}

/// Every choice that does not end a game uses up one of the moves or fouls that are left, so that
/// every game ends; and no side has used up its fouls while the game goes on.
pub proof fn law_game_comes_to_an_end(g: GameState, choice: Option<Seq<char>>)
    requires
        g.rep.fouls.len() == 2,
        g.rep.fouls[0] < MAX_FOULS,
        g.rep.fouls[1] < MAX_FOULS,
        g.rep.plies < g.limit,
        end_of_choice(g, choice) is None,
    ensures
        ({
            let next = after_choice(g, choice);
            &&& room(next) == room(g) - 1
            &&& room(next) > 0
            &&& next.rep.fouls.len() == 2
            &&& next.rep.fouls[0] < MAX_FOULS
            &&& next.rep.fouls[1] < MAX_FOULS
            &&& next.limit == g.limit
        }),
{
}

/// A foul costs no turn: the position stays, and the same side is to move with the attempt set
/// aside. An accepted move sets nothing aside for the next turn.
pub proof fn law_foul_keeps_the_turn(g: GameState, usi: Seq<char>)
    ensures
        ({
            let next = after_choice(g, Some(usi));
            let side = g.rep.pos.turn;
            if accepted(g.rep.pos, usi) {
                next.tried(side) == Set::<Seq<char>>::empty() && next.rep.plies == (g.rep.plies
                    + 1) as u32
            } else {
                next.rep.pos == g.rep.pos && next.tried(side) == g.tried(side).insert(usi)
                    && next.rep.plies == g.rep.plies
            }
        }),
{
}

/// What came of forcing a move.
#[derive(Debug)]
pub struct Forced {
    pub rep: Replayed,
    /// The move that was played.
    pub played: Option<String>,
    /// How many of the texts before it were fouls.
    pub forced_fouls: u32,
    /// Whether the fouls were used up first.
    pub foul_limit: bool,
}

/// The mathematical content of a `Forced`.
pub struct ForcedModel {
    pub rep: ReplayedModel,
    pub played: Option<Seq<char>>,
    pub forced_fouls: nat,
    pub foul_limit: bool,
}

impl View for Forced {
    type V = ForcedModel;

    open spec fn view(&self) -> ForcedModel {
        ForcedModel {
            rep: self.rep@,
            played: text_of(self.played),
            forced_fouls: self.forced_fouls as nat,
            foul_limit: self.foul_limit,
        }
    }
}

/// The first acceptable text of a list is played; each before it is a foul, until they are used up.
pub open spec fn forced_from(s: ReplayedModel, order: Seq<Seq<char>>, i: int) -> ForcedModel
    decreases order.len() - i,
{
    if i < 0 || i >= order.len() {
        ForcedModel { rep: s, played: None, forced_fouls: i as nat, foul_limit: false }
    } else if accepted(s.pos, order[i]) {
        ForcedModel {
            rep: moved(s, move_of_text(order[i])->0),
            played: Some(order[i]),
            forced_fouls: i as nat,
            foul_limit: false,
        }
    } else {
        let t = refused(s, order[i]);
        if t.fouls[side_place(s.pos.turn)] >= MAX_FOULS {
            ForcedModel { rep: t, played: None, forced_fouls: (i + 1) as nat, foul_limit: true }
        } else {
            forced_from(t, order, i + 1)
        }
    }
}

/// Has the side to move play the first acceptable text of a list, as in a real game: a text that is
/// refused costs a foul, and the next one is tried.
pub fn force_move(start: Replayed, order: &Vec<String>) -> (res: Forced)
    requires
        start.plies < u32::MAX,
        order@.len() < u32::MAX,
    ensures
        res@ == forced_from(start@, texts_of(order@), 0),
{
    let ghost all = texts_of(order@);
    let ghost goal = forced_from(start@, all, 0);
    let mut rep = start;
    let mut i: usize = 0;
    while i < order.len()
        invariant
            i <= order@.len() < u32::MAX,
            rep.plies < u32::MAX,
            all == texts_of(order@),
            goal == forced_from(start@, all, 0),
            goal == forced_from(rep@, all, i as int),
        decreases order@.len() - i,
    {
        assert(all[i as int] == order@[i as int]@);
        let mv = parse_usi(order[i].as_str());
        if let Some(m) = mv {
            if rep.pos.is_legal(&m) {
                play_ply(&mut rep, &m);
                return Forced {
                    rep,
                    played: Some(order[i].clone()),
                    forced_fouls: i as u32,
                    foul_limit: false,
                };
            }
        }
        let count: u32 = refuse(&mut rep, &order[i]);
        if count >= MAX_FOULS {
            return Forced { rep, played: None, forced_fouls: i as u32 + 1, foul_limit: true };
        }
        i += 1;
    }
    Forced { rep, played: None, forced_fouls: i as u32, foul_limit: false }
}

/// The attempts at the end of a log that were fouls, at most `n` different ones.
pub open spec fn tried_at_end(events: Seq<Event>, n: int, found: Set<Seq<char>>, size: int) -> Set<
    Seq<char>,
>
    decreases events.len(),
{
    if events.len() == 0 {
        found
    } else {
        match events.last() {
            Event::MyFoul { move_number, usi } => if size < n {
                tried_at_end(
                    events.drop_last(),
                    n,
                    found.insert(usi),
                    if found.contains(usi) {
                        size
                    } else {
                        size + 1
                    },
                )
            } else {
                found
            },
            _ => found,
        }
    }
}

/// The attempts of the turn at hand that were fouls, `n` of them, from the own log.
pub fn tried_this_turn(log: &ObservationLog, n: u32) -> (res: Vec<String>)
    ensures
        text_set(res@) == tried_at_end(log@, n as int, Set::empty(), 0),
{
    let events = log.events();
    let mut out: Vec<String> = Vec::new();
    let mut i: usize = events.len();
    proof {
        lemma_no_texts(out@);
        assert(log@.take(i as int) =~= log@);
    }
    let ghost goal = tried_at_end(log@, n as int, Set::empty(), 0);
    while i > 0
        invariant
            i <= events@.len(),
            log@ == crate::observation::events_of(events@),
            goal == tried_at_end(log@, n as int, Set::empty(), 0),
            goal == tried_at_end(log@.take(i as int), n as int, text_set(out@), out@.len() as int),
        decreases i,
    {
        proof {
            assert(log@.take(i as int).last() == events@[i - 1]@);
            assert(log@.take(i as int).drop_last() =~= log@.take(i - 1));
        }
        match &events[i - 1] {
            Observation::MyFoul { move_number: _, usi } => {
                if out.len() as u64 >= n as u64 {
                    return out;
                }
                insert_text(&mut out, usi.clone());
            },
            _ => return out,
        }
        i -= 1;
    }
    out
}

/// Where the move that is forced comes from.
#[derive(Clone, Copy, Debug, PartialEq, Eq, Structural)]
pub enum Arm {
    /// The move of the real game.
    Baseline,
    /// A move that is really safe.
    Oracle,
    /// The offline policy on consistent samples.
    PolicyStrict,
    /// The offline policy on all samples.
    PolicyAll,
    /// The same path without the penalty.
    PolicyW0,
}

impl Arm {
    pub open spec fn spec_tag(self) -> Seq<char> {
        match self {
            Arm::Baseline => "baseline"@,
            Arm::Oracle => "oracle"@,
            Arm::PolicyStrict => "policy_strict"@,
            Arm::PolicyAll => "policy_all"@,
            Arm::PolicyW0 => "policy_w0"@,
        }
    }

    /// The name used in data files.
    pub fn tag(&self) -> (res: &'static str)
        ensures
            res@ == self.spec_tag(),
    {
        match self {
            Arm::Baseline => "baseline",
            Arm::Oracle => "oracle",
            Arm::PolicyStrict => "policy_strict",
            Arm::PolicyAll => "policy_all",
            Arm::PolicyW0 => "policy_w0",
        }
    }
}

/// The text that the seeds of a forced continuation come from.
pub open spec fn continuation_key(game: Seq<char>, ply: int, first: Seq<char>) -> Seq<char> {
    game + seq!['#'] + decimal(ply as nat) + seq!['#'] + first
}

/// The seeds of both sides of a forced continuation: the own one first.
pub fn forced_seeds(game: &str, ply: usize, first: &str, seed: u64) -> (res: (u64, u64))
    ensures
        ({
            let base = text_hash(seed, continuation_key(game@, ply as int, first@));
            res.0 == mixed(base ^ 0x0C0F_FEE0u64) && res.1 == mixed(base ^ 0x0BEE_F000u64)
        }),
{
    let mut key = game.to_owned();
    proof {
        reveal_strlit("#");
    }
    key.append("#");
    append_decimal(&mut key, ply as u64);
    key.append("#");
    key.append(first);
    assert(key@ =~= continuation_key(game@, ply as int, first@));
    let base: u64 = stable_hash(seed, key.as_str());
    (mix(base ^ 0x0C0F_FEE0u64), mix(base ^ 0x0BEE_F000u64))
}

/// The halves of a point that a game gives a side.
pub open spec fn halves_for(winner: Option<Color>, side: Color) -> u32 {
    match winner {
        Some(w) => if w == side {
            2
        } else {
            0
        },
        None => 1,
    }
}

/// The score of a game for a side, in halves: two for a win, one for a draw.
pub fn half_points(winner: Option<Color>, side: Color) -> (res: u32)
    ensures
        res == halves_for(winner, side),
{
    match winner {
        Some(w) => {
            if w == side {
                2
            } else {
                0
            }
        },
        None => 1,
    }
}

/// The seeds of the two sides of a game that is played on.
pub fn side_seeds(seed: u64) -> (res: (u64, u64))
    ensures
        res == (seed ^ 0x5E17Eu64, seed ^ 0x607Eu64),
{
    (seed ^ 0x5E17Eu64, seed ^ 0x607Eu64)
}

/// What became of several games that were played on from one position.
#[derive(Debug)]
pub struct GameStats {
    /// The moves that each won game took.
    pub win_plies: Vec<u64>,
    pub reasons: Tally,
    /// The first moves of the side to move; a dash for none.
    pub first_moves: Tally,
}

/// The first move of a game as it is counted.
pub open spec fn first_text(first: Option<Seq<char>>) -> Seq<char> {
    match first {
        Some(t) => t,
        None => "-"@,
    }
}

/// The name of a reason.
pub open spec fn reason_text(reason: EndReason) -> Seq<char> {
    match reason {
        EndReason::Limit => "limit"@,
        EndReason::Resign => "resign"@,
        EndReason::FoulLimit => "foul_limit"@,
        EndReason::Checkmate => "checkmate"@,
        EndReason::Stalemate => "stalemate"@,
    }
}

impl GameStats {
    /// No games yet.
    pub fn new() -> (res: GameStats)
        ensures
            res.win_plies@ == Seq::<u64>::empty(),
            res.reasons@ == Seq::<(Seq<char>, u32)>::empty(),
            res.first_moves@ == Seq::<(Seq<char>, u32)>::empty(),
    {
        GameStats { win_plies: Vec::new(), reasons: Tally::new(), first_moves: Tally::new() }
    }

    /// Counts a game; `added` is how many moves it went on.
    pub fn count(&mut self, me: Color, ending: Ending, first: &Option<String>, added: u64)
        ensures
            final(self).win_plies@ == (if ending.winner == Some(me) {
                old(self).win_plies@.push(added)
            } else {
                old(self).win_plies@
            }),
            final(self).reasons@ == counted(old(self).reasons@, reason_text(ending.reason)),
            final(self).first_moves@ == counted(
                old(self).first_moves@,
                first_text(text_of(*first)),
            ),
    {
        if let Some(winner) = ending.winner {
            if winner == me {
                self.win_plies.push(added);
            }
        }
        self.reasons.count(ending.reason.label().to_owned());
        let key = match first {
            Some(t) => t.clone(),
            None => "-".to_owned(),
        };
        self.first_moves.count(key);
    }

    /// How many games were won.
    pub fn wins(&self) -> (res: usize)
        ensures
            res == self.win_plies@.len(),
    {
        self.win_plies.len()
    }
}

} // verus!
