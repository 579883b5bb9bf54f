//! Game scores with the fouls that were tried, and their replay under the referee's judgement.

use crate::board::{drop_letter, drop_letter_of, is_on_board, on_board, Coord};
use crate::check_economy::ReplayedModel;
use crate::protocol::{unpromoted, Color, FoulRecord, MoveRecord, Role};
use crate::replay::{
    add_foul_obs, add_move_obs, foul_events, foul_is_next, foul_taken, lemma_legal_is_playable,
    move_events, raised, side_place, truth_run, turn_fouls, Replayed, SideEvents, SideLogs,
    TruthState,
};
use crate::shogi::{
    after_move, initial_model, legal, taken_by, text_of_move, unpromote_role, writable, Position,
    PositionModel, ShogiMove,
};
use vstd::prelude::*;

verus! {

/// A foul as a score holds it. The role is that of the piece after the move, so that it takes the
/// position to tell whether the piece promotes.
#[derive(Clone, Copy, Debug, PartialEq, Eq, Structural)]
pub enum RawFoul {
    Board { from: Coord, to: Coord, role: Role },
    Drop { role: Role, to: Coord },
}

/// A move of a score with the fouls tried before it.
#[derive(Debug)]
pub struct Ply {
    pub mv: ShogiMove,
    pub fouls: Vec<RawFoul>,
}

/// A score.
#[derive(Debug)]
pub struct Kifu {
    pub plies: Vec<Ply>,
    /// The fouls tried after the last move.
    pub trailing_fouls: Vec<RawFoul>,
    /// What the score says about its use, by name.
    pub directives: Vec<(String, String)>,
}

/// Whether a role is a promoted one.
pub open spec fn is_promoted(role: Role) -> bool {
    role != unpromoted(role)
}

/// The move that a foul of a score was, if it fits the position: the piece that moves must be one
/// of the side's, of the role named, and a promoted piece stays promoted.
pub open spec fn attempted(pos: PositionModel, side: Color, f: RawFoul) -> Option<ShogiMove> {
    match f {
        RawFoul::Drop { role, to } => if drop_letter_of(role) is Some && is_on_board(to) {
            Some(ShogiMove::Drop { role, to })
        } else {
            None
        },
        RawFoul::Board { from, to, role } => match pos.at(from) {
            Some(p) => if p.color == side && unpromoted(p.role) == unpromoted(role) && (is_promoted(
                p.role,
            ) ==> is_promoted(role)) && is_on_board(to) {
                Some(
                    ShogiMove::Board { from, to, promote: is_promoted(role) && !is_promoted(p.role) },
                )
            } else {
                None
            },
            None => None,
        },
    }
}

/// Finds the move that a foul of a score was.
pub fn resolve_foul(pos: &Position, side: Color, f: &RawFoul) -> (res: Option<ShogiMove>)
    ensures
        res == attempted(pos@, side, *f),
        res matches Some(mv) ==> writable(mv),
{
    match *f {
        RawFoul::Drop { role, to } => {
            if drop_letter(role).is_some() && on_board(to) {
                Some(ShogiMove::Drop { role, to })
            } else {
                None
            }
        },
        RawFoul::Board { from, to, role } => match pos.piece_at(from) {
            Some(p) => {
                let base = unpromote_role(role);
                let piece_promoted = p.role != unpromote_role(p.role);
                let named_promoted = role != base;
                if p.color == side && unpromote_role(p.role) == base && (!piece_promoted
                    || named_promoted) && on_board(to) {
                    Some(ShogiMove::Board { from, to, promote: named_promoted && !piece_promoted })
                } else {
                    None
                }
            },
            None => None,
        },
    }
}

/// The state at the start of a game.
pub open spec fn game_start() -> ReplayedModel {
    ReplayedModel {
        pos: initial_model(),
        logs: SideEvents::empty(),
        fouls: seq![0u32, 0u32],
        plies: 0,
    }
}

/// The state after a foul.
pub open spec fn fouled(s: ReplayedModel, mv: ShogiMove) -> ReplayedModel {
    let fouls = raised(s.fouls, s.pos.turn);
    ReplayedModel {
        logs: foul_events(
            s.logs,
            s.pos.turn,
            text_of_move(mv),
            s.pos.move_number,
            fouls[side_place(s.pos.turn)],
        ),
        fouls,
        ..s
    }
}

/// The state after an accepted move.
pub open spec fn moved(s: ReplayedModel, mv: ShogiMove) -> ReplayedModel {
    let next = after_move(s.pos, mv);
    ReplayedModel {
        pos: next,
        logs: move_events(s.logs, s.pos.turn, mv, taken_by(s.pos, mv), next),
        fouls: s.fouls,
        plies: (s.plies + 1) as u32,
    }
}

/// The state after the first `n` fouls of a turn, where each was one.
pub open spec fn after_raw_fouls(s: ReplayedModel, fouls: Seq<RawFoul>, n: int) -> Option<
    ReplayedModel,
>
    decreases n,
{
    if n <= 0 {
        Some(s)
    } else {
        match after_raw_fouls(s, fouls, n - 1) {
            Some(t) => match attempted(t.pos, t.pos.turn, fouls[n - 1]) {
                Some(mv) => if legal(t.pos, mv) {
                    None
                } else {
                    Some(fouled(t, mv))
                },
                None => None,
            },
            None => None,
        }
    }
}

/// The state after the first `k` moves of a score, where it holds together: every foul was one and
/// every move was legal.
pub open spec fn score_run(plies: Seq<Ply>, k: int) -> Option<ReplayedModel>
    decreases k,
{
    if k <= 0 {
        Some(game_start())
    } else {
        match score_run(plies, k - 1) {
            Some(s) => match after_raw_fouls(
                s,
                plies[k - 1].fouls@,
                plies[k - 1].fouls@.len() as int,
            ) {
                Some(t) => if legal(t.pos, plies[k - 1].mv) {
                    Some(moved(t, plies[k - 1].mv))
                } else {
                    None
                },
                None => None,
            },
            None => None,
        }
    }
}

/// A broken score stays broken.
proof fn lemma_stays_broken(plies: Seq<Ply>, k: int, n: int)
    requires
        0 <= k <= n,
        score_run(plies, k) is None,
    ensures
        score_run(plies, n) is None,
    decreases n - k,
{
    if k < n {
        lemma_stays_broken(plies, k, n - 1);
    }
}

proof fn lemma_fouls_stay_broken(s: ReplayedModel, fouls: Seq<RawFoul>, k: int, n: int)
    requires
        0 <= k <= n,
        after_raw_fouls(s, fouls, k) is None,
    ensures
        after_raw_fouls(s, fouls, n) is None,
    decreases n - k,
{
    if k < n {
        lemma_fouls_stay_broken(s, fouls, k, n - 1);
    }
}

/// Replays the fouls of a turn. `false` if one does not fit or was no foul.
fn try_raw_fouls(rep: &mut Replayed, fouls: &Vec<RawFoul>) -> (res: bool)
    ensures
        res == (after_raw_fouls(old(rep)@, fouls@, fouls@.len() as int) is Some),
        res ==> Some(final(rep)@) == after_raw_fouls(old(rep)@, fouls@, fouls@.len() as int),
{
    let ghost start = rep@;
    let mut i: usize = 0;
    while i < fouls.len()
        invariant
            i <= fouls@.len(),
            Some(rep@) == after_raw_fouls(start, fouls@, i as int),
            start == old(rep)@,
        decreases fouls@.len() - i,
    {
        let side = rep.pos.turn();
        let mv = match resolve_foul(&rep.pos, side, &fouls[i]) {
            Some(mv) => mv,
            None => {
                proof {
                    assert(after_raw_fouls(start, fouls@, i + 1) is None);
                    lemma_fouls_stay_broken(start, fouls@, i + 1, fouls@.len() as int);
                }
                return false;
            },
        };
        if rep.pos.is_legal(&mv) {
            proof {
                assert(after_raw_fouls(start, fouls@, i + 1) is None);
                lemma_fouls_stay_broken(start, fouls@, i + 1, fouls@.len() as int);
            }
            return false;
        }
        let ghost t = rep@;
        add_foul_obs(side, mv.to_usi(), &rep.pos, &mut rep.logs, &mut rep.fouls);
        assert(rep@ =~= fouled(t, mv));
        i += 1;
    }
    true
}

/// Plays a legal move and tells both sides of it.
pub fn play_ply(rep: &mut Replayed, mv: &ShogiMove)
    requires
        legal(old(rep)@.pos, *mv),
        old(rep).plies < u32::MAX,
    ensures
        final(rep)@ == moved(old(rep)@, *mv),
{
    let ghost t = rep@;
    proof {
        lemma_legal_is_playable(t.pos, *mv);
    }
    let side = rep.pos.turn();
    let captured = rep.pos.play_unchecked(mv);
    add_move_obs(side, mv, captured, &rep.pos, &mut rep.logs);
    rep.plies = rep.plies + 1;
    assert(rep@ =~= moved(t, *mv));
}

/// A replayed state that one may go on with.
pub fn fresh_game() -> (res: Replayed)
    ensures
        res@ == game_start(),
{
    let res = Replayed {
        pos: Position::initial(),
        logs: SideLogs::new(),
        fouls: [0, 0],
        plies: 0,
    };
    assert(res.fouls@ =~= seq![0u32, 0u32]);
    assert(res@ =~= game_start());
    res
}

/// Replays the first `upto` moves of a score with the fouls before each. Nothing comes back where
/// the score does not hold together: a foul that was none, or a move that was not legal.
pub fn replay(kifu: &Kifu, upto: usize) -> (res: Option<Replayed>)
    requires
        upto <= kifu.plies@.len(),
        upto <= u32::MAX,
    ensures
        res is Some <==> score_run(kifu.plies@, upto as int) is Some,
        res matches Some(rep) ==> Some(rep@) == score_run(kifu.plies@, upto as int),
{
    let mut rep = fresh_game();
    let mut k: usize = 0;
    while k < upto
        invariant
            k <= upto <= kifu.plies@.len(),
            upto <= u32::MAX,
            rep.plies == k,
            Some(rep@) == score_run(kifu.plies@, k as int),
        decreases upto - k,
    {
        let ghost s = rep@;
        let ply = &kifu.plies[k];
        if !try_raw_fouls(&mut rep, &ply.fouls) {
            proof {
                assert(score_run(kifu.plies@, k + 1) is None);
                lemma_stays_broken(kifu.plies@, k + 1, upto as int);
            }
            return None;
        }
        proof {
            lemma_fouls_keep(s, ply.fouls@, ply.fouls@.len() as int);
        }
        if !rep.pos.is_legal(&ply.mv) {
            proof {
                assert(score_run(kifu.plies@, k + 1) is None);
                lemma_stays_broken(kifu.plies@, k + 1, upto as int);
            }
            return None;
        }
        play_ply(&mut rep, &ply.mv);
        k += 1;
    }
    Some(rep)
}

/// Fouls move no piece and take no turn.
proof fn lemma_fouls_keep(s: ReplayedModel, fouls: Seq<RawFoul>, n: int)
    requires
        after_raw_fouls(s, fouls, n) is Some,
    ensures
        (after_raw_fouls(s, fouls, n)->0).pos == s.pos,
        (after_raw_fouls(s, fouls, n)->0).plies == s.plies,
    decreases n,
{
    if n > 0 {
        lemma_fouls_keep(s, fouls, n - 1);
    }
}

/// Whether a foul of a score is the one that a record holds.
pub open spec fn same_foul(pos: PositionModel, f: RawFoul, record: FoulRecord) -> bool {
    match attempted(pos, pos.turn, f) {
        Some(mv) => !legal(pos, mv) && text_of_move(mv) == record.usi@,
        None => false,
    }
}

/// Whether the `k`-th move of a score and its fouls are those that the records of the game hold.
pub open spec fn same_ply(
    ply: Ply,
    moves: Seq<MoveRecord>,
    records: Seq<FoulRecord>,
    k: int,
) -> bool {
    let s = truth_run(moves, records, k).state;
    let n = turn_fouls(s, records).used - s.used;
    &&& crate::shogi::move_of_text(moves[k].usi@) == Some(ply.mv)
    &&& ply.fouls@.len() == n
    &&& forall|j: int|
        0 <= j < n ==> same_foul(s.pos, #[trigger] ply.fouls@[j], records[s.used + j])
}

/// The state that a replay by the records has in common with one by the score.
pub open spec fn as_replayed(s: TruthState, plies: u32) -> ReplayedModel {
    ReplayedModel { pos: s.pos, logs: s.logs, fouls: s.fouls, plies }
}

/// Replaying a game from its score gives the very state that the records of the game give, at every
/// move: position, both logs and fouls.
pub proof fn law_score_replays_the_records(
    plies: Seq<Ply>,
    moves: Seq<MoveRecord>,
    records: Seq<FoulRecord>,
    k: int,
)
    requires
        0 <= k <= moves.len() <= u32::MAX,
        k <= plies.len(),
        truth_run(moves, records, k).ok,
        forall|i: int| 0 <= i < k ==> same_ply(#[trigger] plies[i], moves, records, i),
    ensures
        score_run(plies, k) == Some(as_replayed(truth_run(moves, records, k).state, k as u32)),
    decreases k,
{
    if k > 0 {
        let before = truth_run(moves, records, k - 1);
        assert(before.ok);
        law_score_replays_the_records(plies, moves, records, k - 1);
        let s = before.state;
        assert(same_ply(plies[k - 1], moves, records, k - 1));
        lemma_used(moves, records, k - 1);
        lemma_same_fouls(
            s,
            records,
            plies[k - 1].fouls@,
            (k - 1) as u32,
            plies[k - 1].fouls@.len() as int,
        );
        lemma_taken_all(s, records, plies[k - 1].fouls@.len() as int);
        let t = turn_fouls(s, records);
        assert(score_run(plies, k) == Some(as_replayed(truth_run(moves, records, k).state, k as u32)));
    } else {
        assert(game_start() =~= as_replayed(truth_run(moves, records, 0).state, 0));
    }
}

/// The state after `n` records of the turn at hand.
spec fn taken_first(s: TruthState, records: Seq<FoulRecord>, n: int) -> TruthState
    decreases n,
{
    if n <= 0 {
        s
    } else {
        let t = taken_first(s, records, n - 1);
        foul_taken(t, records[t.used])
    }
}

proof fn lemma_used(moves: Seq<MoveRecord>, records: Seq<FoulRecord>, k: int)
    requires
        0 <= k,
    ensures
        0 <= truth_run(moves, records, k).state.used <= records.len(),
    decreases k,
{
    if k > 0 {
        lemma_used(moves, records, k - 1);
        lemma_turn_used(truth_run(moves, records, k - 1).state, records);
    }
}

proof fn lemma_turn_used(s: TruthState, records: Seq<FoulRecord>)
    requires
        0 <= s.used <= records.len(),
    ensures
        s.used <= turn_fouls(s, records).used <= records.len(),
        turn_fouls(s, records).pos == s.pos,
    decreases records.len() - s.used,
{
    if foul_is_next(s, records) {
        lemma_turn_used(foul_taken(s, records[s.used]), records);
    }
}

/// Taking the records of a turn one by one ends where the turn ends.
proof fn lemma_taken_all(s: TruthState, records: Seq<FoulRecord>, n: int)
    requires
        0 <= s.used <= records.len(),
        n == turn_fouls(s, records).used - s.used,
    ensures
        taken_first(s, records, n) == turn_fouls(s, records),
    decreases records.len() - s.used,
{
    lemma_turn_used(s, records);
    if foul_is_next(s, records) {
        let t = foul_taken(s, records[s.used]);
        lemma_turn_used(t, records);
        lemma_taken_all(t, records, n - 1);
        lemma_taken_shift(s, records, n);
    }
}

proof fn lemma_taken_shift(s: TruthState, records: Seq<FoulRecord>, n: int)
    requires
        n >= 1,
    ensures
        taken_first(s, records, n) == taken_first(foul_taken(s, records[s.used]), records, n - 1),
    decreases n,
{
    if n > 1 {
        lemma_taken_shift(s, records, n - 1);
    } else {
        assert(taken_first(s, records, 0) == s);
        assert(taken_first(foul_taken(s, records[s.used]), records, 0) == foul_taken(
            s,
            records[s.used],
        ));
    }
}

/// The fouls of a score and the records of the same fouls lead to the same state.
proof fn lemma_same_fouls(
    s: TruthState,
    records: Seq<FoulRecord>,
    fouls: Seq<RawFoul>,
    plies: u32,
    n: int,
)
    requires
        0 <= n <= fouls.len(),
        forall|j: int|
            0 <= j < n ==> same_foul(s.pos, #[trigger] fouls[j], records[s.used + j]),
    ensures
        after_raw_fouls(as_replayed(s, plies), fouls, n) == Some(
            as_replayed(taken_first(s, records, n), plies),
        ),
        taken_first(s, records, n).pos == s.pos,
        taken_first(s, records, n).used == s.used + n,
    decreases n,
{
    if n > 0 {
        lemma_same_fouls(s, records, fouls, plies, n - 1);
        assert(same_foul(s.pos, fouls[n - 1], records[s.used + n - 1]));
    }
}

} // verus!
