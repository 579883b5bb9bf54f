//! Taking back: the decisions at which the opponent has just taken a piece, where its own piece
//! stands for certain, and what came of them.

use crate::board::Coord;
use crate::protocol::{other_color, Color, GameEndPayload, MoveRecord, Role};
use crate::replay::{
    decision_list, game_run, lemma_legal_is_playable, replay_game, Decision, DecisionModel,
};
use crate::shogi::{
    after_move, attacked_by, law_legal_moves, legal_list, move_of_text, parse_usi, Position,
    PositionModel, ShogiMove,
};
use crate::text::same_text;
use vstd::prelude::*;

verus! {

/// Whether a text is a move of a piece on the board onto a square. A drop takes nothing back.
pub open spec fn goes_to(usi: Seq<char>, target: Coord) -> bool {
    move_of_text(usi) matches Some(ShogiMove::Board { from, to, promote }) && to == target
}

/// Whether a text is a move of a piece on the board onto a square.
pub fn moves_to(usi: &str, target: Coord) -> (res: bool)
    ensures
        res == goes_to(usi@, target),
{
    match parse_usi(usi) {
        Some(ShogiMove::Board { from: _, to, promote: _ }) => to == target,
        _ => false,
    }
}

/// Where the move that answered a decision took a piece.
pub open spec fn taken_at(moves: Seq<MoveRecord>, d: DecisionModel) -> Option<Coord> {
    if d.plies < moves.len() {
        match move_of_text(moves[d.plies as int].usi@) {
            Some(ShogiMove::Board { from, to, promote }) => if d.pos.at(to) is Some {
                Some(to)
            } else {
                None
            },
            _ => None,
        }
    } else {
        None
    }
}

/// The square on which the bot may take back at a decision: the opponent's last move took there.
pub open spec fn chance_at(
    ds: Seq<DecisionModel>,
    moves: Seq<MoveRecord>,
    bot: Color,
    i: int,
) -> Option<(int, Coord)> {
    if i > 0 && ds[i].side == bot && ds[i - 1].side != bot {
        match taken_at(moves, ds[i - 1]) {
            Some(to) => Some((i, to)),
            None => None,
        }
    } else {
        None
    }
}

/// All decisions at which the bot may take back.
pub open spec fn chances(ds: Seq<DecisionModel>, moves: Seq<MoveRecord>, bot: Color) -> Seq<
    (int, Coord),
> {
    Seq::new(ds.len(), |i: int| i).filter_map(|i: int| chance_at(ds, moves, bot, i))
}

/// A decision at which the bot may take back.
#[derive(Clone, Copy, Debug, PartialEq, Eq)]
pub struct Chance {
    /// The decision, counted from the first.
    pub decision: usize,
    pub target: Coord,
}

/// The content of a list of chances.
pub open spec fn chance_list(list: Seq<Chance>) -> Seq<(int, Coord)> {
    list.map_values(|c: Chance| (c.decision as int, c.target))
}

fn find_taken(moves: &Vec<MoveRecord>, d: &Decision) -> (res: Option<Coord>)
    ensures
        res == taken_at(moves@, d@),
{
    if d.plies as u64 >= moves.len() as u64 {
        return None;
    }
    let i: usize = d.plies as usize;
    match parse_usi(moves[i].usi.as_str()) {
        Some(ShogiMove::Board { from: _, to, promote: _ }) => if d.pos.piece_at(to).is_some() {
            Some(to)
        } else {
            None
        },
        _ => None,
    }
}

/// A finished game and the decisions in it at which the bot may take back.
#[derive(Debug)]
pub struct ProbedGame {
    pub decisions: Vec<Decision>,
    pub chances: Vec<Chance>,
}

/// Finds the decisions of a finished game at which the bot may take back; nothing comes back of a
/// record that does not hold together.
pub fn probe_game(end: &GameEndPayload, bot: Color) -> (res: Option<ProbedGame>)
    requires
        end.moves@.len() <= u32::MAX,
        end.foul_attempts@.len() <= u32::MAX,
    ensures
        res is Some <==> game_run(*end).ok,
        res matches Some(g) ==> {
            &&& decision_list(g.decisions@) == game_run(*end).decisions
            &&& chance_list(g.chances@) == chances(game_run(*end).decisions, end.moves@, bot)
        },
{
    let replay = replay_game(end);
    if !replay.ok {
        return None;
    }
    let decisions = replay.decisions;
    let ghost ds = decision_list(decisions@);
    let ghost all = Seq::new(ds.len(), |i: int| i);
    let ghost pick = |i: int| chance_at(ds, end.moves@, bot, i);
    let mut out: Vec<Chance> = Vec::new();
    let mut i: usize = 0;
    assert(all.take(0).filter_map(pick) =~= Seq::<(int, Coord)>::empty());
    assert(chance_list(out@) =~= Seq::<(int, Coord)>::empty());
    while i < decisions.len()
        invariant
            i <= decisions@.len(),
            ds == decision_list(decisions@),
            all == Seq::new(ds.len(), |i: int| i),
            pick == (|i: int| chance_at(ds, end.moves@, bot, i)),
            chance_list(out@) == all.take(i as int).filter_map(pick),
        decreases decisions@.len() - i,
    {
        let ghost before_ = out@;
        proof {
            all.lemma_filter_map_take_succ(pick, i as int);
            assert(ds[i as int] == decisions@[i as int]@);
        }
        if i > 0 && decisions[i].side == bot {
            assert(ds[i - 1] == decisions@[i - 1]@);
            if decisions[i - 1].side != bot {
                if let Some(target) = find_taken(&end.moves, &decisions[i - 1]) {
                    out.push(Chance { decision: i, target });
                    assert(chance_list(out@) =~= chance_list(before_).push((i as int, target)));
                }
            }
        }
        i += 1;
    }
    assert(all.take(i as int) =~= all);
    Some(ProbedGame { decisions, chances: out })
}

/// The place of a role in a table of the roles.
pub open spec fn role_place(role: Role) -> int {
    match role {
        Role::Pawn => 0,
        Role::Lance => 1,
        Role::Knight => 2,
        Role::Silver => 3,
        Role::Gold => 4,
        Role::Bishop => 5,
        Role::Rook => 6,
        Role::King => 7,
        Role::Tokin => 8,
        Role::Promotedlance => 9,
        Role::Promotedknight => 10,
        Role::Promotedsilver => 11,
        Role::Horse => 12,
        Role::Dragon => 13,
    }
}

/// The place of a role in a table of the roles.
pub fn role_index(role: Role) -> (res: usize)
    ensures
        res == role_place(role),
        res < 14,
{
    match role {
        Role::Pawn => 0,
        Role::Lance => 1,
        Role::Knight => 2,
        Role::Silver => 3,
        Role::Gold => 4,
        Role::Bishop => 5,
        Role::Rook => 6,
        Role::King => 7,
        Role::Tokin => 8,
        Role::Promotedlance => 9,
        Role::Promotedknight => 10,
        Role::Promotedsilver => 11,
        Role::Horse => 12,
        Role::Dragon => 13,
    }
}

/// What the piece on a square is worth, if there is one.
pub open spec fn worth_at(pos: PositionModel, c: Coord, worth: Seq<u32>) -> int {
    match pos.at(c) {
        Some(p) => worth[role_place(p.role)] as int,
        None => 0,
    }
}

/// What the opponent's piece on a square is worth, if there is one.
pub open spec fn prize(pos: PositionModel, bot: Color, target: Coord, worth: Seq<u32>) -> int {
    match pos.at(target) {
        Some(p) => if p.color != bot {
            worth[role_place(p.role)] as int
        } else {
            0
        },
        None => 0,
    }
}

/// What a move onto the square wins: the piece there, less the own piece where it can be taken.
pub open spec fn profit_of(
    pos: PositionModel,
    bot: Color,
    target: Coord,
    worth: Seq<u32>,
    mv: ShogiMove,
) -> Option<int> {
    match mv {
        ShogiMove::Board { from, to, promote } => if to == target {
            Some(
                prize(pos, bot, target, worth) - (if attacked_by(
                    after_move(pos, mv),
                    target,
                    other_color(bot),
                ) {
                    worth_at(pos, from, worth)
                } else {
                    0
                }),
            )
        } else {
            None
        },
        ShogiMove::Drop { role, to } => None,
    }
}

/// The most that one of the first `n` moves onto the square wins.
pub open spec fn best_profit(
    pos: PositionModel,
    bot: Color,
    target: Coord,
    worth: Seq<u32>,
    moves: Seq<ShogiMove>,
    n: int,
) -> Option<int>
    decreases n,
{
    if n <= 0 {
        None
    } else {
        let best = best_profit(pos, bot, target, worth, moves, n - 1);
        match (best, profit_of(pos, bot, target, worth, moves[n - 1])) {
            (Some(a), Some(b)) => Some(
                if b > a {
                    b
                } else {
                    a
                },
            ),
            (Some(a), None) => Some(a),
            (None, x) => x,
        }
    }
}

/// What must be won, in thousandths of a pawn, for taking back to be worth it.
pub const WORTH_IT: i64 = 500;

/// Whether taking back is really worth it. The table tells what the roles are worth, in thousandths.
pub open spec fn is_profitable(
    pos: PositionModel,
    bot: Color,
    target: Coord,
    worth: Seq<u32>,
) -> bool {
    let all = legal_list(pos);
    best_profit(pos, bot, target, worth, all, all.len() as int) matches Some(p) && p > WORTH_IT
}

/// Whether taking back is really worth it. The table tells what the roles are worth, in thousandths.
pub fn profitable(pos: &Position, bot: Color, target: Coord, worth: &[u32; 14]) -> (res: bool)
    ensures
        res == is_profitable(pos@, bot, target, worth@),
{
    let moves = pos.legal_moves();
    let gain: i64 = match pos.piece_at(target) {
        Some(p) => if p.color != bot {
            worth[role_index(p.role)] as i64
        } else {
            0
        },
        None => 0,
    };
    let mut best: Option<i64> = None;
    let mut i: usize = 0;
    while i < moves.len()
        invariant
            i <= moves@.len(),
            moves@ == legal_list(pos@),
            gain == prize(pos@, bot, target, worth@),
            0 <= gain <= u32::MAX,
            match best {
                Some(b) => best_profit(pos@, bot, target, worth@, moves@, i as int) == Some(
                    b as int,
                ),
                None => best_profit(pos@, bot, target, worth@, moves@, i as int) is None,
            },
        decreases moves@.len() - i,
    {
        let mv = moves[i];
        proof {
            law_legal_moves(pos@, mv);
            assert(legal_list(pos@).contains(mv));
            lemma_legal_is_playable(pos@, mv);
        }
        if let ShogiMove::Board { from, to, promote: _ } = mv {
            if to == target {
                let own: i64 = match pos.piece_at(from) {
                    Some(p) => worth[role_index(p.role)] as i64,
                    None => 0,
                };
                let mut next = *pos;
                let _taken = next.play_unchecked(&mv);
                let p: i64 = if next.is_attacked(target, bot.other()) {
                    gain - own
                } else {
                    gain
                };
                assert(profit_of(pos@, bot, target, worth@, mv) == Some(p as int));
                best = match best {
                    Some(b) => if p > b {
                        Some(p)
                    } else {
                        Some(b)
                    },
                    None => Some(p),
                };
            }
        }
        i += 1;
    }
    match best {
        Some(b) => b > WORTH_IT,
        None => false,
    }
}

/// A candidate of a ranking: its text, and an integer that is ordered as its static score is.
#[derive(Debug)]
pub struct Ranked {
    pub usi: String,
    pub static_key: i64,
    /// Whether the candidate was looked at two moves deep.
    pub depth2: bool,
}

/// The mathematical content of a `Ranked`.
pub struct RankedModel {
    pub usi: Seq<char>,
    pub static_key: i64,
    pub depth2: bool,
}

/// The content of a ranking.
pub open spec fn ranked_list(ranking: Seq<Ranked>) -> Seq<RankedModel> {
    ranking.map_values(
        |r: Ranked| RankedModel { usi: r.usi@, static_key: r.static_key, depth2: r.depth2 },
    )
}

/// The first candidate from `i` on with a property.
pub open spec fn first_ranked(
    ranking: Seq<RankedModel>,
    p: spec_fn(RankedModel) -> bool,
    i: int,
) -> Option<int>
    decreases ranking.len() - i,
{
    if i < 0 || i >= ranking.len() {
        None
    } else if p(ranking[i]) {
        Some(i)
    } else {
        first_ranked(ranking, p, i + 1)
    }
}

/// Whether a candidate stands before another in the order of the static scores: a higher score, or
/// an equal one and an earlier place.
pub open spec fn statically_before(ranking: Seq<RankedModel>, a: int, b: int) -> bool {
    ranking[a].static_key > ranking[b].static_key || (ranking[a].static_key
        == ranking[b].static_key && a < b)
}

/// How many of the first `n` candidates stand before one in the order of the static scores.
pub open spec fn static_rank(ranking: Seq<RankedModel>, b: int, n: int) -> nat
    decreases n,
{
    if n <= 0 {
        0
    } else {
        static_rank(ranking, b, n - 1) + (if statically_before(ranking, n - 1, b) {
            1nat
        } else {
            0nat
        })
    }
}

/// The candidate onto the square that stands first in the order of the static scores, among the
/// first `n`.
pub open spec fn static_best(ranking: Seq<RankedModel>, target: Coord, n: int) -> Option<int>
    decreases n,
{
    if n <= 0 {
        None
    } else {
        let best = static_best(ranking, target, n - 1);
        if !goes_to(ranking[n - 1].usi, target) {
            best
        } else {
            match best {
                Some(b) => if statically_before(ranking, n - 1, b) {
                    Some(n - 1)
                } else {
                    best
                },
                None => Some(n - 1),
            }
        }
    }
}

/// How a ranking treats taking back.
#[derive(Clone, Copy, Debug, PartialEq, Eq)]
pub struct Measure {
    /// The place of the first candidate that takes back.
    pub final_rank: usize,
    /// Its place in the order of the static scores.
    pub static_rank: usize,
    /// The place of the chosen candidate.
    pub chosen: usize,
    /// Whether the chosen candidate takes back.
    pub took: bool,
    /// Whether the first candidate that takes back was looked at two moves deep.
    pub depth2: bool,
}

/// How a ranking treats taking back, if a candidate does it and the choice is among the candidates.
pub open spec fn measured(ranking: Seq<RankedModel>, chosen: Seq<char>, target: Coord) -> Option<
    (int, int, int, bool, bool),
> {
    let back = first_ranked(ranking, |r: RankedModel| goes_to(r.usi, target), 0);
    let choice = first_ranked(ranking, |r: RankedModel| r.usi == chosen, 0);
    match (back, choice) {
        (Some(f), Some(c)) => Some(
            (
                f,
                static_rank(
                    ranking,
                    static_best(ranking, target, ranking.len() as int)->0,
                    ranking.len() as int,
                ) as int,
                c,
                goes_to(chosen, target),
                ranking[f].depth2,
            ),
        ),
        _ => None,
    }
}

proof fn lemma_static_best(ranking: Seq<RankedModel>, target: Coord, n: int)
    requires
        0 <= n <= ranking.len(),
    ensures
        static_best(ranking, target, n) is Some <==> exists|i: int|
            0 <= i < n && goes_to((#[trigger] ranking[i]).usi, target),
        static_best(ranking, target, n) matches Some(b) ==> 0 <= b < n,
    decreases n,
{
    if n > 0 {
        lemma_static_best(ranking, target, n - 1);
        if static_best(ranking, target, n) is Some && static_best(ranking, target, n - 1) is None {
            assert(goes_to(ranking[n - 1].usi, target));
        }
    }
}

fn find_goes_to(ranking: &Vec<Ranked>, target: Coord) -> (res: Option<usize>)
    ensures
        match res {
            Some(i) => i < ranking@.len() && goes_to(ranking@[i as int].usi@, target)
                && first_ranked(
                ranked_list(ranking@),
                |r: RankedModel| goes_to(r.usi, target),
                0,
            ) == Some(i as int),
            None => first_ranked(
                ranked_list(ranking@),
                |r: RankedModel| goes_to(r.usi, target),
                0,
            ) is None,
        },
{
    let ghost all = ranked_list(ranking@);
    let ghost p = |r: RankedModel| goes_to(r.usi, target);
    let mut i: usize = 0;
    while i < ranking.len()
        invariant
            i <= ranking@.len(),
            all == ranked_list(ranking@),
            p == (|r: RankedModel| goes_to(r.usi, target)),
            first_ranked(all, p, 0) == first_ranked(all, p, i as int),
        decreases ranking@.len() - i,
    {
        assert(all[i as int].usi == ranking@[i as int].usi@);
        if moves_to(ranking[i].usi.as_str(), target) {
            return Some(i);
        }
        i += 1;
    }
    None
}

fn find_text(ranking: &Vec<Ranked>, chosen: &str) -> (res: Option<usize>)
    ensures
        match res {
            Some(i) => first_ranked(
                ranked_list(ranking@),
                |r: RankedModel| r.usi == chosen@,
                0,
            ) == Some(i as int),
            None => first_ranked(
                ranked_list(ranking@),
                |r: RankedModel| r.usi == chosen@,
                0,
            ) is None,
        },
{
    let ghost all = ranked_list(ranking@);
    let ghost p = |r: RankedModel| r.usi == chosen@;
    let mut i: usize = 0;
    while i < ranking.len()
        invariant
            i <= ranking@.len(),
            all == ranked_list(ranking@),
            p == (|r: RankedModel| r.usi == chosen@),
            first_ranked(all, p, 0) == first_ranked(all, p, i as int),
        decreases ranking@.len() - i,
    {
        assert(all[i as int].usi == ranking@[i as int].usi@);
        if same_text(ranking[i].usi.as_str(), chosen) {
            return Some(i);
        }
        i += 1;
    }
    None
}

fn comes_statically_before(ranking: &Vec<Ranked>, a: usize, b: usize) -> (res: bool)
    requires
        a < ranking@.len(),
        b < ranking@.len(),
    ensures
        res == statically_before(ranked_list(ranking@), a as int, b as int),
{
    ranking[a].static_key > ranking[b].static_key || (ranking[a].static_key
        == ranking[b].static_key && a < b)
}

/// Measures how a ranking treats taking back on a square.
pub fn measure(ranking: &Vec<Ranked>, chosen: &str, target: Coord) -> (res: Option<Measure>)
    ensures
        match res {
            Some(m) => measured(ranked_list(ranking@), chosen@, target) == Some(
                (m.final_rank as int, m.static_rank as int, m.chosen as int, m.took, m.depth2),
            ),
            None => measured(ranked_list(ranking@), chosen@, target) is None,
        },
{
    let ghost all = ranked_list(ranking@);
    let final_rank: usize = match find_goes_to(ranking, target) {
        Some(i) => i,
        None => return None,
    };
    let choice: usize = match find_text(ranking, chosen) {
        Some(i) => i,
        None => return None,
    };
    let n: usize = ranking.len();
    let mut best: Option<usize> = None;
    let mut i: usize = 0;
    while i < n
        invariant
            i <= n,
            n == ranking@.len(),
            all == ranked_list(ranking@),
            match best {
                Some(b) => b < i && static_best(all, target, i as int) == Some(b as int),
                None => static_best(all, target, i as int) is None,
            },
        decreases n - i,
    {
        assert(all[i as int].usi == ranking@[i as int].usi@);
        if moves_to(ranking[i].usi.as_str(), target) {
            best = match best {
                Some(b) => if comes_statically_before(ranking, i, b) {
                    Some(i)
                } else {
                    Some(b)
                },
                None => Some(i),
            };
        }
        i += 1;
    }
    proof {
        lemma_static_best(all, target, n as int);
        assert(goes_to(all[final_rank as int].usi, target));
    }
    let best: usize = match best {
        Some(b) => b,
        None => return None,
    };
    let mut rank: usize = 0;
    let mut j: usize = 0;
    while j < n
        invariant
            j <= n,
            n == ranking@.len(),
            best < n,
            all == ranked_list(ranking@),
            rank <= j,
            rank == static_rank(all, best as int, j as int),
        decreases n - j,
    {
        if comes_statically_before(ranking, j, best) {
            rank += 1;
        }
        j += 1;
    }
    Some(
        Measure {
            final_rank,
            static_rank: rank,
            chosen: choice,
            took: moves_to(chosen, target),
            depth2: ranking[final_rank].depth2,
        },
    )
}

/// The counts of many chances to take back.
#[derive(Clone, Copy, Debug, PartialEq, Eq)]
pub struct Summary {
    pub cases: u64,
    /// Those in which a candidate takes back.
    pub with_candidate: u64,
    /// Those in which that was chosen.
    pub chosen_recapture: u64,
    /// The sum of the places of the candidate, counted from one.
    pub final_rank_sum: u64,
    /// The same in the order of the static scores.
    pub static_rank_sum: u64,
    /// Those in which the candidate was looked at two moves deep.
    pub depth2_in: u64,
    /// Those in which it is really worth it.
    pub truth_profitable: u64,
    /// Those of them in which it was chosen.
    pub truth_profitable_taken: u64,
}

/// One for what holds, else nothing.
pub open spec fn one_if(b: bool) -> int {
    if b {
        1
    } else {
        0
    }
}

/// Whether a chance takes back.
pub open spec fn took_back(m: Option<Measure>) -> bool {
    m matches Some(x) && x.took
}

/// What a chance adds to the sum of the places of the candidate.
pub open spec fn place_added(m: Option<Measure>) -> int {
    match m {
        Some(x) => x.final_rank + 1,
        None => 0,
    }
}

/// What a chance adds to the same in the order of the static scores.
pub open spec fn static_place_added(m: Option<Measure>) -> int {
    match m {
        Some(x) => x.static_rank + 1,
        None => 0,
    }
}

/// Whether one more chance fits into the counters of a summary.
pub open spec fn has_room(s: Summary, worth_it: bool, m: Option<Measure>) -> bool {
    &&& s.cases < u64::MAX
    &&& s.with_candidate + one_if(m is Some) <= u64::MAX
    &&& s.chosen_recapture + one_if(took_back(m)) <= u64::MAX
    &&& s.final_rank_sum + place_added(m) <= u64::MAX
    &&& s.static_rank_sum + static_place_added(m) <= u64::MAX
    &&& s.depth2_in + one_if(m matches Some(x) && x.depth2) <= u64::MAX
    &&& s.truth_profitable + one_if(worth_it) <= u64::MAX
    &&& s.truth_profitable_taken + one_if(worth_it && took_back(m)) <= u64::MAX
}

/// A summary after one more chance.
pub open spec fn summed(s: Summary, worth_it: bool, m: Option<Measure>) -> Summary {
    Summary {
        cases: (s.cases + 1) as u64,
        with_candidate: (s.with_candidate + one_if(m is Some)) as u64,
        chosen_recapture: (s.chosen_recapture + one_if(took_back(m))) as u64,
        final_rank_sum: (s.final_rank_sum + place_added(m)) as u64,
        static_rank_sum: (s.static_rank_sum + static_place_added(m)) as u64,
        depth2_in: (s.depth2_in + one_if(m matches Some(x) && x.depth2)) as u64,
        truth_profitable: (s.truth_profitable + one_if(worth_it)) as u64,
        truth_profitable_taken: (s.truth_profitable_taken + one_if(
            worth_it && took_back(m),
        )) as u64,
    }
}

/// Whether the counts of two summaries can be added.
pub open spec fn sums_fit(s: Summary, o: Summary) -> bool {
    &&& s.cases + o.cases <= u64::MAX
    &&& s.with_candidate + o.with_candidate <= u64::MAX
    &&& s.chosen_recapture + o.chosen_recapture <= u64::MAX
    &&& s.final_rank_sum + o.final_rank_sum <= u64::MAX
    &&& s.static_rank_sum + o.static_rank_sum <= u64::MAX
    &&& s.depth2_in + o.depth2_in <= u64::MAX
    &&& s.truth_profitable + o.truth_profitable <= u64::MAX
    &&& s.truth_profitable_taken + o.truth_profitable_taken <= u64::MAX
}

/// Two summaries taken together.
pub open spec fn added(s: Summary, o: Summary) -> Summary {
    Summary {
        cases: (s.cases + o.cases) as u64,
        with_candidate: (s.with_candidate + o.with_candidate) as u64,
        chosen_recapture: (s.chosen_recapture + o.chosen_recapture) as u64,
        final_rank_sum: (s.final_rank_sum + o.final_rank_sum) as u64,
        static_rank_sum: (s.static_rank_sum + o.static_rank_sum) as u64,
        depth2_in: (s.depth2_in + o.depth2_in) as u64,
        truth_profitable: (s.truth_profitable + o.truth_profitable) as u64,
        truth_profitable_taken: (s.truth_profitable_taken + o.truth_profitable_taken) as u64,
    }
}

/// A summary of nothing.
pub open spec fn nothing_summed() -> Summary {
    Summary {
        cases: 0,
        with_candidate: 0,
        chosen_recapture: 0,
        final_rank_sum: 0,
        static_rank_sum: 0,
        depth2_in: 0,
        truth_profitable: 0,
        truth_profitable_taken: 0,
    }
}

impl Summary {
    pub fn new() -> (res: Summary)
        ensures
            res == nothing_summed(),
    {
        Summary {
            cases: 0,
            with_candidate: 0,
            chosen_recapture: 0,
            final_rank_sum: 0,
            static_rank_sum: 0,
            depth2_in: 0,
            truth_profitable: 0,
            truth_profitable_taken: 0,
        }
    }

    /// Adds a chance: whether it was really worth it, and how the ranking treated it.
    pub fn count(&mut self, worth_it: bool, m: &Option<Measure>)
        requires
            has_room(*old(self), worth_it, *m),
        ensures
            *final(self) == summed(*old(self), worth_it, *m),
    {
        self.cases += 1;
        if worth_it {
            self.truth_profitable += 1;
        }
        if let Some(x) = m {
            self.with_candidate += 1;
            self.final_rank_sum = self.final_rank_sum + x.final_rank as u64 + 1;
            self.static_rank_sum = self.static_rank_sum + x.static_rank as u64 + 1;
            if x.depth2 {
                self.depth2_in += 1;
            }
            if x.took {
                self.chosen_recapture += 1;
                if worth_it {
                    self.truth_profitable_taken += 1;
                }
            }
        }
    }

    /// Adds the counts of another summary.
    pub fn merge(&mut self, o: &Summary)
        requires
            sums_fit(*old(self), *o),
        ensures
            *final(self) == added(*old(self), *o),
    {
        self.cases += o.cases;
        self.with_candidate += o.with_candidate;
        self.chosen_recapture += o.chosen_recapture;
        self.final_rank_sum += o.final_rank_sum;
        self.static_rank_sum += o.static_rank_sum;
        self.depth2_in += o.depth2_in;
        self.truth_profitable += o.truth_profitable;
        self.truth_profitable_taken += o.truth_profitable_taken;
    }
}

/// What is taken is among what could be: the counts of a summary never contradict one another.
pub proof fn law_summary_is_consistent(s: Summary, worth_it: bool, m: Option<Measure>)
    requires
        has_room(s, worth_it, m),
        s.chosen_recapture <= s.with_candidate <= s.cases,
        s.depth2_in <= s.with_candidate,
        s.truth_profitable_taken <= s.truth_profitable <= s.cases,
        s.truth_profitable_taken <= s.chosen_recapture,
    ensures
        ({
            let t = summed(s, worth_it, m);
            &&& t.chosen_recapture <= t.with_candidate <= t.cases
            &&& t.depth2_in <= t.with_candidate
            &&& t.truth_profitable_taken <= t.truth_profitable <= t.cases
            &&& t.truth_profitable_taken <= t.chosen_recapture
        }),
{
}

/// The counts of all chances, and of those that were really worth it but not taken. The latter stand
/// apart so that chances that should be left alone do not hide them.
#[derive(Clone, Copy, Debug, PartialEq, Eq)]
pub struct Summaries {
    pub all: Summary,
    pub missed: Summary,
}

/// Whether a chance was really worth it, could be taken and was not.
pub open spec fn is_missed(worth_it: bool, m: Option<Measure>) -> bool {
    worth_it && (m matches Some(x) && !x.took)
}

/// The missed chances after one more chance. Among them none is counted as worth it: all are.
pub open spec fn missed_summed(missed: Summary, worth_it: bool, m: Option<Measure>) -> Summary {
    if is_missed(worth_it, m) {
        summed(missed, false, m)
    } else {
        missed
    }
}

impl Summaries {
    pub fn new() -> (res: Summaries)
        ensures
            res.all == nothing_summed(),
            res.missed == nothing_summed(),
    {
        Summaries { all: Summary::new(), missed: Summary::new() }
    }

    /// Adds a chance to the counts that it belongs to.
    pub fn count(&mut self, worth_it: bool, m: &Option<Measure>)
        requires
            has_room(old(self).all, worth_it, *m),
            is_missed(worth_it, *m) ==> has_room(old(self).missed, false, *m),
        ensures
            final(self).all == summed(old(self).all, worth_it, *m),
            final(self).missed == missed_summed(old(self).missed, worth_it, *m),
    {
        self.all.count(worth_it, m);
        let missed = worth_it && match m {
            Some(x) => !x.took,
            None => false,
        };
        if missed {
            self.missed.count(false, m);
        }
    }

    /// Adds the counts of other games.
    pub fn merge(&mut self, o: &Summaries)
        requires
            sums_fit(old(self).all, o.all),
            sums_fit(old(self).missed, o.missed),
        ensures
            final(self).all == added(old(self).all, o.all),
            final(self).missed == added(old(self).missed, o.missed),
    {
        self.all.merge(&o.all);
        self.missed.merge(&o.missed);
    }
}

/// The missed chances are those that were worth it, had a candidate and were not taken: never more
/// than the chances that were worth it and not taken, and none of them is taken.
pub proof fn law_missed_chances(s: Summaries, worth_it: bool, m: Option<Measure>)
    requires
        has_room(s.all, worth_it, m),
        is_missed(worth_it, m) ==> has_room(s.missed, false, m),
        s.missed.cases == s.missed.with_candidate,
        s.missed.chosen_recapture == 0,
        s.missed.cases + s.all.truth_profitable_taken <= s.all.truth_profitable,
    ensures
        ({
            let all = summed(s.all, worth_it, m);
            let missed = missed_summed(s.missed, worth_it, m);
            &&& missed.cases == missed.with_candidate
            &&& missed.chosen_recapture == 0
            &&& missed.cases + all.truth_profitable_taken <= all.truth_profitable
        }),
{
}

} // verus!
