//! The decisions before a lost game was lost, and the continuations that are played from them: how a
//! decision is restored, which safe moves are tried, and in which order the arms are run.

use crate::candidates::{candidate_list, candidate_moves, pairs_match, text_set, untried};
use crate::check_economy::ReplayedModel;
use crate::check_policy::copy_texts;
use crate::config::texts_of;
use crate::continuation::{tried_at_end, tried_this_turn, Arm};
use crate::lists::{lemma_placed_by, sorted_by};
use crate::protocol::{GameEndPayload, PlayerView};
use crate::replay::{decision_list, game_run, replay_game, DecisionModel, Replayed};
use crate::shogi::{text_of_move, writable, ShogiMove};
use crate::text::{before, comes_before, same_text};
use vstd::prelude::*;

verus! {

/// The state of a decision, after the fouls of its turn.
pub open spec fn state_of(d: DecisionModel) -> ReplayedModel {
    ReplayedModel { pos: d.pos, logs: d.logs, fouls: d.fouls, plies: d.plies }
}

/// The attempts of the turn of a decision that were fouls.
pub open spec fn tried_in(d: DecisionModel) -> Set<Seq<char>> {
    tried_at_end(d.logs.of(d.side), d.fouls_this_turn as int, Set::empty(), 0)
}

/// A decision of a finished game, as the player stood before it.
#[derive(Debug)]
pub struct DecisionState {
    pub rep: Replayed,
    /// The attempts of the turn that were fouls.
    pub tried: Vec<String>,
}

/// Restores a decision of a finished game by its number. Of a record that does not hold together the
/// decisions before the fault can be restored.
pub fn decision_state(end: &GameEndPayload, want: usize) -> (res: Option<DecisionState>)
    requires
        end.moves@.len() <= u32::MAX,
        end.foul_attempts@.len() <= u32::MAX,
    ensures
        res is Some <==> want < game_run(*end).decisions.len(),
        res matches Some(s) ==> {
            let d = game_run(*end).decisions[want as int];
            &&& s.rep@ == state_of(d)
            &&& text_set(s.tried@) == tried_in(d)
        },
{
    let replay = replay_game(end);
    if want >= replay.decisions.len() {
        return None;
    }
    let d = &replay.decisions[want];
    assert(decision_list(replay.decisions@)[want as int] == d@);
    let rep = Replayed { pos: d.pos, logs: d.logs.clone(), fouls: d.fouls, plies: d.plies };
    let tried = tried_this_turn(d.logs.of(d.side), d.fouls_this_turn);
    assert(rep@ =~= state_of(d@));
    Some(DecisionState { rep, tried })
}

/// Restores several decisions of a finished game; those that it does not have are left out.
pub fn decision_states(end: &GameEndPayload, want: &Vec<usize>) -> (res: Vec<(usize, DecisionState)>)
    requires
        end.moves@.len() <= u32::MAX,
        end.foul_attempts@.len() <= u32::MAX,
    ensures
        res@.map_values(|x: (usize, DecisionState)| x.0) == want@.filter(
            |i: usize| i < game_run(*end).decisions.len(),
        ),
        forall|k: int|
            0 <= k < res@.len() ==> {
                let d = game_run(*end).decisions[(#[trigger] res@[k]).0 as int];
                &&& res@[k].1.rep@ == state_of(d)
                &&& text_set(res@[k].1.tried@) == tried_in(d)
            },
{
    let ghost known = |i: usize| i < game_run(*end).decisions.len();
    let ghost number = |x: (usize, DecisionState)| x.0;
    let mut out: Vec<(usize, DecisionState)> = Vec::new();
    let mut i: usize = 0;
    assert(want@.take(0).filter(known) =~= Seq::<usize>::empty()) by {
        reveal(Seq::filter);
    }
    assert(out@.map_values(number) =~= Seq::<usize>::empty());
    while i < want.len()
        invariant
            i <= want@.len(),
            end.moves@.len() <= u32::MAX,
            end.foul_attempts@.len() <= u32::MAX,
            known == (|i: usize| i < game_run(*end).decisions.len()),
            number == (|x: (usize, DecisionState)| x.0),
            out@.map_values(number) == want@.take(i as int).filter(known),
            forall|k: int|
                0 <= k < out@.len() ==> {
                    let d = game_run(*end).decisions[(#[trigger] out@[k]).0 as int];
                    &&& out@[k].1.rep@ == state_of(d)
                    &&& text_set(out@[k].1.tried@) == tried_in(d)
                },
        decreases want@.len() - i,
    {
        let ghost start = out@;
        let n: usize = want[i];
        proof {
            assert(want@.take(i + 1) =~= want@.take(i as int).push(n));
            want@.take(i as int).lemma_filter_push(n, known);
        }
        if let Some(s) = decision_state(end, n) {
            out.push((n, s));
            assert(out@.map_values(number) =~= start.map_values(number).push(n));
        }
        i += 1;
    }
    assert(want@.take(i as int) =~= want@);
    out
}

/// Whether one text may stand before another.
pub open spec fn text_order(a: Seq<char>, b: Seq<char>) -> bool {
    !comes_before(b, a)
}

/// The safe moves that a player can think of: those among its candidates, in the order of their
/// texts.
pub open spec fn covered(safe: Seq<ShogiMove>, candidates: Seq<ShogiMove>) -> Seq<Seq<char>> {
    sorted_by(
        safe.filter(|mv: ShogiMove| is_candidate(candidates, text_of_move(mv))).map_values(
            |mv: ShogiMove| text_of_move(mv),
        ),
        |a: Seq<char>, b: Seq<char>| text_order(a, b),
    )
}

/// Whether a text is that of a candidate.
pub open spec fn is_candidate(candidates: Seq<ShogiMove>, text: Seq<char>) -> bool {
    exists|i: int| 0 <= i < candidates.len() && text_of_move(#[trigger] candidates[i]) == text
}

fn has_candidate(pairs: &Vec<(String, ShogiMove)>, text: &str, Ghost(candidates): Ghost<
    Seq<ShogiMove>,
>) -> (res: bool)
    requires
        pairs_match(pairs@, candidates),
    ensures
        res == is_candidate(candidates, text@),
{
    let mut i: usize = 0;
    while i < pairs.len()
        invariant
            i <= pairs@.len(),
            pairs_match(pairs@, candidates),
            forall|k: int| 0 <= k < i ==> text_of_move(#[trigger] candidates[k]) != text@,
        decreases pairs@.len() - i,
    {
        assert(pairs@[i as int].0@ == text_of_move(candidates[i as int]));
        if same_text(pairs[i].0.as_str(), text) {
            assert(text_of_move(candidates[i as int]) == text@);
            return true;
        }
        i += 1;
    }
    false
}

fn insert_in_order(list: &mut Vec<String>, text: String)
    ensures
        texts_of(final(list)@) == crate::lists::placed_by(
            texts_of(old(list)@),
            text@,
            |a: Seq<char>, b: Seq<char>| text_order(a, b),
        ),
{
    let ghost le = |a: Seq<char>, b: Seq<char>| text_order(a, b);
    let ghost sorted = texts_of(list@);
    let mut n: usize = list.len();
    while n > 0 && before(text.as_str(), list[n - 1].as_str())
        invariant
            n <= list@.len(),
            list@ == old(list)@,
            sorted == texts_of(list@),
            le == (|a: Seq<char>, b: Seq<char>| text_order(a, b)),
            forall|k: int| n <= k < sorted.len() ==> !le(#[trigger] sorted[k], text@),
        decreases n,
    {
        assert(sorted[n - 1] == list@[n - 1]@);
        n -= 1;
    }
    proof {
        if n > 0 {
            assert(sorted[n - 1] == list@[n - 1]@);
            assert(le(sorted[n - 1], text@));
        }
        lemma_placed_by(sorted, text@, le, n as int);
    }
    list.insert(n, text);
    assert(texts_of(list@) =~= sorted.insert(n as int, text@));
}

/// Lists the safe moves that a player can think of. A move that is not among its candidates no policy
/// could choose.
pub fn covered_safe(safe: &Vec<ShogiMove>, view: &PlayerView, tried: &Vec<String>) -> (res: Vec<String>)
    requires
        forall|i: int| 0 <= i < safe@.len() ==> writable(#[trigger] safe@[i]),
    ensures
        texts_of(res@) == covered(
            safe@,
            untried(candidate_list(view@.pieces, view@.hand, view@.color), tried@),
        ),
{
    let pairs = candidate_moves(view, tried);
    let ghost cands = untried(candidate_list(view@.pieces, view@.hand, view@.color), tried@);
    let ghost good = |mv: ShogiMove| is_candidate(cands, text_of_move(mv));
    let ghost write = |mv: ShogiMove| text_of_move(mv);
    let ghost le = |a: Seq<char>, b: Seq<char>| text_order(a, b);
    let mut out: Vec<String> = Vec::new();
    let mut i: usize = 0;
    proof {
        assert(safe@.take(0).filter(good) =~= Seq::<ShogiMove>::empty()) by {
            reveal(Seq::filter);
        }
        assert(safe@.take(0).filter(good).map_values(write) =~= Seq::<Seq<char>>::empty());
        assert(texts_of(out@) =~= Seq::<Seq<char>>::empty());
    }
    while i < safe.len()
        invariant
            i <= safe@.len(),
            forall|i: int| 0 <= i < safe@.len() ==> writable(#[trigger] safe@[i]),
            pairs_match(pairs@, cands),
            good == (|mv: ShogiMove| is_candidate(cands, text_of_move(mv))),
            write == (|mv: ShogiMove| text_of_move(mv)),
            le == (|a: Seq<char>, b: Seq<char>| text_order(a, b)),
            texts_of(out@) == sorted_by(safe@.take(i as int).filter(good).map_values(write), le),
        decreases safe@.len() - i,
    {
        let mv = safe[i];
        let ghost kept = safe@.take(i as int).filter(good);
        proof {
            assert(safe@.take(i + 1) =~= safe@.take(i as int).push(mv));
            safe@.take(i as int).lemma_filter_push(mv, good);
        }
        let text = mv.to_usi();
        if has_candidate(&pairs, text.as_str(), Ghost(cands)) {
            proof {
                let more = kept.push(mv).map_values(write);
                assert(more.drop_last() =~= kept.map_values(write));
                assert(more.last() == text@);
            }
            insert_in_order(&mut out, text);
        }
        i += 1;
    }
    assert(safe@.take(i as int) =~= safe@);
    out
}

/// The texts of a list without those that equal the one before them.
pub open spec fn without_repeats(list: Seq<Seq<char>>) -> Seq<Seq<char>>
    decreases list.len(),
{
    if list.len() == 0 {
        Seq::empty()
    } else {
        let front = without_repeats(list.drop_last());
        if front.len() > 0 && front.last() == list.last() {
            front
        } else {
            front.push(list.last())
        }
    }
}

/// The texts of a list at even distances, `max` of them.
pub open spec fn spaced_out(list: Seq<Seq<char>>, max: int) -> Seq<Seq<char>> {
    Seq::new(max as nat, |k: int| list[k * list.len() as int / max])
}

/// Chooses texts of a list at even distances where there are too many; a maximum of zero keeps all.
/// To choose by the present ranking would draw the oracle towards the present policy.
pub fn spaced(list: &Vec<String>, max: usize) -> (res: Vec<String>)
    ensures
        texts_of(res@) == (if list@.len() > max && max > 0 {
            without_repeats(spaced_out(texts_of(list@), max as int))
        } else {
            texts_of(list@)
        }),
        res@.len() <= list@.len(),
{
    let n: usize = list.len();
    if n <= max || max == 0 {
        return copy_texts(list);
    }
    let ghost all = texts_of(list@);
    let ghost picks = spaced_out(all, max as int);
    let mut out: Vec<String> = Vec::new();
    let mut k: usize = 0;
    assert(texts_of(out@) =~= Seq::<Seq<char>>::empty());
    while k < max
        invariant
            k <= max < n,
            max > 0,
            n == list@.len(),
            all == texts_of(list@),
            picks == spaced_out(all, max as int),
            out@.len() <= k,
            texts_of(out@) == without_repeats(picks.take(k as int)),
        decreases max - k,
    {
        let ghost start = out@;
        assert(k * n <= n * max && 0 <= k * n && k * n / (max as int) < n) by (nonlinear_arith)
            requires
                0 <= k < max,
                0 < max < n,
        ;
        assert(k * n <= u128::MAX) by (nonlinear_arith)
            requires
                0 <= k <= 0xffff_ffff_ffff_ffff,
                0 <= n <= 0xffff_ffff_ffff_ffff,
        ;
        let place: u128 = k as u128 * n as u128 / max as u128;
        assert(place == k * n / (max as int));
        let i: usize = place as usize;
        proof {
            assert(picks[k as int] == list@[i as int]@);
            assert(picks.take(k + 1).drop_last() =~= picks.take(k as int));
            assert(picks.take(k + 1).last() == picks[k as int]);
        }
        let m: usize = out.len();
        let repeats = if m > 0 {
            assert(texts_of(out@).last() == out@[m - 1]@);
            out[m - 1] == list[i]
        } else {
            false
        };
        if !repeats {
            out.push(list[i].clone());
            assert(texts_of(out@) =~= texts_of(start).push(picks[k as int]));
        }
        k += 1;
    }
    assert(picks.take(max as int) =~= picks);
    out
}

/// How many of the first `n` points are of danger.
pub open spec fn dangers_before(danger: Seq<bool>, n: int) -> nat
    decreases n,
{
    if n <= 0 {
        0
    } else {
        dangers_before(danger, n - 1) + (if danger[n - 1] {
            1nat
        } else {
            0nat
        })
    }
}

/// Whether a point keeps its game: it is of danger, and fewer than the limit come before it.
pub open spec fn keeps_game(danger: Seq<bool>, limit: int, j: int) -> bool {
    danger[j] && dangers_before(danger, j) < limit
}

/// Whether a point is kept: its game is.
pub open spec fn is_kept(danger: Seq<bool>, games: Seq<String>, limit: int, i: int) -> bool {
    dangers_before(danger, danger.len() as int) <= limit || exists|j: int|
        0 <= j < danger.len() && #[trigger] keeps_game(danger, limit, j) && games[j]@ == games[i]@
}

/// Keeps the points of the first games: as many points of danger as the limit allows, and with them
/// all points of their games.
pub fn limit_points(danger: &Vec<bool>, games: &Vec<String>, limit: usize) -> (res: Vec<usize>)
    requires
        danger@.len() == games@.len(),
    ensures
        res@.map_values(|i: usize| i as int) == Seq::new(danger@.len(), |i: int| i).filter(
            |i: int| is_kept(danger@, games@, limit as int, i),
        ),
{
    let n: usize = danger.len();
    let mut heads: Vec<usize> = Vec::new();
    let mut count: usize = 0;
    let mut j: usize = 0;
    while j < n
        invariant
            j <= n,
            n == danger@.len(),
            count <= j,
            count == dangers_before(danger@, j as int),
            forall|k: int|
                0 <= k < heads@.len() ==> (#[trigger] heads@[k]) < j && keeps_game(
                    danger@,
                    limit as int,
                    heads@[k] as int,
                ),
            forall|x: int|
                0 <= x < j && #[trigger] keeps_game(danger@, limit as int, x) ==> exists|k: int|
                    0 <= k < heads@.len() && #[trigger] heads@[k] as int == x,
        decreases n - j,
    {
        let ghost start = heads@;
        if danger[j] {
            if count < limit {
                heads.push(j);
            }
            count += 1;
        }
        proof {
            assert forall|x: int|
                0 <= x < j + 1 && #[trigger] keeps_game(
                    danger@,
                    limit as int,
                    x,
                ) implies exists|k: int| 0 <= k < heads@.len() && #[trigger] heads@[k] as int == x by {
                if x < j {
                    let k = choose|k: int| 0 <= k < start.len() && #[trigger] start[k] as int == x;
                    assert(heads@[k] as int == x);
                } else {
                    assert(heads@[start.len() as int] as int == x);
                }
            }
        }
        j += 1;
    }
    let ghost all = Seq::new(danger@.len(), |i: int| i);
    let ghost good = |i: int| is_kept(danger@, games@, limit as int, i);
    let ghost wide = |i: usize| i as int;
    let mut out: Vec<usize> = Vec::new();
    let mut i: usize = 0;
    assert(all.take(0).filter(good) =~= Seq::<int>::empty()) by {
        reveal(Seq::filter);
    }
    assert(out@.map_values(wide) =~= Seq::<int>::empty());
    while i < n
        invariant
            i <= n,
            n == danger@.len(),
            danger@.len() == games@.len(),
            count == dangers_before(danger@, n as int),
            all == Seq::new(danger@.len(), |i: int| i),
            good == (|i: int| is_kept(danger@, games@, limit as int, i)),
            wide == (|i: usize| i as int),
            forall|k: int|
                0 <= k < heads@.len() ==> (#[trigger] heads@[k]) < n && keeps_game(
                    danger@,
                    limit as int,
                    heads@[k] as int,
                ),
            forall|x: int|
                0 <= x < n && #[trigger] keeps_game(danger@, limit as int, x) ==> exists|k: int|
                    0 <= k < heads@.len() && #[trigger] heads@[k] as int == x,
            out@.map_values(wide) == all.take(i as int).filter(good),
        decreases n - i,
    {
        let ghost start = out@;
        proof {
            assert(all.take(i + 1) =~= all.take(i as int).push(i as int));
            all.take(i as int).lemma_filter_push(i as int, good);
        }
        let mut kept = count <= limit;
        let mut k: usize = 0;
        while k < heads.len() && !kept
            invariant
                i < n,
                n == danger@.len(),
                danger@.len() == games@.len(),
                k <= heads@.len(),
                count == dangers_before(danger@, n as int),
                forall|k: int|
                    0 <= k < heads@.len() ==> (#[trigger] heads@[k]) < n && keeps_game(
                        danger@,
                        limit as int,
                        heads@[k] as int,
                    ),
                kept ==> is_kept(danger@, games@, limit as int, i as int),
                !kept ==> count > limit && forall|x: int|
                    0 <= x < k ==> games@[(#[trigger] heads@[x]) as int]@ != games@[i as int]@,
            decreases heads@.len() - k,
        {
            let h: usize = heads[k];
            if games[h] == games[i] {
                assert(keeps_game(danger@, limit as int, h as int));
                kept = true;
            }
            k += 1;
        }
        proof {
            if !kept && is_kept(danger@, games@, limit as int, i as int) {
                let x = choose|x: int|
                    0 <= x < danger@.len() && #[trigger] keeps_game(danger@, limit as int, x)
                        && games@[x]@ == games@[i as int]@;
                let y = choose|y: int| 0 <= y < heads@.len() && #[trigger] heads@[y] as int == x;
                assert(games@[heads@[y] as int]@ != games@[i as int]@);
            }
        }
        if kept {
            out.push(i);
            assert(out@.map_values(wide) =~= start.map_values(wide).push(i as int));
        }
        i += 1;
    }
    assert(all.take(n as int) =~= all);
    out
}

/// The orders in which the policies would try their moves.
#[derive(Debug)]
pub struct PolicyOrders {
    pub strict: Vec<String>,
    pub all: Vec<String>,
    /// Without the penalty.
    pub plain: Vec<String>,
}

/// How many moves of an order are kept: more could not be tried before the fouls are used up.
pub const ORDER_LEN: usize = 12;

/// The head of an order.
pub open spec fn order_head(order: Seq<String>) -> Seq<Seq<char>> {
    if order.len() <= ORDER_LEN {
        texts_of(order)
    } else {
        texts_of(order).take(ORDER_LEN as int)
    }
}

/// Keeps the head of an order.
pub fn head_of_order(order: &Vec<String>) -> (res: Vec<String>)
    ensures
        texts_of(res@) == order_head(order@),
{
    let mut out: Vec<String> = Vec::new();
    let mut i: usize = 0;
    while i < order.len() && i < ORDER_LEN
        invariant
            i <= order@.len(),
            i <= ORDER_LEN,
            texts_of(out@) == texts_of(order@).take(i as int),
        decreases order@.len() - i,
    {
        let ghost start = out@;
        out.push(order[i].clone());
        assert(texts_of(out@) =~= texts_of(start).push(order@[i as int]@));
        assert(texts_of(out@) =~= texts_of(order@).take(i + 1));
        i += 1;
    }
    assert(texts_of(out@) =~= order_head(order@));
    out
}

/// A continuation to be played: by which arm, and the moves to be forced, the first acceptable of
/// them.
#[derive(Debug)]
pub struct Unit {
    pub arm: Arm,
    pub order: Vec<String>,
}

/// The contents of a list of continuations.
pub open spec fn unit_list(units: Seq<Unit>) -> Seq<(Arm, Seq<Seq<char>>)> {
    units.map_values(|u: Unit| (u.arm, texts_of(u.order@)))
}

/// The continuation of a policy, if it has moves.
pub open spec fn policy_unit(arm: Arm, order: Seq<String>) -> Seq<(Arm, Seq<Seq<char>>)> {
    if order.len() == 0 {
        Seq::empty()
    } else {
        seq![(arm, order_head(order))]
    }
}

/// The continuations of a decision under one seed: the move of the game, each safe move, and the
/// policies.
pub open spec fn units_of(
    played: Seq<char>,
    safe: Seq<String>,
    strict: Seq<String>,
    all: Seq<String>,
    plain: Seq<String>,
) -> Seq<(Arm, Seq<Seq<char>>)> {
    seq![(Arm::Baseline, seq![played])] + safe.map_values(|s: String| (Arm::Oracle, seq![s@]))
        + policy_unit(Arm::PolicyStrict, strict) + policy_unit(Arm::PolicyAll, all) + policy_unit(
        Arm::PolicyW0,
        plain,
    )
}

fn push_unit(out: &mut Vec<Unit>, arm: Arm, order: Vec<String>)
    ensures
        unit_list(final(out)@) == unit_list(old(out)@).push((arm, texts_of(order@))),
{
    let ghost u = Unit { arm, order };
    out.push(Unit { arm, order });
    assert(unit_list(out@) =~= unit_list(old(out)@).push((arm, texts_of(u.order@))));
}

fn push_policy(out: &mut Vec<Unit>, arm: Arm, order: &Vec<String>)
    ensures
        unit_list(final(out)@) == unit_list(old(out)@) + policy_unit(arm, order@),
{
    if order.len() > 0 {
        let head = head_of_order(order);
        push_unit(out, arm, head);
    }
    assert(unit_list(out@) =~= unit_list(old(out)@) + policy_unit(arm, order@));
}

/// Lays out the continuations of a decision under one seed.
pub fn plan_units(played: &String, safe: &Vec<String>, policy: &PolicyOrders) -> (res: Vec<Unit>)
    ensures
        unit_list(res@) == units_of(
            played@,
            safe@,
            policy.strict@,
            policy.all@,
            policy.plain@,
        ),
{
    let ghost pick = |s: String| (Arm::Oracle, seq![s@]);
    let mut out: Vec<Unit> = Vec::new();
    let first = vec![played.clone()];
    assert(texts_of(first@) =~= seq![played@]);
    push_unit(&mut out, Arm::Baseline, first);
    let ghost head = unit_list(out@);
    assert(head =~= seq![(Arm::Baseline, seq![played@])]);
    let mut i: usize = 0;
    assert(unit_list(out@) =~= head + safe@.take(0).map_values(pick));
    while i < safe.len()
        invariant
            i <= safe@.len(),
            pick == (|s: String| (Arm::Oracle, seq![s@])),
            unit_list(out@) == head + safe@.take(i as int).map_values(pick),
        decreases safe@.len() - i,
    {
        let one = vec![safe[i].clone()];
        assert(texts_of(one@) =~= seq![safe@[i as int]@]);
        push_unit(&mut out, Arm::Oracle, one);
        assert(unit_list(out@) =~= head + safe@.take(i + 1).map_values(pick));
        i += 1;
    }
    assert(safe@.take(i as int) =~= safe@);
    push_policy(&mut out, Arm::PolicyStrict, &policy.strict);
    push_policy(&mut out, Arm::PolicyAll, &policy.all);
    push_policy(&mut out, Arm::PolicyW0, &policy.plain);
    assert(unit_list(out@) =~= units_of(
        played@,
        safe@,
        policy.strict@,
        policy.all@,
        policy.plain@,
    ));
    out
}

} // verus!
