//! The price of a foul and the move that leads the ranking: how candidates are ordered by their
//! scores, and the first price at which a move of the king leads.
//!
//! Scores are given by keys that keep their order.

use crate::board::Coord;
use crate::check::Hypothesis;
use crate::check_economy::is_king_move;
use crate::lists::{
    lemma_placed_by, lemma_sorted_by_keeps, lemma_sorted_by_len, lemma_sorted_by_orders, sorted_by,
};
use crate::protocol::Role;
use crate::shogi::{move_of_text, ShogiMove};
use crate::text::{before, comes_before, lemma_comes_before_chain, lemma_one_comes_first};
use vstd::prelude::*;

verus! {

/// A candidate with what its price depends on.
#[derive(Debug)]
pub struct PricedMove {
    pub usi: String,
    /// Its place in the ranking, by which its numbers are found.
    pub place: usize,
    /// Its score, without what chance has added.
    pub key: i64,
    pub is_king: bool,
}

/// The mathematical content of a `PricedMove`.
pub struct PricedModel {
    pub usi: Seq<char>,
    pub place: int,
    pub key: i64,
    pub is_king: bool,
}

impl View for PricedMove {
    type V = PricedModel;

    open spec fn view(&self) -> PricedModel {
        PricedModel {
            usi: self.usi@,
            place: self.place as int,
            key: self.key,
            is_king: self.is_king,
        }
    }
}

/// The contents of a list of candidates.
pub open spec fn priced_list(moves: Seq<PricedMove>) -> Seq<PricedModel> {
    moves.map_values(|m: PricedMove| m@)
}

/// Whether a text is a move from the king's square.
pub open spec fn moves_king(usi: Seq<char>, king: Option<Coord>) -> bool {
    match move_of_text(usi) {
        Some(ShogiMove::Board { from, to, promote }) => king == Some(from),
        _ => false,
    }
}

/// The candidate at a place of a ranking.
pub open spec fn priced_at(
    ranking: Seq<(String, i64)>,
    king: Option<Coord>,
    i: int,
) -> PricedModel {
    PricedModel {
        usi: ranking[i].0@,
        place: i,
        key: ranking[i].1,
        is_king: moves_king(ranking[i].0@, king),
    }
}

/// Whether a candidate may stand before another: a higher score, or an equal one and no later text.
pub open spec fn priced_before(a: PricedModel, b: PricedModel) -> bool {
    a.key > b.key || (a.key == b.key && !comes_before(b.usi, a.usi))
}

/// The candidates of a ranking by falling score; of equal scores the earlier text comes first.
pub open spec fn priced_order(
    ranking: Seq<(String, i64)>,
    king: Option<Coord>,
) -> Seq<PricedModel> {
    sorted_by(
        Seq::new(ranking.len(), |i: int| priced_at(ranking, king, i)),
        |a: PricedModel, b: PricedModel| priced_before(a, b),
    )
}

/// Orders the candidates of a ranking by their scores.
pub fn priced_moves(ranking: &Vec<(String, i64)>, king: Option<Coord>) -> (res: Vec<PricedMove>)
    ensures
        priced_list(res@) == priced_order(ranking@, king),
        res@.len() == ranking@.len(),
{
    let ghost le = |a: PricedModel, b: PricedModel| priced_before(a, b);
    let ghost all = Seq::new(ranking@.len(), |i: int| priced_at(ranking@, king, i));
    let mut out: Vec<PricedMove> = Vec::new();
    let mut i: usize = 0;
    assert(priced_list(out@) =~= Seq::<PricedModel>::empty());
    while i < ranking.len()
        invariant
            i <= ranking@.len(),
            le == (|a: PricedModel, b: PricedModel| priced_before(a, b)),
            all == Seq::new(ranking@.len(), |i: int| priced_at(ranking@, king, i)),
            priced_list(out@) == sorted_by(all.take(i as int), le),
        decreases ranking@.len() - i,
    {
        let entry = PricedMove {
            usi: ranking[i].0.clone(),
            place: i,
            key: ranking[i].1,
            is_king: is_king_move(ranking[i].0.as_str(), king),
        };
        let ghost x = all[i as int];
        assert(entry@ == x);
        let ghost sorted = priced_list(out@);
        let mut n: usize = out.len();
        while n > 0 && !(out[n - 1].key > entry.key || (out[n - 1].key == entry.key && !before(
            entry.usi.as_str(),
            out[n - 1].usi.as_str(),
        )))
            invariant
                n <= out@.len(),
                entry@ == x,
                sorted == priced_list(out@),
                le == (|a: PricedModel, b: PricedModel| priced_before(a, b)),
                forall|k: int| n <= k < sorted.len() ==> !le(#[trigger] sorted[k], x),
            decreases n,
        {
            assert(sorted[n - 1] == out@[n - 1]@);
            n -= 1;
        }
        proof {
            if n > 0 {
                assert(sorted[n - 1] == out@[n - 1]@);
                assert(le(sorted[n - 1], x));
            }
            lemma_placed_by(sorted, x, le, n as int);
            let t = all.take(i + 1);
            assert(t.drop_last() =~= all.take(i as int));
            assert(t.last() == x);
        }
        out.insert(n, entry);
        assert(priced_list(out@) =~= sorted.insert(n as int, x));
        i += 1;
    }
    proof {
        assert(all.take(i as int) =~= all);
        lemma_sorted_by_len(all, le);
    }
    out
}

/// Ordering the candidates loses none and adds none, and leaves each where it may stand before all
/// that follow.
pub proof fn law_priced_moves_are_the_ranking(ranking: Seq<(String, i64)>, king: Option<Coord>)
    ensures
        priced_order(ranking, king).to_multiset() == Seq::new(
            ranking.len(),
            |i: int| priced_at(ranking, king, i),
        ).to_multiset(),
        forall|i: int, j: int|
            0 <= i < j < ranking.len() ==> priced_before(
                #[trigger] priced_order(ranking, king)[i],
                #[trigger] priced_order(ranking, king)[j],
            ),
{
    let all = Seq::new(ranking.len(), |i: int| priced_at(ranking, king, i));
    let le = |a: PricedModel, b: PricedModel| priced_before(a, b);
    lemma_sorted_by_keeps(all, le);
    assert forall|a: PricedModel, b: PricedModel| #[trigger] le(a, b) || le(b, a) by {
        lemma_one_comes_first(a.usi, b.usi);
    }
    assert forall|a: PricedModel, b: PricedModel, c: PricedModel| #[trigger]
        le(a, b) && #[trigger] le(b, c) implies le(a, c) by {
        lemma_one_comes_first(a.usi, b.usi);
        if a.key == c.key && comes_before(c.usi, a.usi) && a.usi != b.usi {
            lemma_comes_before_chain(c.usi, a.usi, b.usi);
        }
    }
    lemma_sorted_by_orders(all, le);
    assert forall|i: int, j: int| 0 <= i < j < ranking.len() implies priced_before(
        #[trigger] priced_order(ranking, king)[i],
        #[trigger] priced_order(ranking, king)[j],
    ) by {
        assert(le(sorted_by(all, le)[i], sorted_by(all, le)[j]));
    }
}

/// The leader among the first `n` candidates at some price: the highest score, of equal ones the
/// earlier text, of equal texts the first.
pub open spec fn leader(moves: Seq<PricedModel>, keys: Seq<i64>, n: int) -> Option<int>
    decreases n,
{
    if n <= 0 {
        None
    } else {
        match leader(moves, keys, n - 1) {
            Some(b) => if keys[n - 1] > keys[b] || (keys[n - 1] == keys[b] && comes_before(
                moves[n - 1].usi,
                moves[b].usi,
            )) {
                Some(n - 1)
            } else {
                Some(b)
            },
            None => Some(n - 1),
        }
    }
}

/// The leader at some price; `keys` are the scores at that price.
pub fn argmax_at(moves: &Vec<PricedMove>, keys: &Vec<i64>) -> (res: Option<usize>)
    requires
        keys@.len() == moves@.len(),
    ensures
        match res {
            Some(i) => i < moves@.len() && leader(priced_list(moves@), keys@, moves@.len() as int)
                == Some(i as int),
            None => moves@.len() == 0 && leader(
                priced_list(moves@),
                keys@,
                moves@.len() as int,
            ) is None,
        },
{
    let ghost all = priced_list(moves@);
    let mut best: Option<usize> = None;
    let mut i: usize = 0;
    while i < moves.len()
        invariant
            i <= moves@.len(),
            keys@.len() == moves@.len(),
            all == priced_list(moves@),
            match best {
                Some(b) => b < i && leader(all, keys@, i as int) == Some(b as int),
                None => i == 0,
            },
        decreases moves@.len() - i,
    {
        assert(all[i as int] == moves@[i as int]@);
        best = match best {
            Some(b) => {
                assert(all[b as int] == moves@[b as int]@);
                if keys[i] > keys[b] || (keys[i] == keys[b] && before(
                    moves[i].usi.as_str(),
                    moves[b].usi.as_str(),
                )) {
                    Some(i)
                } else {
                    Some(b)
                }
            },
            None => Some(i),
        };
        i += 1;
    }
    best
}

/// No candidate has a higher score than the leader, and none with the same score an earlier text.
pub proof fn law_leader_leads(moves: Seq<PricedModel>, keys: Seq<i64>, n: int, k: int)
    requires
        0 <= k < n <= moves.len(),
        keys.len() == moves.len(),
    ensures
        leader(moves, keys, n) matches Some(b) && 0 <= b < n && (keys[k] < keys[b] || (keys[k]
            == keys[b] && !comes_before(moves[k].usi, moves[b].usi))),
    decreases n,
{
    if n == 1 {
        assert(leader(moves, keys, 0) is None);
        lemma_one_comes_first(moves[0].usi, moves[0].usi);
    } else {
        law_leader_leads(moves, keys, n - 1, 0);
        let b = leader(moves, keys, n - 1)->0;
        let top = leader(moves, keys, n)->0;
        if k < n - 1 {
            law_leader_leads(moves, keys, n - 1, k);
            if top == n - 1 && keys[k] == keys[top] {
                if comes_before(moves[k].usi, moves[top].usi) {
                    lemma_comes_before_chain(moves[k].usi, moves[top].usi, moves[b].usi);
                }
            }
        } else {
            lemma_one_comes_first(moves[k].usi, moves[k].usi);
        }
    }
}

/// Whether a move of the king leads at a price.
pub open spec fn king_leads(moves: Seq<PricedModel>, keys: Seq<i64>) -> bool {
    leader(moves, keys, moves.len() as int) matches Some(i) && moves[i].is_king
}

/// The first of several rising prices at which a move of the king leads; `rows` are the scores at
/// each. Nothing comes back where none does.
pub fn k_star(moves: &Vec<PricedMove>, rows: &Vec<Vec<i64>>) -> (res: Option<usize>)
    requires
        forall|r: int| 0 <= r < rows@.len() ==> (#[trigger] rows@[r])@.len() == moves@.len(),
    ensures
        match res {
            Some(r) => {
                &&& r < rows@.len()
                &&& king_leads(priced_list(moves@), rows@[r as int]@)
                &&& forall|q: int|
                    0 <= q < r ==> !king_leads(priced_list(moves@), (#[trigger] rows@[q])@)
            },
            None => forall|q: int|
                0 <= q < rows@.len() ==> !king_leads(priced_list(moves@), (#[trigger] rows@[q])@),
        },
{
    let mut r: usize = 0;
    while r < rows.len()
        invariant
            r <= rows@.len(),
            forall|q: int| 0 <= q < rows@.len() ==> (#[trigger] rows@[q])@.len() == moves@.len(),
            forall|q: int|
                0 <= q < r ==> !king_leads(priced_list(moves@), (#[trigger] rows@[q])@),
        decreases rows@.len() - r,
    {
        assert(rows@[r as int]@.len() == moves@.len());
        if let Some(i) = argmax_at(moves, &rows[r]) {
            assert(priced_list(moves@)[i as int] == moves@[i as int]@);
            if moves[i].is_king {
                return Some(r);
            }
        }
        r += 1;
    }
    None
}

/// Whether a hypothesis is the truth: such a piece gives check from that square.
pub open spec fn is_true_hypothesis(h: Hypothesis, checkers: Seq<(Coord, Role)>) -> bool {
    checkers.contains((h.square, h.role))
}

/// The places of the hypotheses that are the truth. The weight on them tells how much is known of the
/// check.
pub fn hypothesis_hits(hypotheses: &Vec<Hypothesis>, checkers: &Vec<(Coord, Role)>) -> (res: Vec<usize>)
    ensures
        res@.map_values(|i: usize| i as int) == Seq::new(hypotheses@.len(), |i: int| i).filter(
            |i: int| is_true_hypothesis(hypotheses@[i], checkers@),
        ),
{
    let ghost all = Seq::new(hypotheses@.len(), |i: int| i);
    let ghost good = |i: int| is_true_hypothesis(hypotheses@[i], checkers@);
    let ghost wide = |i: usize| i as int;
    let mut out: Vec<usize> = Vec::new();
    let mut i: usize = 0;
    assert(all.take(0).filter(good) =~= Seq::<int>::empty()) by {
        reveal(Seq::filter);
    }
    assert(out@.map_values(wide) =~= Seq::<int>::empty());
    while i < hypotheses.len()
        invariant
            i <= hypotheses@.len(),
            all == Seq::new(hypotheses@.len(), |i: int| i),
            good == (|i: int| is_true_hypothesis(hypotheses@[i], checkers@)),
            wide == (|i: usize| i as int),
            out@.map_values(wide) == all.take(i as int).filter(good),
        decreases hypotheses@.len() - i,
    {
        let ghost start = out@;
        proof {
            assert(all.take(i + 1) =~= all.take(i as int).push(i as int));
            all.take(i as int).lemma_filter_push(i as int, good);
        }
        let h = hypotheses[i];
        let mut found = false;
        let mut k: usize = 0;
        while k < checkers.len() && !found
            invariant
                k <= checkers@.len(),
                found ==> checkers@.contains((h.square, h.role)),
                !found ==> forall|j: int|
                    0 <= j < k ==> #[trigger] checkers@[j] != (h.square, h.role),
            decreases checkers@.len() - k,
        {
            if checkers[k].0 == h.square && checkers[k].1 == h.role {
                assert(checkers@[k as int] == (h.square, h.role));
                found = true;
            }
            k += 1;
        }
        if found {
            out.push(i);
            assert(out@.map_values(wide) =~= start.map_values(wide).push(i as int));
        }
        i += 1;
    }
    assert(all.take(i as int) =~= all);
    out
}

} // verus!
