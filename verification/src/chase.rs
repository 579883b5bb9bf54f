//! How much checks in a row add to the fouls: how often they come, and what cover changes.

use crate::check_prep::{ChaseClass, ChaseEvent};
use crate::lists::{lemma_filter_contains_iff, lemma_filter_push};
use vstd::prelude::*;

verus! {

/// Whether the cover that answers a class of checks was there.
pub open spec fn has_cover(e: ChaseEvent, class: ChaseClass) -> bool {
    if class is AtPrevKing {
        e.prev_king_covered
    } else {
        e.checkers_covered
    }
}

/// The events of a class with the cover, or without it.
pub open spec fn of_side(
    events: Seq<ChaseEvent>,
    class: ChaseClass,
    cover: bool,
) -> Seq<ChaseEvent> {
    events.filter(|e: ChaseEvent| e.class == class && has_cover(e, class) == cover)
}

/// The fouls of some events.
pub open spec fn fouls_of(events: Seq<ChaseEvent>) -> nat {
    events.fold_left(0nat, |sum: nat, e: ChaseEvent| sum + e.fouls as nat)
}

/// What the contribution of a class is made of: it is the share of the class in all events, times
/// the difference of the mean fouls without and with cover.
#[derive(Clone, Copy, Debug, PartialEq, Eq)]
pub struct Contribution {
    pub events: usize,
    pub covered: usize,
    pub covered_fouls: u128,
    pub open: usize,
    pub open_fouls: u128,
}

/// Counts the events of a class. Nothing is returned where a side is empty: no difference is
/// defined then.
pub fn chase_contribution(events: &Vec<ChaseEvent>, class: ChaseClass) -> (res: Option<Contribution>)
    ensures
        ({
            let with = of_side(events@, class, true);
            let without = of_side(events@, class, false);
            match res {
                Some(c) => {
                    &&& with.len() > 0 && without.len() > 0
                    &&& c.events == events@.len()
                    &&& c.covered == with.len()
                    &&& c.covered_fouls == fouls_of(with)
                    &&& c.open == without.len()
                    &&& c.open_fouls == fouls_of(without)
                },
                None => with.len() == 0 || without.len() == 0,
            }
        }),
{
    let total: usize = events.len();
    let mut covered: usize = 0;
    let mut covered_fouls: u128 = 0;
    let mut open: usize = 0;
    let mut open_fouls: u128 = 0;
    let mut i: usize = 0;
    proof {
        reveal(Seq::filter);
        assert(events@.take(0) =~= Seq::<ChaseEvent>::empty());
    }
    while i < total
        invariant
            i <= total,
            total == events@.len(),
            covered == of_side(events@.take(i as int), class, true).len(),
            covered_fouls == fouls_of(of_side(events@.take(i as int), class, true)),
            open == of_side(events@.take(i as int), class, false).len(),
            open_fouls == fouls_of(of_side(events@.take(i as int), class, false)),
            covered + open <= i,
            covered_fouls <= i * u32::MAX,
            open_fouls <= i * u32::MAX,
        decreases total - i,
    {
        let e = &events[i];
        let ghost head = events@.take(i as int);
        proof {
            assert(events@.take(i + 1) =~= head.push(*e));
            lemma_side_push(head, *e, class, true);
            lemma_side_push(head, *e, class, false);
            assert(i * u32::MAX + u32::MAX == (i + 1) * u32::MAX) by (nonlinear_arith);
            assert((i + 1) * u32::MAX <= usize::MAX * u32::MAX) by (nonlinear_arith)
                requires
                    i + 1 <= usize::MAX,
            ;
            assert(usize::MAX * u32::MAX <= u128::MAX);
        }
        if e.class == class {
            let cover = match class {
                ChaseClass::AtPrevKing => e.prev_king_covered,
                _ => e.checkers_covered,
            };
            if cover {
                covered += 1;
                covered_fouls = covered_fouls + e.fouls as u128;
            } else {
                open += 1;
                open_fouls = open_fouls + e.fouls as u128;
            }
        }
        i += 1;
    }
    proof {
        assert(events@.take(total as int) =~= events@);
    }
    if covered == 0 || open == 0 {
        None
    } else {
        Some(Contribution { events: total, covered, covered_fouls, open, open_fouls })
    }
}

proof fn lemma_side_push(events: Seq<ChaseEvent>, e: ChaseEvent, class: ChaseClass, cover: bool)
    ensures
        ({
            let before = of_side(events, class, cover);
            let after = of_side(events.push(e), class, cover);
            if e.class == class && has_cover(e, class) == cover {
                after == before.push(e) && fouls_of(after) == fouls_of(before) + e.fouls
            } else {
                after == before
            }
        }),
{
    reveal(Seq::filter);
    assert(events.push(e).drop_last() =~= events);
    let before = of_side(events, class, cover);
    assert(before.push(e).drop_last() =~= before);
    reveal_with_fuel(Seq::fold_left, 2);
}

/// An event counts for its own class only, and there on one side: against checks on the square that the
/// king has left, with cover where that square was covered; against others, where the checkers were.
pub proof fn law_sides_of_a_class(events: Seq<ChaseEvent>, e: ChaseEvent, class: ChaseClass)
    ensures
        ({
            let cover = if class == ChaseClass::AtPrevKing {
                e.prev_king_covered
            } else {
                e.checkers_covered
            };
            &&& of_side(events, class, true).contains(e) <==> events.contains(e) && e.class == class
                && cover
            &&& of_side(events, class, false).contains(e) <==> events.contains(e) && e.class == class
                && !cover
        }),
        of_side(events, class, true).len() + of_side(events, class, false).len() == events.filter(
            |x: ChaseEvent| x.class == class,
        ).len(),
    decreases events.len(),
{
    let with = |x: ChaseEvent| x.class == class && has_cover(x, class) == true;
    let without = |x: ChaseEvent| x.class == class && has_cover(x, class) == false;
    lemma_filter_contains_iff(events, with, e);
    lemma_filter_contains_iff(events, without, e);
    if events.len() == 0 {
        reveal(Seq::filter);
    } else {
        let head = events.drop_last();
        let last = events.last();
        assert(head.push(last) =~= events);
        law_sides_of_a_class(head, e, class);
        lemma_filter_push(head, last, with);
        lemma_filter_push(head, last, without);
        lemma_filter_push(head, last, |x: ChaseEvent| x.class == class);
    }
}

/// The fouls of a list add up, event by event.
pub proof fn law_fouls_add_up(a: Seq<ChaseEvent>, e: ChaseEvent)
    ensures
        fouls_of(a.push(e)) == fouls_of(a) + e.fouls,
        fouls_of(Seq::empty()) == 0,
{
    assert(a.push(e).drop_last() =~= a);
    reveal_with_fuel(Seq::fold_left, 2);
}

} // verus!
