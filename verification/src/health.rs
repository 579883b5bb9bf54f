//! Replaying a player's observations into an estimator: when it is brought up to date, when it is
//! looked at, and what is counted.

use crate::observation::{events_of, Event, Observation};
use vstd::prelude::*;

verus! {

/// The part of a game that a move number belongs to: two of twenty moves, and the rest.
pub open spec fn part_of_game(move_number: u32) -> int {
    if move_number <= 20 {
        0
    } else if move_number <= 40 {
        1
    } else {
        2
    }
}

/// The part of a game that a move number belongs to.
pub fn bucket(move_number: u32) -> (res: usize)
    ensures
        res == part_of_game(move_number),
        res < 3,
{
    if move_number <= 20 {
        0
    } else if move_number <= 40 {
        1
    } else {
        2
    }
}

/// A step of a replay.
#[derive(Clone, Copy, Debug, PartialEq, Eq, Structural)]
pub struct HealthStep {
    /// How many observations have been handed over.
    pub upto: usize,
    /// Whether the estimator is brought up to date.
    pub update: bool,
    /// The move number under which the estimator is looked at.
    pub measure: Option<u32>,
}

/// Whether an observation is a move of either side. A check that follows belongs to it.
pub open spec fn is_move(e: Event) -> bool {
    e is OpponentMoved || e is MyMove
}

/// How far the step that begins with an observation reaches: over the check that belongs to a move.
pub open spec fn step_end(events: Seq<Event>, i: int) -> int {
    if is_move(events[i]) && i + 1 < events.len() && events[i + 1] is Check {
        i + 2
    } else {
        i + 1
    }
}

/// The step that begins with an observation.
pub open spec fn step_at(events: Seq<Event>, i: int) -> HealthStep {
    HealthStep {
        upto: step_end(events, i) as usize,
        update: events[i] is OpponentMoved || events[i] is MyFoul,
        measure: match events[i] {
            Event::OpponentMoved { move_number, captured_at } => Some(move_number),
            _ => None,
        },
    }
}

/// The steps of a replay from an observation on.
pub open spec fn steps_from(events: Seq<Event>, i: int) -> Seq<HealthStep>
    decreases events.len() - i,
{
    if i < 0 || i >= events.len() {
        Seq::empty()
    } else {
        seq![step_at(events, i)] + steps_from(events, step_end(events, i))
    }
}

/// Lays out the replay of a player's observations. The check after a move is handed over with the
/// move, before the estimator is brought up to date.
pub fn health_steps(observations: &Vec<Observation>) -> (res: Vec<HealthStep>)
    ensures
        res@ == steps_from(events_of(observations@), 0),
{
    let ghost events = events_of(observations@);
    let n: usize = observations.len();
    let mut out: Vec<HealthStep> = Vec::new();
    let mut i: usize = 0;
    while i < n
        invariant
            i <= n,
            n == observations@.len(),
            events == events_of(observations@),
            steps_from(events, 0) == out@ + steps_from(events, i as int),
        decreases n - i,
    {
        let ghost before_ = out@;
        assert(events[i as int] == observations@[i as int]@);
        let (moved, update, measure) = match &observations[i] {
            Observation::OpponentMoved { move_number, captured_my_piece_at: _ } => (
                true,
                true,
                Some(*move_number),
            ),
            Observation::MyMove { move_number: _, usi: _, captured: _ } => (true, false, None),
            Observation::MyFoul { move_number: _, usi: _ } => (false, true, None),
            _ => (false, false, None),
        };
        let mut upto: usize = i + 1;
        if moved && upto < n {
            assert(events[i + 1] == observations@[i + 1]@);
            if let Observation::Check { in_check: _ } = &observations[upto] {
                upto += 1;
            }
        }
        let step = HealthStep { upto, update, measure };
        assert(step == step_at(events, i as int));
        out.push(step);
        assert(out@ + steps_from(events, upto as int) =~= before_ + (seq![step] + steps_from(
            events,
            upto as int,
        )));
        i = upto;
    }
    assert(out@ + steps_from(events, i as int) =~= out@);
    out
}

/// The steps hand over every observation in order, none twice, and a check never without the move
/// before it.
pub proof fn law_steps_hand_over_everything(events: Seq<Event>, i: int)
    requires
        0 <= i < events.len(),
        events.len() <= usize::MAX,
    ensures
        ({
            let steps = steps_from(events, i);
            &&& steps.len() > 0
            &&& steps.last().upto == events.len()
            &&& steps[0].upto > i
            &&& forall|a: int, b: int|
                0 <= a < b < steps.len() ==> (#[trigger] steps[a]).upto < (#[trigger] steps[b]).upto
            &&& forall|a: int|
                0 <= a < steps.len() && (#[trigger] steps[a]).upto < events.len()
                    && events[steps[a].upto as int] is Check ==> !is_move(
                    events[steps[a].upto - 1],
                )
        }),
    decreases events.len() - i,
{
    let next = step_end(events, i);
    let steps = steps_from(events, i);
    if next < events.len() {
        law_steps_hand_over_everything(events, next);
        let rest = steps_from(events, next);
        assert(steps.last() == rest.last());
        assert forall|a: int, b: int| 0 <= a < b < steps.len() implies (#[trigger] steps[a]).upto < (
        #[trigger] steps[b]).upto by {
            assert(steps[b] == rest[b - 1]);
            if a > 0 {
                assert(steps[a] == rest[a - 1]);
            } else if b > 1 {
                assert(rest[0].upto < rest[b - 1].upto);
            }
        }
        assert forall|a: int|
            0 <= a < steps.len() && (#[trigger] steps[a]).upto < events.len()
                && events[steps[a].upto as int] is Check implies !is_move(
            events[steps[a].upto - 1],
        ) by {
            if a > 0 {
                assert(steps[a] == rest[a - 1]);
            } else {
                assert(steps[0] == step_at(events, i));
                assert(next == i + 1 || next == i + 2);
                if next == i + 2 {
                    assert(events[i + 1] is Check);
                }
            }
        }
    } else {
        assert(steps_from(events, next) =~= Seq::<HealthStep>::empty());
        assert(steps =~= seq![step_at(events, i)]);
    }
}

/// How many different numbers there are among the first `n`.
pub open spec fn different(prints: Seq<u64>, n: int) -> nat
    decreases n,
{
    if n <= 0 {
        0
    } else {
        different(prints, n - 1) + (if prints.take(n - 1).contains(prints[n - 1]) {
            0nat
        } else {
            1nat
        })
    }
}

/// More numbers are never fewer different ones.
proof fn lemma_different_grows(prints: Seq<u64>, a: int, b: int)
    requires
        a <= b,
    ensures
        different(prints, a) <= different(prints, b),
    decreases b - a,
{
    if a < b {
        lemma_different_grows(prints, a, b - 1);
    }
}

/// How many different fingerprints there are, but no more than a cap.
pub fn unique_up_to(prints: &Vec<u64>, cap: usize) -> (res: usize)
    ensures
        res == (if different(prints@, prints@.len() as int) < cap {
            different(prints@, prints@.len() as int) as int
        } else {
            cap as int
        }),
{
    let mut count: usize = 0;
    let mut i: usize = 0;
    while i < prints.len()
        invariant
            i <= prints@.len(),
            count <= i,
            count <= cap,
            count == different(prints@, i as int),
        decreases prints@.len() - i,
    {
        proof {
            lemma_different_grows(prints@, i as int, prints@.len() as int);
        }
        if count >= cap {
            return count;
        }
        let mut known = false;
        let mut j: usize = 0;
        while j < i
            invariant
                j <= i < prints@.len(),
                known == prints@.take(j as int).contains(prints@[i as int]),
            decreases i - j,
        {
            proof {
                let t = prints@.take(j + 1);
                let x = prints@[i as int];
                assert(t =~= prints@.take(j as int).push(prints@[j as int]));
                assert(t[j as int] == prints@[j as int]);
                if prints@.take(j as int).contains(x) {
                    let k = choose|k: int| 0 <= k < j && prints@.take(j as int)[k] == x;
                    assert(t[k] == x);
                }
                if t.contains(x) && prints@[j as int] != x {
                    let k = choose|k: int| 0 <= k < t.len() && t[k] == x;
                    assert(prints@.take(j as int)[k] == x);
                }
            }
            if prints[j] == prints[i] {
                known = true;
            }
            j += 1;
        }
        if !known {
            count += 1;
        }
        i += 1;
    }
    count
}

/// What was seen at many moves of a part of the games.
#[derive(Clone, Copy, Debug, PartialEq, Eq)]
pub struct HealthStat {
    /// The sum of the different samples.
    pub unique: u64,
    /// How often the estimator was healthy.
    pub healthy: u64,
    /// How often it was looked at.
    pub n: u64,
}

impl HealthStat {
    pub fn new() -> (res: HealthStat)
        ensures
            res == (HealthStat { unique: 0, healthy: 0, n: 0 }),
    {
        HealthStat { unique: 0, healthy: 0, n: 0 }
    }

    /// Adds a look at the estimator.
    pub fn count(&mut self, unique: u32, healthy: bool)
        requires
            old(self).unique + unique <= u64::MAX,
            healthy ==> old(self).healthy < u64::MAX,
            old(self).n < u64::MAX,
        ensures
            final(self).unique == old(self).unique + unique,
            final(self).healthy == old(self).healthy + (if healthy {
                1int
            } else {
                0int
            }),
            final(self).n == old(self).n + 1,
    {
        self.unique += unique as u64;
        if healthy {
            self.healthy += 1;
        }
        self.n += 1;
    }
}

/// As many different values are counted as there are.
pub proof fn law_different_values(prints: Seq<u64>, n: int)
    requires
        0 <= n <= prints.len(),
    ensures
        different(prints, n) == prints.take(n).to_set().len(),
        prints.take(n).to_set().finite(),
    decreases n,
{
    let t = prints.take(n);
    vstd::seq_lib::seq_to_set_is_finite(t);
    if n == 0 {
        assert(t.to_set() =~= Set::<u64>::empty());
    } else {
        let r = prints.take(n - 1);
        law_different_values(prints, n - 1);
        assert(t =~= r.push(prints[n - 1]));
        assert(t.to_set() =~= r.to_set().insert(prints[n - 1])) by {
            assert forall|x: u64| t.to_set().contains(x) <==> r.to_set().insert(
                prints[n - 1],
            ).contains(x) by {
                if r.contains(x) {
                    let k = choose|k: int| 0 <= k < r.len() && r[k] == x;
                    assert(t[k] == x);
                }
                assert(t[n - 1] == prints[n - 1]);
                if t.contains(x) && x != prints[n - 1] {
                    let k = choose|k: int| 0 <= k < t.len() && t[k] == x;
                    assert(r[k] == x);
                }
            }
        }
    }
}

/// The estimator is brought up to date at the opponent's moves and at own fouls, and looked at after
/// the opponent's moves, under the number of the move. A check goes together with the move before it.
pub proof fn law_steps_of_observations(events: Seq<Event>, i: int)
    requires
        0 <= i < events.len() < usize::MAX - 2,
    ensures
        ({
            let s = steps_from(events, i)[0];
            let goes_on = (events[i] is OpponentMoved || events[i] is MyMove) && i + 1 < events.len()
                && events[i + 1] is Check;
            &&& s.update <==> events[i] is OpponentMoved || events[i] is MyFoul
            &&& s.measure is Some <==> events[i] is OpponentMoved
            &&& events[i] matches Event::OpponentMoved { move_number, captured_at } ==> s.measure
                == Some(move_number)
            &&& s.upto == (if goes_on {
                i + 2
            } else {
                i + 1
            })
            &&& steps_from(events, i).skip(1) == steps_from(events, s.upto as int)
        }),
{
    let s = step_at(events, i);
    let rest = steps_from(events, step_end(events, i));
    assert(steps_from(events, i) =~= seq![s] + rest);
    assert((seq![s] + rest).skip(1) =~= rest);
}

/// The parts of a game follow each other, the first two with twenty moves each.
pub proof fn law_parts_of_a_game(n: u32)
    ensures
        n <= 20 <==> part_of_game(n) == 0,
        20 < n <= 40 <==> part_of_game(n) == 1,
        n > 40 <==> part_of_game(n) == 2,
{
}

} // verus!
