//! Where a search for weights goes on: what its log says of the last step, and the best point so far.

use vstd::prelude::*;

verus! {

/// A line of the log. Scores are kept by a number that orders them.
#[derive(Clone, Copy, Debug, PartialEq, Eq)]
pub enum LogEvent {
    /// A run began, with this seed.
    Start { run_seed: Option<u64> },
    /// A point was tried. Without a score or a point the line says nothing.
    Eval { score: Option<i64> },
    /// A step was made. Without a point the line says nothing.
    Iter { k: u32, has_point: bool },
    Other,
}

/// Where to go on: the number of the next step, the line that holds the point, the seed and the line
/// of the last beginning, and the line of the best point.
#[derive(Clone, Copy, Debug, PartialEq, Eq)]
pub struct Resume {
    pub next_k: u32,
    pub point: usize,
    pub run_seed: Option<u64>,
    pub best: Option<usize>,
    pub config: Option<usize>,
}

/// Whether a line holds a point to go on from.
pub open spec fn is_step(e: LogEvent) -> bool {
    e matches LogEvent::Iter { has_point: true, .. }
}

/// Whether a line is the beginning of a run.
pub open spec fn is_start(e: LogEvent) -> bool {
    e is Start
}

/// The last line of a log of some form.
pub open spec fn last_line(events: Seq<LogEvent>, form: spec_fn(LogEvent) -> bool) -> Option<int>
    decreases events.len(),
{
    if events.len() == 0 {
        None
    } else if form(events.last()) {
        Some(events.len() - 1)
    } else {
        last_line(events.drop_last(), form)
    }
}

/// The score of a line.
pub open spec fn score_at(events: Seq<LogEvent>, i: int) -> Option<i64> {
    if 0 <= i < events.len() {
        match events[i] {
            LogEvent::Eval { score } => score,
            _ => None,
        }
    } else {
        None
    }
}

/// Whether a line holds the highest score, and is the first that does.
pub open spec fn is_best(events: Seq<LogEvent>, i: int) -> bool {
    &&& score_at(events, i) is Some
    &&& forall|j: int|
        (#[trigger] score_at(events, j)) is Some ==> if j < i {
            score_at(events, j)->0 < score_at(events, i)->0
        } else {
            score_at(events, j)->0 <= score_at(events, i)->0
        }
}

/// Whether a log holds no score.
pub open spec fn has_no_score(events: Seq<LogEvent>) -> bool {
    forall|j: int| (#[trigger] score_at(events, j)) is None
}

/// Reads where to go on. There is nothing to go on from without a step.
pub fn resume_state(events: &Vec<LogEvent>) -> (res: Option<Resume>)
    requires
        forall|i: int|
            0 <= i < events@.len() ==> (#[trigger] events@[i] matches LogEvent::Iter {
                k,
                has_point: true,
            } ==> k < u32::MAX),
    ensures
        match (res, last_line(events@, |e: LogEvent| is_step(e))) {
            (Some(r), Some(p)) => {
                &&& r.point == p
                &&& r.next_k == events@[p]->k + 1
                &&& match (r.config, last_line(events@, |e: LogEvent| is_start(e))) {
                    (Some(c), Some(s)) => c == s && r.run_seed == events@[s]->run_seed,
                    (None, None) => r.run_seed is None,
                    _ => false,
                }
                &&& match r.best {
                    Some(b) => is_best(events@, b as int),
                    None => has_no_score(events@),
                }
            },
            (None, None) => true,
            _ => false,
        },
{
    let mut step: Option<(u32, usize)> = None;
    let mut run_seed: Option<u64> = None;
    let mut config: Option<usize> = None;
    let mut best: Option<(i64, usize)> = None;
    let ghost steps = |e: LogEvent| is_step(e);
    let ghost starts = |e: LogEvent| is_start(e);
    let mut i: usize = 0;
    while i < events.len()
        invariant
            i <= events@.len(),
            forall|i: int|
                0 <= i < events@.len() ==> (#[trigger] events@[i] matches LogEvent::Iter {
                    k,
                    has_point: true,
                } ==> k < u32::MAX),
            steps == (|e: LogEvent| is_step(e)),
            starts == (|e: LogEvent| is_start(e)),
            match (step, last_line(events@.take(i as int), steps)) {
                (Some(s), Some(p)) => 0 <= p < i && s.1 == p && s.0 == events@[p]->k + 1,
                (None, None) => true,
                _ => false,
            },
            match (config, last_line(events@.take(i as int), starts)) {
                (Some(c), Some(s)) => 0 <= s < i && c == s && run_seed == events@[s]->run_seed,
                (None, None) => run_seed is None,
                _ => false,
            },
            match best {
                Some(b) => is_best(events@.take(i as int), b.1 as int) && score_at(
                    events@.take(i as int),
                    b.1 as int,
                ) == Some(b.0),
                None => has_no_score(events@.take(i as int)),
            },
        decreases events@.len() - i,
    {
        let ghost before = events@.take(i as int);
        let ghost after = events@.take(i + 1);
        proof {
            assert(after.drop_last() =~= before);
            assert(after.last() == events@[i as int]);
            assert forall|j: int| j != i implies #[trigger] score_at(after, j) == score_at(
                before,
                j,
            ) by {}
        }
        match events[i] {
            LogEvent::Start { run_seed: seed } => {
                run_seed = seed;
                config = Some(i);
            },
            LogEvent::Eval { score } => {
                if let Some(s) = score {
                    let better = match best {
                        Some(b) => s > b.0,
                        None => true,
                    };
                    if better {
                        best = Some((s, i));
                    }
                }
            },
            LogEvent::Iter { k, has_point } => {
                if has_point {
                    step = Some((k + 1, i));
                }
            },
            LogEvent::Other => {},
        }
        i += 1;
    }
    proof {
        assert(events@.take(events@.len() as int) =~= events@);
    }
    match step {
        Some(s) => Some(
            Resume {
                next_k: s.0,
                point: s.1,
                run_seed,
                best: match best {
                    Some(b) => Some(b.1),
                    None => None,
                },
                config,
            },
        ),
        None => None,
    }
}

/// No two lines are the best.
pub proof fn law_best_is_unique(events: Seq<LogEvent>, a: int, b: int)
    requires
        is_best(events, a),
        is_best(events, b),
    ensures
        a == b,
{
    assert(score_at(events, a) is Some);
    assert(score_at(events, b) is Some);
}

/// A step that is added to the log is the one to go on from, whatever stood before it.
pub proof fn law_added_step_leads(events: Seq<LogEvent>, k: u32)
    ensures
        last_line(
            events.push(LogEvent::Iter { k, has_point: true }),
            |e: LogEvent| is_step(e),
        ) == Some(events.len() as int),
{
    let all = events.push(LogEvent::Iter { k, has_point: true });
    assert(is_step(all.last()));
}

/// The last line of a form is of that form, and none behind it is; there is none only where no line is
/// of the form.
pub proof fn law_last_line(events: Seq<LogEvent>, form: spec_fn(LogEvent) -> bool)
    ensures
        match last_line(events, form) {
            Some(i) => 0 <= i < events.len() && form(events[i]) && forall|k: int|
                i < k < events.len() ==> !form(#[trigger] events[k]),
            None => forall|k: int| 0 <= k < events.len() ==> !form(#[trigger] events[k]),
        },
    decreases events.len(),
{
    if events.len() > 0 && !form(events.last()) {
        let r = events.drop_last();
        law_last_line(r, form);
        assert forall|k: int| 0 <= k < r.len() implies r[k] == events[k] by {}
        if last_line(r, form) is None {
            assert forall|k: int| 0 <= k < events.len() implies !form(#[trigger] events[k]) by {
                if k < r.len() {
                    assert(!form(r[k]));
                }
            }
        } else {
            let i = last_line(r, form)->0;
            assert forall|k: int| i < k < events.len() implies !form(#[trigger] events[k]) by {
                if k < r.len() {
                    assert(!form(r[k]));
                }
            }
        }
    }
}

/// The best point has a score, and no other evaluation has a greater one; of equal ones it is the
/// first.
pub proof fn law_best_score(events: Seq<LogEvent>, b: int, j: int, s: i64)
    requires
        is_best(events, b),
        0 <= j < events.len(),
        events[j] == (LogEvent::Eval { score: Some(s) }),
    ensures
        0 <= b < events.len(),
        events[b] matches LogEvent::Eval { score: Some(best) } && best >= s && (best == s ==> b <= j),
{
    assert(score_at(events, j) == Some(s));
    assert(score_at(events, b) is Some);
}

/// Only a step with a point is one to go on from, only the beginning of a run has its seed, and only a point
/// that was tried has a score.
pub proof fn law_lines(events: Seq<LogEvent>, i: int, k: u32, has_point: bool, score: Option<i64>, seed: Option<u64>)
    requires
        0 <= i < events.len(),
    ensures
        is_step(LogEvent::Iter { k, has_point }) <==> has_point,
        !is_step(LogEvent::Start { run_seed: seed }) && !is_step(LogEvent::Eval { score }) && !is_step(
            LogEvent::Other,
        ),
        is_start(LogEvent::Start { run_seed: seed }),
        !is_start(LogEvent::Iter { k, has_point }) && !is_start(LogEvent::Eval { score }) && !is_start(
            LogEvent::Other,
        ),
        events[i] == (LogEvent::Eval { score }) ==> score_at(events, i) == score,
        !(events[i] is Eval) ==> score_at(events, i) is None,
{
}

} // verus!
