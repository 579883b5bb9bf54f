//! What a player gets to know during a game, in the order in which it happened.

use crate::protocol::{Color, Role};
use vstd::prelude::*;

verus! {

/// One thing that a player observes. A foul carries the number of the move it was tried for, an
/// accepted move the number of the move after it.
#[derive(Debug, PartialEq, Eq)]
pub enum Observation {
    MyMove { move_number: u32, usi: String, captured: Option<Role> },
    MyFoul { move_number: u32, usi: String },
    OpponentMoved { move_number: u32, captured_my_piece_at: Option<String> },
    OpponentFoul { count: u32 },
    Check { in_check: Color },
}

/// The mathematical content of an observation.
pub enum Event {
    MyMove { move_number: u32, usi: Seq<char>, captured: Option<Role> },
    MyFoul { move_number: u32, usi: Seq<char> },
    OpponentMoved { move_number: u32, captured_at: Option<Seq<char>> },
    OpponentFoul { count: u32 },
    Check { in_check: Color },
}

impl View for Observation {
    type V = Event;

    open spec fn view(&self) -> Event {
        match self {
            Observation::MyMove { move_number, usi, captured } => Event::MyMove {
                move_number: *move_number,
                usi: usi@,
                captured: *captured,
            },
            Observation::MyFoul { move_number, usi } => Event::MyFoul {
                move_number: *move_number,
                usi: usi@,
            },
            Observation::OpponentMoved { move_number, captured_my_piece_at } => {
                Event::OpponentMoved {
                    move_number: *move_number,
                    captured_at: match captured_my_piece_at {
                        Some(sq) => Some(sq@),
                        None => None,
                    },
                }
            },
            Observation::OpponentFoul { count } => Event::OpponentFoul { count: *count },
            Observation::Check { in_check } => Event::Check { in_check: *in_check },
        }
    }
}

impl Clone for Observation {
    fn clone(&self) -> (res: Observation)
        ensures
            res == *self,
    {
        match self {
            Observation::MyMove { move_number, usi, captured } => Observation::MyMove {
                move_number: *move_number,
                usi: usi.clone(),
                captured: *captured,
            },
            Observation::MyFoul { move_number, usi } => Observation::MyFoul {
                move_number: *move_number,
                usi: usi.clone(),
            },
            Observation::OpponentMoved { move_number, captured_my_piece_at } => {
                Observation::OpponentMoved {
                    move_number: *move_number,
                    captured_my_piece_at: match captured_my_piece_at {
                        Some(sq) => Some(sq.clone()),
                        None => None,
                    },
                }
            },
            Observation::OpponentFoul { count } => Observation::OpponentFoul { count: *count },
            Observation::Check { in_check } => Observation::Check { in_check: *in_check },
        }
    }
}

/// The events of a sequence of observations.
pub open spec fn events_of(observations: Seq<Observation>) -> Seq<Event> {
    observations.map_values(|o: Observation| o@)
}

/// The observations of one player, oldest first.
#[derive(Debug)]
pub struct ObservationLog {
    pub events: Vec<Observation>,
}

impl View for ObservationLog {
    type V = Seq<Event>;

    open spec fn view(&self) -> Seq<Event> {
        events_of(self.events@)
    }
}

impl Default for ObservationLog {
    fn default() -> (res: ObservationLog)
        ensures
            res@ == Seq::<Event>::empty(),
    {
        let res = ObservationLog { events: Vec::new() };
        assert(res@ =~= Seq::<Event>::empty());
        res
    }
}

impl Clone for ObservationLog {
    fn clone(&self) -> (res: ObservationLog)
        ensures
            res@ == self@,
            res.events@ == self.events@,
    {
        let res = ObservationLog { events: self.events.clone() };
        assert(res.events@ =~= self.events@);
        res
    }
}

impl ObservationLog {
    /// Adds the newest observation.
    pub fn record(&mut self, obs: Observation)
        ensures
            final(self)@ == old(self)@.push(obs@),
            final(self).events@ == old(self).events@.push(obs),
    {
        self.events.push(obs);
        assert(self@ =~= old(self)@.push(obs@));
    }

    /// The observations, oldest first.
    pub fn events(&self) -> (res: &Vec<Observation>)
        ensures
            res@ == self.events@,
            events_of(res@) == self@,
    {
        &self.events
    }

    pub fn clear(&mut self)
        ensures
            final(self)@ == Seq::<Event>::empty(),
    {
        self.events.clear();
        assert(self@ =~= Seq::<Event>::empty());
    }
}

/// A log that holds the first `n` of the observations.
pub fn log_prefix(observations: &[Observation], n: usize) -> (res: ObservationLog)
    requires
        n <= observations@.len(),
    ensures
        res@ == events_of(observations@.take(n as int)),
{
    let mut log = ObservationLog::default();
    let mut i: usize = 0;
    assert(events_of(observations@.take(0)) =~= Seq::<Event>::empty());
    while i < n
        invariant
            i <= n <= observations@.len(),
            log@ == events_of(observations@.take(i as int)),
        decreases n - i,
    {
        log.record(observations[i].clone());
        assert(events_of(observations@.take(i + 1)) =~= events_of(observations@.take(i as int)).push(
            observations@[i as int]@,
        ));
        i += 1;
    }
    log
}

} // verus!
