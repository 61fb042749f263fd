use vstd::prelude::*;
use std::time::Instant;

verus! {

/// The number of nodes between two looks at the clock.
pub const TIME_CHECK_INTERVAL: usize = 4096;

/// A point in time, as the standard library measures it.
#[verifier::external_type_specification]
#[verifier::external_body]
pub struct ExInstant(Instant);

/// `Instant::now` gives the present time: nothing is known of it.
#[verifier::external_body]
pub(crate) fn current_instant() -> (r: Instant) {
    Instant::now()
}

/// `Instant::elapsed` gives the time since `start`, here in
/// microseconds: nothing is known of it.
#[verifier::external_body]
fn elapsed_since(start: &Instant) -> (r: u128) {
    start.elapsed().as_micros()
}

/// The time `t` as a number of 64 bits; a time too long for that counts
/// as the longest.
pub fn capped_micros(t: u128) -> (r: u64)
    ensures
        r == if t > u64::MAX {
            u64::MAX as int
        } else {
            t as int
        },
{
    if t > u64::MAX as u128 {
        u64::MAX
    } else {
        t as u64
    }
}

/// The time since `start` in microseconds, of which nothing is known; a
/// time too long for 64 bits counts as the longest.
fn elapsed_micros(start: &Instant) -> (r: u64) {
    capped_micros(elapsed_since(start))
}

/// The smaller of two numbers.
pub open spec fn min_of(a: int, b: int) -> int {
    if a <= b {
        a
    } else {
        b
    }
}

/// Shares the time that is left on the clock among the moves to come.
#[derive(Clone, Copy, Debug)]
pub struct TimeManager {
    pub max_time: u64,
}

impl TimeManager {
    /// The time for one move, in microseconds, with `remaining` on the
    /// clock and `increment` added for each move: a twentieth of what
    /// remains and the increment, but no more than four fifths of what
    /// remains.
    pub open spec fn budget(remaining: int, increment: int) -> int {
        min_of(min_of(remaining / 20 + increment, u64::MAX as int), (remaining * 4) / 5)
    }

    pub fn new(remaining: u64, increment: u64) -> (r: TimeManager)
        ensures
            r.max_time == TimeManager::budget(remaining as int, increment as int),
    {
        let time = (remaining / 20).saturating_add(increment);
        let most = remaining / 5 * 4 + (remaining % 5) * 4 / 5;
        let time = if time <= most {
            time
        } else {
            most
        };
        TimeManager { max_time: time }
    }

    /// Whether the time for the move is used up after `time` microseconds.
    pub fn should_stop(&self, _nodes: usize, time: u64) -> (r: bool)
        ensures
            r == (time >= self.max_time),
    {
        time >= self.max_time
    }
}

/// The bounds of one search: a number of nodes, which may be another
/// between two depths than within one, a time for the move, or a share of
/// the time on the clock. Times are in microseconds.
#[derive(Clone, Copy, Debug)]
pub struct Limits {
    pub start_time: Instant,
    pub nodes: Option<usize>,
    pub soft_nodes: Option<usize>,
    pub hard_nodes: Option<usize>,
    pub movetime: Option<u64>,
    pub time_manager: Option<TimeManager>,
}

impl Limits {
    /// Whether there is no bound at all.
    pub open spec fn unbounded(&self) -> bool {
        &&& self.nodes.is_none()
        &&& self.soft_nodes.is_none()
        &&& self.hard_nodes.is_none()
        &&& self.movetime.is_none()
        &&& self.time_manager.is_none()
    }

    /// Whether `nodes` nodes reach the bound on nodes, if there is one.
    pub open spec fn nodes_reached(&self, nodes: usize) -> bool {
        self.nodes.is_some() && nodes >= self.nodes.unwrap()
    }

    /// Whether `nodes` nodes reach a bound that holds between two depths.
    pub open spec fn soft_nodes_reached(&self, nodes: usize) -> bool {
        self.nodes_reached(nodes) || (self.soft_nodes.is_some() && nodes >= self.soft_nodes.unwrap())
    }

    /// Whether `nodes` nodes reach a bound that holds within a depth.
    pub open spec fn hard_nodes_reached(&self, nodes: usize) -> bool {
        self.nodes_reached(nodes) || (self.hard_nodes.is_some() && nodes >= self.hard_nodes.unwrap())
    }

    /// Whether `time` microseconds reach a bound on time, if there is one.
    pub open spec fn time_reached(&self, time: u64) -> bool {
        ||| self.movetime.is_some() && time >= self.movetime.unwrap()
        ||| self.time_manager.is_some() && time >= self.time_manager.unwrap().max_time
    }

    /// Whether a search should end between two depths, after `nodes` nodes
    /// and `time` microseconds.
    pub open spec fn soft_stop(&self, nodes: usize, time: u64) -> bool {
        self.soft_nodes_reached(nodes) || self.time_reached(time)
    }

    /// Whether a search should end at once, after `nodes` nodes and `time`
    /// microseconds. The time counts only at each 4096th node.
    pub open spec fn hard_stop(&self, nodes: usize, time: u64) -> bool {
        self.hard_nodes_reached(nodes) || (nodes > 0 && nodes % TIME_CHECK_INTERVAL == 0
            && self.time_reached(time))
    }

    /// No bounds, for a search that starts at `start_time`.
    pub fn new(start_time: Instant) -> (r: Limits)
        ensures
            r.start_time == start_time,
            r.nodes.is_none(),
            r.soft_nodes.is_none(),
            r.hard_nodes.is_none(),
            r.movetime.is_none(),
            r.time_manager.is_none(),
    {
        Limits {
            start_time,
            nodes: None,
            soft_nodes: None,
            hard_nodes: None,
            movetime: None,
            time_manager: None,
        }
    }

    /// Sets the bound on nodes that holds between two depths, unless one
    /// is set. Returns whether it was set.
    pub fn set_soft_nodes(&mut self, nodes: usize) -> (r: bool)
        ensures
            r == old(self).soft_nodes.is_none(),
            r ==> *final(self) == (Limits { soft_nodes: Some(nodes), ..*old(self) }),
            !r ==> *final(self) == *old(self),
    {
        match self.soft_nodes {
            None => {
                self.soft_nodes = Some(nodes);
                true
            },
            Some(_) => false,
        }
    }

    /// Sets the bound on nodes that holds within a depth, unless one is
    /// set. Returns whether it was set.
    pub fn set_hard_nodes(&mut self, nodes: usize) -> (r: bool)
        ensures
            r == old(self).hard_nodes.is_none(),
            r ==> *final(self) == (Limits { hard_nodes: Some(nodes), ..*old(self) }),
            !r ==> *final(self) == *old(self),
    {
        match self.hard_nodes {
            None => {
                self.hard_nodes = Some(nodes);
                true
            },
            Some(_) => false,
        }
    }

    /// Sets the bound on nodes, unless one is set. Returns whether it was set.
    pub fn set_nodes(&mut self, nodes: usize) -> (r: bool)
        ensures
            r == old(self).nodes.is_none(),
            r ==> *final(self) == (Limits { nodes: Some(nodes), ..*old(self) }),
            !r ==> *final(self) == *old(self),
    {
        match self.nodes {
            None => {
                self.nodes = Some(nodes);
                true
            },
            Some(_) => false,
        }
    }

    /// Sets the time for the move, in microseconds, unless one is set.
    /// Returns whether it was set.
    pub fn set_movetime(&mut self, movetime: u64) -> (r: bool)
        ensures
            r == old(self).movetime.is_none(),
            r ==> *final(self) == (Limits { movetime: Some(movetime), ..*old(self) }),
            !r ==> *final(self) == *old(self),
    {
        match self.movetime {
            None => {
                self.movetime = Some(movetime);
                true
            },
            Some(_) => false,
        }
    }

    /// Sets the share of the clock for the move, with `remaining`
    /// microseconds on the clock and `increment` added for each move, unless
    /// one is set. Returns whether it was set.
    pub fn set_time_manager(&mut self, remaining: u64, increment: u64) -> (r: bool)
        ensures
            r == old(self).time_manager.is_none(),
            r ==> final(self).time_manager.is_some() && final(self).time_manager.unwrap().max_time
                == TimeManager::budget(remaining as int, increment as int) && final(self).nodes
                == old(self).nodes && final(self).soft_nodes == old(self).soft_nodes && final(
                self).hard_nodes == old(self).hard_nodes && final(self).movetime == old(
                self).movetime && final(self).start_time == old(self).start_time,
            !r ==> *final(self) == *old(self),
    {
        match self.time_manager {
            None => {
                self.time_manager = Some(TimeManager::new(remaining, increment));
                true
            },
            Some(_) => false,
        }
    }

    /// Whether a search should end between two depths, after `nodes` nodes
    /// and `time` microseconds.
    pub fn should_stop_soft_at(&self, nodes: usize, time: u64) -> (r: bool)
        ensures
            r == self.soft_stop(nodes, time),
    {
        match self.nodes {
            Some(max_nodes) => {
                if nodes >= max_nodes {
                    return true;
                }
            },
            None => {},
        }
        match self.soft_nodes {
            Some(max_nodes) => {
                if nodes >= max_nodes {
                    return true;
                }
            },
            None => {},
        }
        match self.movetime {
            Some(movetime) => {
                if time >= movetime {
                    return true;
                }
            },
            None => {},
        }
        match self.time_manager {
            Some(time_manager) => {
                if time_manager.should_stop(nodes, time) {
                    return true;
                }
            },
            None => {},
        }
        false
    }

    /// Whether a search should end at once, after `nodes` nodes and `time`
    /// microseconds.
    pub fn should_stop_hard_at(&self, nodes: usize, time: u64) -> (r: bool)
        ensures
            r == self.hard_stop(nodes, time),
    {
        match self.nodes {
            Some(max_nodes) => {
                if nodes >= max_nodes {
                    return true;
                }
            },
            None => {},
        }
        match self.hard_nodes {
            Some(max_nodes) => {
                if nodes >= max_nodes {
                    return true;
                }
            },
            None => {},
        }
        if nodes > 0 && nodes % TIME_CHECK_INTERVAL == 0 {
            match self.movetime {
                Some(movetime) => {
                    if time >= movetime {
                        return true;
                    }
                },
                None => {},
            }
            match self.time_manager {
                Some(time_manager) => {
                    if time_manager.should_stop(nodes, time) {
                        return true;
                    }
                },
                None => {},
            }
        }
        false
    }

    /// Whether a search should end between two depths, after `nodes`
    /// nodes and the time that has passed since the start.
    pub fn should_stop_soft(&self, nodes: usize) -> (r: bool)
        ensures
            exists|time: u64| r == self.soft_stop(nodes, time),
            self.soft_nodes_reached(nodes) ==> r,
            self.movetime.is_none() && self.time_manager.is_none() ==> r
                == self.soft_nodes_reached(nodes),
    {
        let time = elapsed_micros(&self.start_time);
        self.should_stop_soft_at(nodes, time)
    }

    /// Whether a search should end at once, after `nodes` nodes and the
    /// time that has passed since the start. The clock is read only at each
    /// 4096th node, and only if there is a bound on time.
    pub fn should_stop_hard(&self, nodes: usize) -> (r: bool)
        ensures
            exists|time: u64| r == self.hard_stop(nodes, time),
            self.hard_nodes_reached(nodes) ==> r,
            !(nodes > 0 && nodes % TIME_CHECK_INTERVAL == 0) || (self.movetime.is_none()
                && self.time_manager.is_none()) ==> r == self.hard_nodes_reached(nodes),
    {
        if nodes > 0 && nodes % TIME_CHECK_INTERVAL == 0 && (self.movetime.is_some()
            || self.time_manager.is_some()) {
            let time = elapsed_micros(&self.start_time);
            self.should_stop_hard_at(nodes, time)
        } else {
            let r = self.should_stop_hard_at(nodes, 0);
            proof {
                assert(r == self.hard_stop(nodes, 0));
            }
            r
        }
    }
}

} // verus!
