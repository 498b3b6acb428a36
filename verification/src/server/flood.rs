//! Flood detection: a connection that sends more than a hundred lines within five seconds
//! is flagged (the lines are still answered).

use vstd::prelude::*;

verus! {

/// How many lines may arrive within the window without raising the flag.
pub const FLOOD_LINES: usize = 100;

/// The window, in milliseconds.
pub const FLOOD_MS: u64 = 5000;

/// Whether the last line of `times` (arrival times in milliseconds, in order) closes a run of
/// more than `FLOOD_LINES` lines within `FLOOD_MS`: the line `FLOOD_LINES` places before it
/// arrived less than `FLOOD_MS` earlier.
pub open spec fn flooding(times: Seq<u64>) -> bool {
    times.len() > FLOOD_LINES && times.last() - times[times.len() - 1 - FLOOD_LINES] < FLOOD_MS
}

/// The last `FLOOD_LINES` arrival times of `times` (all of them when there are fewer).
pub open spec fn recent_of(times: Seq<u64>) -> Seq<u64> {
    if times.len() <= FLOOD_LINES {
        times
    } else {
        times.skip(times.len() - FLOOD_LINES)
    }
}

/// The arrival times a connection's meter keeps: its last `FLOOD_LINES` lines.
pub struct FloodMeter {
    pub recent: Vec<u64>,
}

impl View for FloodMeter {
    type V = Seq<u64>;

    open spec fn view(&self) -> Seq<u64> {
        self.recent@
    }
}

impl FloodMeter {
    /// A meter that has seen no line.
    pub fn new() -> (m: FloodMeter)
        ensures
            m@ == recent_of(Seq::<u64>::empty()),
    {
        let m = FloodMeter { recent: Vec::new() };
        assert(m@ =~= Seq::<u64>::empty());
        m
    }

    /// Notes a line arriving at `now`; tells whether it makes a flood. For every history of
    /// arrival times that the meter summed up, the answer is `flooding` of that history with
    /// this line, and the meter sums up the longer history.
    pub fn note(&mut self, now: u64) -> (flood: bool)
        ensures
            flood == (old(self)@.len() >= FLOOD_LINES && now - old(self)@[old(self)@.len()
                - FLOOD_LINES] < FLOOD_MS),
            final(self)@ == if old(self)@.len() >= FLOOD_LINES {
                old(self)@.push(now).drop_first()
            } else {
                old(self)@.push(now)
            },
            forall|h: Seq<u64>|
                old(self)@ == recent_of(h) ==> flood == flooding(h.push(now)) && final(self)@
                    == recent_of(h.push(now)),
    {
        let ghost r0 = self@;
        let flood = self.recent.len() >= FLOOD_LINES && (now < self.recent[self.recent.len() - FLOOD_LINES]
            || now - self.recent[self.recent.len() - FLOOD_LINES] < FLOOD_MS);
        self.recent.push(now);
        if self.recent.len() > FLOOD_LINES {
            self.recent.remove(0);
        }
        let ghost r1 = self@;
        assert(r1 =~= if r0.len() >= FLOOD_LINES {
            r0.push(now).drop_first()
        } else {
            r0.push(now)
        });
        assert forall|h: Seq<u64>| r0 == recent_of(h) implies flood == flooding(h.push(now)) && r1
            == recent_of(h.push(now)) by {
            let h2 = h.push(now);
            if h.len() <= FLOOD_LINES {
                assert(r0 == h);
            } else {
                assert(r0 =~= h.skip(h.len() - FLOOD_LINES));
                assert(r0.len() == FLOOD_LINES);
            }
            if h2.len() > FLOOD_LINES {
                assert(h2[h2.len() - 1 - FLOOD_LINES] == r0[r0.len() - FLOOD_LINES]) by {
                    if h.len() > FLOOD_LINES {
                        assert(r0[r0.len() - FLOOD_LINES] == h[h.len() - FLOOD_LINES]);
                    }
                }
                assert(r1 =~= h2.skip(h2.len() - FLOOD_LINES));
            } else {
                assert(r1 =~= h2);
            }
        }
        flood
    }
}

} // verus!
