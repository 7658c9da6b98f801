use vstd::prelude::*;

verus! {

/// Milliseconds read from the host's clock: when the first reading was
/// taken, the latest one, and the one before it.
#[derive(Debug, Clone, Copy, PartialEq, Eq, Structural)]
pub struct Time {
    pub start: u32,
    pub now: u32,
    pub last: Option<u32>,
}

/// Difference of two readings of a clock that wraps around at `2^32` ms.
pub open spec fn clock_diff(later: u32, earlier: u32) -> u32 {
    if later >= earlier {
        (later - earlier) as u32
    } else {
        (later + 0x1_0000_0000 - earlier) as u32
    }
}

impl Time {
    /// Milliseconds between the latest reading and the one before.
    pub open spec fn dt_spec(&self) -> u32 {
        match self.last {
            Some(l) => clock_diff(self.now, l),
            None => 0,
        }
    }

    /// A clock that has not been read yet.
    pub fn new() -> (r: Time)
        ensures
            r == (Time { start: 0, now: 0, last: None }),
    {
        Time { start: 0, now: 0, last: None }
    }

    /// Takes the reading `now` at the start of a tick. The first non-zero
    /// reading becomes the start.
    pub fn poll(&mut self, now: u32)
        ensures
            final(self).last == Some(old(self).now),
            final(self).now == now,
            final(self).start == (if old(self).start == 0 {
                now
            } else {
                old(self).start
            }),
    {
        self.last = Some(self.now);
        self.now = now;
        if self.start == 0 {
            self.start = now;
        }
    }

    /// Milliseconds since the first reading.
    pub fn elapsed_ms(&self) -> (r: u32)
        ensures
            r == clock_diff(self.now, self.start),
    {
        if self.now >= self.start {
            self.now - self.start
        } else {
            ((self.now as u64 + 0x1_0000_0000u64) - self.start as u64) as u32
        }
    }

    /// Milliseconds between the latest reading and the one before, or 0
    /// before the second reading.
    pub fn dt_ms(&self) -> (r: u32)
        ensures
            r == self.dt_spec(),
    {
        match self.last {
            Some(l) => {
                if self.now >= l {
                    self.now - l
                } else {
                    ((self.now as u64 + 0x1_0000_0000u64) - l as u64) as u32
                }
            },
            None => 0,
        }
    }
}

} // verus!
