//! The decisions of the IPTS device protocol: which of the driver's buffers is
//! current, when the doorbell shows a reset, and how long to sleep while
//! waiting for the next doorbell. The device files and ioctls stay outside.
use vstd::prelude::*;

verus! {

/// Number of buffers the driver rotates through.
pub const IPTS_BUFFERS: usize = 16;

/// The doorbell count last acknowledged and the wait backoff.
pub struct IptsState {
    current_doorbell: u32,
    backoff: u64,
}

pub struct IptsStateView {
    pub current_doorbell: u32,
    pub backoff: u64,
}

impl View for IptsState {
    type V = IptsStateView;

    closed spec fn view(&self) -> IptsStateView {
        IptsStateView { current_doorbell: self.current_doorbell, backoff: self.backoff }
    }
}

impl IptsState {
    /// The backoff never exceeds 15, so a wait is at least one millisecond.
    pub open spec fn wf(&self) -> bool {
        self@.backoff <= 15
    }

    /// A fresh state: doorbell 0, no backoff.
    pub fn new() -> (r: IptsState)
        ensures
            r.wf(),
            r@.current_doorbell == 0,
            r@.backoff == 0,
    {
        IptsState { current_doorbell: 0, backoff: 0 }
    }

    /// The buffer that the current doorbell count points at.
    pub fn current_file(&self) -> (r: usize)
        ensures
            r == self@.current_doorbell % 16,
            r < IPTS_BUFFERS,
    {
        let d = self.current_doorbell;
        assert(d & 15 == d % 16) by (bit_vector);
        (d & (IPTS_BUFFERS as u32 - 1)) as usize
    }

    /// The doorbell count last acknowledged.
    pub fn doorbell(&self) -> (r: u32)
        ensures
            r == self@.current_doorbell,
    {
        self.current_doorbell
    }

    /// Takes the doorbell count read from the device as the acknowledged one.
    pub fn set_doorbell(&mut self, doorbell: u32)
        requires
            old(self).wf(),
        ensures
            final(self).wf(),
            final(self)@.current_doorbell == doorbell,
            final(self)@.backoff == old(self)@.backoff,
    {
        self.current_doorbell = doorbell;
    }

    /// Records that feedback was sent for a buffer: the acknowledged count grows by one.
    pub fn send_feedback_impl(&mut self)
        requires
            old(self).wf(),
            old(self)@.current_doorbell < u32::MAX,
        ensures
            final(self).wf(),
            final(self)@.current_doorbell == old(self)@.current_doorbell + 1,
            final(self)@.backoff == old(self)@.backoff,
    {
        self.current_doorbell += 1;
    }

    /// Takes the doorbell count `new` read from the device. Returns it and
    /// whether the device went back (a reset): then the acknowledged count
    /// follows it down and all buffers must be flushed.
    pub fn doorbell_impl(&mut self, new: u32) -> (r: (u32, bool))
        requires
            old(self).wf(),
        ensures
            final(self).wf(),
            r == (new, new < old(self)@.current_doorbell),
            final(self)@.current_doorbell == if new < old(self)@.current_doorbell {
                new
            } else {
                old(self)@.current_doorbell
            },
            final(self)@.backoff == old(self)@.backoff,
    {
        let flush_required = new < self.current_doorbell;
        if flush_required {
            self.current_doorbell = new;
        }
        (new, flush_required)
    }

    /// Starts a wait: an eager wait begins by polling every millisecond.
    pub fn begin_wait_for_doorbell(&mut self, eager: bool)
        ensures
            final(self).wf(),
            final(self)@.backoff == if eager {
                15u64
            } else {
                0u64
            },
            final(self)@.current_doorbell == old(self)@.current_doorbell,
    {
        self.backoff = if eager {
            15
        } else {
            0
        };
    }

    /// Given the doorbell count just read: `None` when a new buffer is ready,
    /// else the milliseconds to sleep before polling again, which grow by one
    /// per poll up to 16.
    pub fn keep_waiting_for_doorbell(&mut self, doorbell: u32) -> (r: Option<u64>)
        requires
            old(self).wf(),
        ensures
            final(self).wf(),
            final(self)@.current_doorbell == old(self)@.current_doorbell,
            doorbell > old(self)@.current_doorbell ==> r is None && final(self)@ == old(self)@,
            doorbell <= old(self)@.current_doorbell ==> {
                &&& final(self)@.backoff == if old(self)@.backoff > 0 {
                    old(self)@.backoff - 1
                } else {
                    0
                }
                &&& r == Some((16 - final(self)@.backoff) as u64)
            },
    {
        if doorbell > self.current_doorbell {
            None
        } else {
            self.backoff = self.backoff.saturating_sub(1);
            Some(16 - self.backoff)
        }
    }
}

/// While waiting without a new buffer, each sleep is one millisecond longer
/// than the one before, up to 16, and never shorter than one.
pub proof fn lemma_wait_backoff(before: IptsStateView, after: IptsStateView, delay: u64)
    requires
        before.backoff <= 15,
        after.backoff == if before.backoff > 0 {
            before.backoff - 1
        } else {
            0
        },
        delay == 16 - after.backoff,
    ensures
        1 <= delay <= 16,
        before.backoff > 0 ==> delay == 16 - before.backoff + 1,
        before.backoff == 0 ==> delay == 16,
{
}

} // verus!
