use vstd::prelude::*;

verus! {

/// What happened to one touch slot since the previous frame.
#[derive(Debug, PartialEq, Eq, Copy, Clone)]
pub enum Report {
    /// Nothing touches the slot.
    Idle,
    /// The touch in the slot was lifted.
    Up,
    /// The touch in the slot was lifted and a new one put down at the position.
    UpDown((u32, u32)),
    /// A new touch was put down at the position.
    Down((u32, u32)),
    /// The touch in the slot moved to the position.
    Move((u32, u32)),
}

impl Report {
    /// A slot holds a touch after this report.
    pub open spec fn is_touching(self) -> bool {
        match self {
            Report::UpDown(_) | Report::Down(_) | Report::Move(_) => true,
            _ => false,
        }
    }
}

/// Hands out touch tracking ids: 0, 1, 2, ... up to `i32::MAX`, then 0 again,
/// so that an id is never negative (a negative id releases a slot).
pub struct Counter {
    next: i32,
}

impl View for Counter {
    type V = i32;

    /// The id the counter hands out next.
    closed spec fn view(&self) -> i32 {
        self.next
    }
}

/// The id after `id`.
pub open spec fn next_tracking_id(id: i32) -> i32 {
    if id == i32::MAX {
        0
    } else {
        (id + 1) as i32
    }
}

/// Tracking ids handed out from a non-negative start stay non-negative.
pub proof fn lemma_tracking_ids_nonnegative(id: i32)
    requires
        id >= 0,
    ensures
        next_tracking_id(id) >= 0,
{
}

impl Default for Counter {
    fn default() -> (r: Counter)
        ensures
            r@ == 0,
    {
        Counter { next: 0 }
    }
}

impl Counter {
    /// Hands out the next tracking id.
    pub fn gen_id(&mut self) -> (r: i32)
        ensures
            r == old(self)@,
            final(self)@ == next_tracking_id(old(self)@),
    {
        let r = self.next;
        self.next = if self.next == i32::MAX {
            0
        } else {
            self.next + 1
        };
        r
    }
}

} // verus!
