//! Sharing one input device among the server's connections: which connection
//! holds the device, when an idle holder loses it, and the ids handed out to
//! new connections. Times are milliseconds since the multiplexer was made.
use vstd::prelude::*;

verus! {

/// The connection id that stands for "no connection holds the device".
pub const NO_CONNECTION: u64 = 0xffff_ffff_ffff_ffff;

/// How long the device stays with a connection that sends nothing.
pub const WATCHDOG_MS: u64 = 1000;

/// What the device has to do after a step of the multiplexer.
#[derive(Debug, PartialEq, Eq, Structural, Clone, Copy)]
pub enum BackendAction {
    /// Leave the device alone.
    Nothing,
    /// Pass the connection's reports on.
    Dispatch,
    /// Lift every finger.
    Reset,
    /// Lift every finger, then pass the connection's reports on.
    ResetAndDispatch,
}

/// The multiplexer's state.
pub struct InputMultiplexer {
    current_connection: u64,
    id_counter: u64,
    next_gc: u64,
}

/// The model of the multiplexer: the holder of the device (or
/// `NO_CONNECTION`), the last id handed out and the time from which an idle
/// holder loses the device.
pub struct MuxView {
    pub current: u64,
    pub last_id: u64,
    pub deadline: u64,
}

impl View for InputMultiplexer {
    type V = MuxView;

    closed spec fn view(&self) -> MuxView {
        MuxView { current: self.current_connection, last_id: self.id_counter, deadline: self.next_gc }
    }
}

/// The deadline after the holder was heard from at `now`.
pub open spec fn kicked(deadline: u64, now: u64) -> u64 {
    if deadline < now + WATCHDOG_MS {
        (now + WATCHDOG_MS) as u64
    } else {
        deadline
    }
}

/// A step of a connection that touches: reports are passed on only when it
/// holds the device and the device was free to take (`lock_free`); then the
/// deadline moves, and the `bool` says whether the collector has to be woken.
pub open spec fn send_step(v: MuxView, id: u64, lock_free: bool, now: u64) -> (
    BackendAction,
    bool,
    MuxView,
) {
    if v.current == id && lock_free {
        (
            BackendAction::Dispatch,
            v.deadline < now + WATCHDOG_MS,
            MuxView { deadline: kicked(v.deadline, now), ..v },
        )
    } else {
        (BackendAction::Nothing, false, v)
    }
}

/// A connection that starts touching takes the device over.
pub open spec fn claim_step(v: MuxView, id: u64, now: u64) -> (BackendAction, bool, MuxView) {
    (
        BackendAction::ResetAndDispatch,
        v.deadline < now + WATCHDOG_MS,
        MuxView { current: id, deadline: kicked(v.deadline, now), ..v },
    )
}

/// A connection that stops touching gives the device back, if it holds it.
pub open spec fn release_step(v: MuxView, id: u64, lock_free: bool) -> (BackendAction, MuxView) {
    if v.current == id && lock_free {
        (BackendAction::Reset, MuxView { current: NO_CONNECTION, ..v })
    } else {
        (BackendAction::Nothing, v)
    }
}

/// The collector at `now`: once the deadline has passed, the holder loses
/// the device.
pub open spec fn gc_step(v: MuxView, now: u64) -> (BackendAction, MuxView) {
    if now < v.deadline {
        (BackendAction::Nothing, v)
    } else {
        (BackendAction::Reset, MuxView { current: NO_CONNECTION, ..v })
    }
}

impl InputMultiplexer {
    /// No holder, no id handed out, and a deadline that has passed.
    pub fn new() -> (r: InputMultiplexer)
        ensures
            r@.current == NO_CONNECTION,
            r@.last_id == 0,
            r@.deadline == 0,
    {
        InputMultiplexer { current_connection: NO_CONNECTION, id_counter: 0, next_gc: 0 }
    }

    /// The connection that holds the device, or `NO_CONNECTION`.
    pub fn current(&self) -> (r: u64)
        ensures
            r == self@.current,
    {
        self.current_connection
    }

    /// The last id handed out.
    pub fn last_id(&self) -> (r: u64)
        ensures
            r == self@.last_id,
    {
        self.id_counter
    }

    /// A fresh id for a new connection: one more than the last.
    pub fn fork(&mut self) -> (r: u64)
        requires
            old(self)@.last_id + 1 < NO_CONNECTION,
        ensures
            r == old(self)@.last_id + 1,
            final(self)@ == (MuxView { last_id: r, ..old(self)@ }),
    {
        self.id_counter = self.id_counter + 1;
        self.id_counter
    }

    /// The deadline still to wait for at `now`, `None` when it has passed.
    pub fn gc_wait(&self, now: u64) -> (r: Option<u64>)
        ensures
            r == (if now >= self@.deadline {
                None::<u64>
            } else {
                Some(self@.deadline)
            }),
    {
        if now >= self.next_gc {
            None
        } else {
            Some(self.next_gc)
        }
    }

    /// Pushes the deadline to a second after `now`; `true` when it moved, so
    /// that the collector has to be woken.
    pub fn kick_watchdog(&mut self, now: u64) -> (r: bool)
        requires
            now + WATCHDOG_MS <= u64::MAX,
        ensures
            r == (old(self)@.deadline < now + WATCHDOG_MS),
            final(self)@ == (MuxView { deadline: kicked(old(self)@.deadline, now), ..old(self)@ }),
    {
        let next = now + WATCHDOG_MS;
        if self.next_gc < next {
            self.next_gc = next;
            true
        } else {
            false
        }
    }

    /// The collector's step at `now`: once the deadline has passed, the
    /// holder loses the device and every finger is lifted.
    pub fn gc(&mut self, now: u64) -> (r: BackendAction)
        ensures
            (r, final(self)@) == gc_step(old(self)@, now),
    {
        if self.gc_wait(now).is_some() {
            return BackendAction::Nothing;
        }
        self.current_connection = NO_CONNECTION;
        BackendAction::Reset
    }

    /// Reports from connection `id` while it touches: passed on only when it
    /// holds the device and the device was free to take (`lock_free`); then
    /// the deadline moves. The `bool` says whether the collector has to be
    /// woken.
    pub fn send(&mut self, id: u64, lock_free: bool, now: u64) -> (r: (BackendAction, bool))
        requires
            now + WATCHDOG_MS <= u64::MAX,
        ensures
            (r.0, r.1, final(self)@) == send_step(old(self)@, id, lock_free, now),
    {
        if self.current_connection != id || !lock_free {
            return (BackendAction::Nothing, false);
        }
        let wake = self.kick_watchdog(now);
        (BackendAction::Dispatch, wake)
    }

    /// Connection `id` starts touching: it takes the device over, every
    /// finger of the former holder is lifted and its reports are passed on.
    pub fn claim_send(&mut self, id: u64, now: u64) -> (r: (BackendAction, bool))
        requires
            now + WATCHDOG_MS <= u64::MAX,
        ensures
            (r.0, r.1, final(self)@) == claim_step(old(self)@, id, now),
    {
        self.current_connection = id;
        let wake = self.kick_watchdog(now);
        (BackendAction::ResetAndDispatch, wake)
    }

    /// Connection `id` stops touching or goes away: when it holds the device
    /// (and the device was free to take), it gives it back and every finger
    /// is lifted.
    pub fn release(&mut self, id: u64, lock_free: bool) -> (r: BackendAction)
        ensures
            (r, final(self)@) == release_step(old(self)@, id, lock_free),
    {
        if self.current_connection != id || !lock_free {
            return BackendAction::Nothing;
        }
        self.current_connection = NO_CONNECTION;
        BackendAction::Reset
    }
}

/// Once a connection has claimed the device, its reports are passed on, and
/// no other connection can pass reports on or give the device back.
pub proof fn lemma_claim_excludes_others(
    v: MuxView,
    id: u64,
    other: u64,
    lock_free: bool,
    now1: u64,
    now2: u64,
)
    requires
        id != other,
        now1 + WATCHDOG_MS <= u64::MAX,
        now2 + WATCHDOG_MS <= u64::MAX,
    ensures
        ({
            let held = claim_step(v, id, now1).2;
            &&& held.current == id
            &&& send_step(held, id, true, now2).0 == BackendAction::Dispatch
            &&& send_step(held, other, lock_free, now2) == (BackendAction::Nothing, false, held)
            &&& release_step(held, other, lock_free) == (BackendAction::Nothing, held)
        }),
{
}

/// A connection keeps the device for a second after it was last heard from:
/// the collector takes it away only once that second has passed.
pub proof fn lemma_holder_kept_for_watchdog(v: MuxView, id: u64, now1: u64, now2: u64)
    requires
        now1 + WATCHDOG_MS <= u64::MAX,
    ensures
        ({
            let held = claim_step(v, id, now1).2;
            let sent = send_step(held, id, true, now1).2;
            &&& now2 < now1 + WATCHDOG_MS ==> gc_step(held, now2) == (BackendAction::Nothing, held)
            &&& now2 < now1 + WATCHDOG_MS ==> gc_step(sent, now2) == (BackendAction::Nothing, sent)
            &&& now2 >= held.deadline ==> gc_step(held, now2).1.current == NO_CONNECTION
        }),
{
}

/// The deadline never moves back, whatever step is taken.
pub proof fn lemma_deadline_never_decreases(
    v: MuxView,
    id: u64,
    lock_free: bool,
    now: u64,
)
    requires
        now + WATCHDOG_MS <= u64::MAX,
    ensures
        send_step(v, id, lock_free, now).2.deadline >= v.deadline,
        claim_step(v, id, now).2.deadline >= v.deadline,
        release_step(v, id, lock_free).1.deadline == v.deadline,
        gc_step(v, now).1.deadline == v.deadline,
{
}

/// Giving the device back lifts every finger exactly when the connection
/// held it, and leaves the device with no holder.
pub proof fn lemma_release_frees_device(v: MuxView, id: u64)
    requires
        v.current == id,
    ensures
        release_step(v, id, true) == (BackendAction::Reset, MuxView { current: NO_CONNECTION, ..v }),
        release_step(release_step(v, id, true).1, id, true).0 == BackendAction::Nothing
            || id == NO_CONNECTION,
{
}

} // verus!
