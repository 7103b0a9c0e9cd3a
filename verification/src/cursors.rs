//! The cursor instances that the live heatmap view draws: one per touching slot.
use crate::frame::report_pos;
use crate::pointers::report::Report;
use vstd::prelude::*;

verus! {

/// The slots below `n` that hold a touch, ascending.
pub open spec fn touching_slots(e: Seq<Report>, n: int) -> Seq<int>
    decreases n,
{
    if n <= 0 {
        seq![]
    } else if e[n - 1].is_touching() {
        touching_slots(e, n - 1).push(n - 1)
    } else {
        touching_slots(e, n - 1)
    }
}

/// The instance for slot `s`: its position and its number.
pub open spec fn cursor_of(e: Seq<Report>, s: int) -> Seq<u32> {
    seq![report_pos(e[s]).0, report_pos(e[s]).1, s as u32]
}

proof fn lemma_touching_slots(e: Seq<Report>, n: int)
    requires
        0 <= n <= 10,
    ensures
        touching_slots(e, n).len() <= n,
        forall|j: int| 0 <= j < touching_slots(e, n).len() ==> 0 <= #[trigger] touching_slots(e, n)[j] < n,
    decreases n,
{
    if n > 0 {
        lemma_touching_slots(e, n - 1);
    }
}

/// The instances for a frame's events: the `j`-th slot that holds a touch
/// gives the `j`-th instance, `[x, y, slot]`; the remaining instances are zero.
pub fn cursor_instances(events: &[Report; 10]) -> (r: [[u32; 3]; 10])
    ensures
        forall|j: int|
            0 <= j < 10 ==> (#[trigger] r[j])@ == if j < touching_slots(events@, 10).len() {
                cursor_of(events@, touching_slots(events@, 10)[j])
            } else {
                seq![0u32, 0u32, 0u32]
            },
{
    let mut r = [[0u32; 3]; 10];
    let mut k: usize = 0;
    let mut i: usize = 0;
    while i < 10
        invariant
            0 <= i <= 10,
            k == touching_slots(events@, i as int).len(),
            k <= i,
            forall|j: int|
                0 <= j < 10 ==> (#[trigger] r[j])@ == if j < k {
                    cursor_of(events@, touching_slots(events@, i as int)[j])
                } else {
                    seq![0u32, 0u32, 0u32]
                },
        decreases 10 - i,
    {
        proof {
            lemma_touching_slots(events@, i as int);
        }
        match events[i] {
            Report::UpDown(p) | Report::Down(p) | Report::Move(p) => {
                let inst = [p.0, p.1, i as u32];
                assert(inst@ =~= cursor_of(events@, i as int));
                r[k] = inst;
                k += 1;
            },
            _ => {},
        }
        assert(forall|j: int| 0 <= j < touching_slots(events@, i as int).len() ==> touching_slots(events@, i + 1)[j] == touching_slots(events@, i as int)[j]);
        i += 1;
    }
    proof {
        assert forall|j: int| 0 <= j < 10 implies (#[trigger] r[j])@ == (if j < touching_slots(events@, 10).len() {
            cursor_of(events@, touching_slots(events@, 10)[j])
        } else {
            seq![0u32, 0u32, 0u32]
        }) by {}
    }
    r
}

} // verus!
