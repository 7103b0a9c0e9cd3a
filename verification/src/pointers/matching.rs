//! What a pointer update computes, stated over sequences: the greedy nearest-pair
//! matching of new touch points to the tracked ones, the damped positions of the
//! matched points, and the slot events that result.
use crate::pointers::report::Report;
use crate::pointers::set10::count_flags;
use vstd::prelude::*;

verus! {

/// Points further apart than this (squared) are never matched.
pub const DETACH_THRESHOLD: u32 = 10000;

/// Squared euclidean distance.
pub open spec fn dist(a: (u32, u32), b: (u32, u32)) -> int {
    (a.0 - b.0) * (a.0 - b.0) + (a.1 - b.1) * (a.1 - b.1)
}

/// Every squared distance between an old and a new point is below `u32::MAX`,
/// so that the distance table neither overflows nor holds the "no pair yet" value.
pub open spec fn dists_fit(old: Seq<(u32, u32)>, new: Seq<(u32, u32)>) -> bool {
    &&& old.len() == 10
    &&& new.len() == 10
    &&& forall|i: int, j: int|
        0 <= i < 10 && 0 <= j < 10 ==> #[trigger] dist(old[j], new[i]) < u32::MAX
}

/// Where a matched point is reported: a move within 16 units is jitter and
/// the old position stays; a larger move is reported as it is.
pub open spec fn moved(newp: (u32, u32), oldp: (u32, u32)) -> (u32, u32) {
    if dist(newp, oldp) > 256 {
        newp
    } else {
        oldp
    }
}

/// Distance between new point `a` and old point `b`, both numbered from 1.
pub open spec fn pair_dist(new: Seq<(u32, u32)>, old: Seq<(u32, u32)>, a: int, b: int) -> int {
    dist(old[b - 1], new[a - 1])
}

/// The order in which candidate pairs are preferred: nearer first, then by
/// new number, then by old number.
pub open spec fn precedes(d: int, a: int, b: int, d2: int, a2: int, b2: int) -> bool {
    d < d2 || (d == d2 && (a < a2 || (a == a2 && b <= b2)))
}

/// `(a, b)` is the preferred pair among the pending new and old points.
pub open spec fn is_best(
    new: Seq<(u32, u32)>,
    old: Seq<(u32, u32)>,
    fnew: Seq<bool>,
    fold: Seq<bool>,
    a: int,
    b: int,
) -> bool {
    &&& 1 <= a <= 10
    &&& 1 <= b <= 10
    &&& fnew[a]
    &&& fold[b]
    &&& forall|a2: int, b2: int|
        1 <= a2 <= 10 && 1 <= b2 <= 10 && #[trigger] fnew[a2] && #[trigger] fold[b2]
            ==> precedes(pair_dist(new, old, a, b), a, b, pair_dist(new, old, a2, b2), a2, b2)
}

/// The greedy matching: repeatedly take the preferred pair of pending points,
/// as long as it is within the detach threshold. Pairs are numbered from 0,
/// `(new index, old index)`, in the order they are taken.
pub open spec fn greedy(
    new: Seq<(u32, u32)>,
    old: Seq<(u32, u32)>,
    fnew: Seq<bool>,
    fold: Seq<bool>,
) -> Seq<(int, int)>
    decreases count_flags(fnew, 10),
{
    if fnew.len() == 11 && exists|a: int, b: int| is_best(new, old, fnew, fold, a, b) {
        let (a, b) = choose|a: int, b: int| is_best(new, old, fnew, fold, a, b);
        if pair_dist(new, old, a, b) > DETACH_THRESHOLD {
            seq![]
        } else {
            proof {
                crate::pointers::set10::lemma_count_clear(fnew, a, 10);
            }
            seq![(a - 1, b - 1)] + greedy(
                new,
                old,
                fnew.update(a, false),
                fold.update(b, false),
            )
        }
    } else {
        seq![]
    }
}

/// At most one pair is preferred.
pub proof fn lemma_best_unique(
    new: Seq<(u32, u32)>,
    old: Seq<(u32, u32)>,
    fnew: Seq<bool>,
    fold: Seq<bool>,
    a: int,
    b: int,
    a2: int,
    b2: int,
)
    requires
        is_best(new, old, fnew, fold, a, b),
        is_best(new, old, fnew, fold, a2, b2),
    ensures
        a == a2 && b == b2,
{
    assert(fnew[a2] && fold[b2]);
    assert(fnew[a] && fold[b]);
}

/// A step of the matching, seen from outside.
pub proof fn lemma_greedy_step(
    new: Seq<(u32, u32)>,
    old: Seq<(u32, u32)>,
    fnew: Seq<bool>,
    fold: Seq<bool>,
    a: int,
    b: int,
)
    requires
        fnew.len() == 11,
        is_best(new, old, fnew, fold, a, b),
    ensures
        pair_dist(new, old, a, b) > DETACH_THRESHOLD ==> greedy(new, old, fnew, fold) == Seq::<
            (int, int),
        >::empty(),
        pair_dist(new, old, a, b) <= DETACH_THRESHOLD ==> greedy(new, old, fnew, fold) == seq![
            (a - 1, b - 1),
        ] + greedy(new, old, fnew.update(a, false), fold.update(b, false)),
{
    let (a1, b1) = choose|a1: int, b1: int| is_best(new, old, fnew, fold, a1, b1);
    lemma_best_unique(new, old, fnew, fold, a, b, a1, b1);
}

/// Events after the matched pairs: `Move` to the reported position in the slot
/// of each matched old point.
pub open spec fn apply_moves(
    e: Seq<Report>,
    pairs: Seq<(int, int)>,
    new: Seq<(u32, u32)>,
    old: Seq<(u32, u32)>,
    om: Seq<usize>,
) -> Seq<Report>
    decreases pairs.len(),
{
    if pairs.len() == 0 {
        e
    } else {
        let p = pairs.last();
        apply_moves(e, pairs.drop_last(), new, old, om).update(
            om[p.1] as int,
            Report::Move(moved(new[p.0], old[p.1])),
        )
    }
}

/// The new points, with the matched ones at their reported positions.
pub open spec fn apply_pos(
    new: Seq<(u32, u32)>,
    old: Seq<(u32, u32)>,
    pairs: Seq<(int, int)>,
) -> Seq<(u32, u32)>
    decreases pairs.len(),
{
    if pairs.len() == 0 {
        new
    } else {
        let p = pairs.last();
        apply_pos(new, old, pairs.drop_last()).update(p.0, moved(new[p.0], old[p.1]))
    }
}

/// Slot numbers after the matched pairs: each matched new point takes the slot of its old one.
pub open spec fn apply_maps(m: Seq<usize>, pairs: Seq<(int, int)>, om: Seq<usize>) -> Seq<usize>
    decreases pairs.len(),
{
    if pairs.len() == 0 {
        m
    } else {
        let p = pairs.last();
        apply_maps(m, pairs.drop_last(), om).update(p.0, om[p.1])
    }
}

/// The flags with the points of side `new_side` (new if true, old if false) cleared.
pub open spec fn clear_matched(f: Seq<bool>, pairs: Seq<(int, int)>, new_side: bool) -> Seq<bool>
    decreases pairs.len(),
{
    if pairs.len() == 0 {
        f
    } else {
        let p = pairs.last();
        clear_matched(f, pairs.drop_last(), new_side).update(
            if new_side {
                p.0 + 1
            } else {
                p.1 + 1
            },
            false,
        )
    }
}

/// Events after marking the slots of the unmatched old points `1..=q` as lifted.
pub open spec fn mark_up_upto(e: Seq<Report>, uo: Seq<bool>, om: Seq<usize>, q: int) -> Seq<
    Report,
>
    decreases q,
{
    if q <= 0 {
        e
    } else {
        let prev = mark_up_upto(e, uo, om, q - 1);
        if uo[q] {
            prev.update(om[q - 1] as int, Report::Up)
        } else {
            prev
        }
    }
}

/// How many of the slots below `h` hold a `Move`.
pub open spec fn count_moves(e: Seq<Report>, h: int) -> nat
    decreases h,
{
    if h <= 0 {
        0
    } else {
        count_moves(e, h - 1) + if e[h - 1] is Move {
            1nat
        } else {
            0nat
        }
    }
}

/// Changing one slot changes the count of moves by what it was and what it becomes.
pub proof fn lemma_count_moves_update(e: Seq<Report>, s: int, r: Report, h: int)
    requires
        0 <= s < e.len(),
        0 <= h <= e.len(),
    ensures
        count_moves(e.update(s, r), h) + (if s < h && e[s] is Move {
            1int
        } else {
            0int
        }) == count_moves(e, h) + (if s < h && r is Move {
            1int
        } else {
            0int
        }),
    decreases h,
{
    if h > 0 {
        lemma_count_moves_update(e, s, r, h - 1);
    }
}

/// Slots that are all free, lifted or moved split into those three kinds.
pub proof fn lemma_kinds_total(e: Seq<Report>, h: int)
    requires
        0 <= h <= e.len(),
        forall|s: int| 0 <= s < h ==> #[trigger] e[s] is Idle || e[s] is Up || e[s] is Move,
    ensures
        slots_upto(e, h, false).len() + slots_upto(e, h, true).len() + count_moves(e, h) == h,
    decreases h,
{
    if h > 0 {
        lemma_kinds_total(e, h - 1);
    }
}

/// The slots below `h` whose event is `Up` (if `up`) or `Idle` (if not), ascending.
pub open spec fn slots_upto(e: Seq<Report>, h: int, up: bool) -> Seq<int>
    decreases h,
{
    if h <= 0 {
        seq![]
    } else if (if up {
        e[h - 1] is Up
    } else {
        e[h - 1] is Idle
    }) {
        slots_upto(e, h - 1, up).push(h - 1)
    } else {
        slots_upto(e, h - 1, up)
    }
}

/// The free slots, ascending.
pub open spec fn idle_slots(e: Seq<Report>) -> Seq<int> {
    slots_upto(e, 10, false)
}

/// The slots just lifted, ascending.
pub open spec fn up_slots(e: Seq<Report>) -> Seq<int> {
    slots_upto(e, 10, true)
}

/// The slots below `h` listed are exactly those below `h` of the wanted kind,
/// ascending, and the list below `h` is a prefix of the list below any `h2 >= h`.
pub proof fn lemma_slots_upto(e: Seq<Report>, h: int, h2: int, up: bool)
    requires
        0 <= h <= h2,
    ensures
        slots_upto(e, h, up).len() <= slots_upto(e, h2, up).len(),
        slots_upto(e, h2, up).take(slots_upto(e, h, up).len() as int) == slots_upto(e, h, up),
    decreases h2 - h,
{
    if h < h2 {
        lemma_slots_upto(e, h, h2 - 1, up);
        let s1 = slots_upto(e, h2 - 1, up);
        let s2 = slots_upto(e, h2, up);
        let n = slots_upto(e, h, up).len() as int;
        assert(s2.take(n) =~= s1.take(n));
    } else {
        assert(slots_upto(e, h, up).take(slots_upto(e, h, up).len() as int) =~= slots_upto(e, h, up));
    }
}

/// The slots listed below `h` are below `h`.
pub proof fn lemma_slots_bound(e: Seq<Report>, h: int, up: bool)
    requires
        0 <= h,
    ensures
        forall|j: int|
            0 <= j < slots_upto(e, h, up).len() ==> 0 <= #[trigger] slots_upto(e, h, up)[j] < h,
    decreases h,
{
    if h > 0 {
        lemma_slots_bound(e, h - 1, up);
        let prev = slots_upto(e, h - 1, up);
        assert forall|j: int| 0 <= j < slots_upto(e, h, up).len() implies 0 <= #[trigger] slots_upto(
            e,
            h,
            up,
        )[j] < h by {
            if j < prev.len() {
                assert(slots_upto(e, h, up)[j] == prev[j]);
            }
        }
    }
}

/// The `k`-th unmatched new point can be placed without the lifted last slot:
/// the free and lifted slots suffice for `n` new points, and slot 9 is not the
/// lifted slot the last of them would take.
pub open spec fn insert_fits(e: Seq<Report>, n: int) -> bool {
    &&& n <= idle_slots(e).len() + up_slots(e).len()
    &&& !(e[9] is Up && n == idle_slots(e).len() + up_slots(e).len())
}

/// With no flag set in `from+1..=to`, lifting stops changing the events.
pub proof fn lemma_mark_up_skip(e: Seq<Report>, uo: Seq<bool>, om: Seq<usize>, from: int, to: int)
    requires
        0 <= from <= to,
        forall|t: int| from < t <= to ==> !#[trigger] uo[t],
    ensures
        mark_up_upto(e, uo, om, to) == mark_up_upto(e, uo, om, from),
    decreases to - from,
{
    if from < to {
        lemma_mark_up_skip(e, uo, om, from, to - 1);
    }
}

/// With no flag set in `from+1..=to`, placing stops changing events and slots.
pub proof fn lemma_insert_skip(
    e: Seq<Report>,
    un: Seq<bool>,
    pos: Seq<(u32, u32)>,
    m: Seq<usize>,
    from: int,
    to: int,
)
    requires
        0 <= from <= to,
        forall|t: int| from < t <= to ==> !#[trigger] un[t],
    ensures
        insert_upto(e, un, pos, to) == insert_upto(e, un, pos, from),
        maps_upto(m, un, e, to) == maps_upto(m, un, e, from),
    decreases to - from,
{
    if from < to {
        lemma_insert_skip(e, un, pos, m, from, to - 1);
    }
}

/// A slot of the wanted kind sits in the full list at the count of those below it.
pub proof fn lemma_slots_hit(e: Seq<Report>, h: int, up: bool)
    requires
        0 <= h < 10,
        if up {
            e[h] is Up
        } else {
            e[h] is Idle
        },
    ensures
        slots_upto(e, h, up).len() < slots_upto(e, 10, up).len(),
        slots_upto(e, 10, up)[slots_upto(e, h, up).len() as int] == h,
{
    lemma_slots_upto(e, h + 1, 10, up);
    let n = slots_upto(e, h, up).len() as int;
    assert(slots_upto(e, h + 1, up) == slots_upto(e, h, up).push(h));
    assert(slots_upto(e, 10, up).take(n + 1)[n] == h);
}

/// The slot of the `k`-th new point that no old point matched: the free
/// slots first, ascending, then the slots just lifted, ascending.
pub open spec fn slot_for(e: Seq<Report>, k: int) -> int {
    if k < idle_slots(e).len() {
        idle_slots(e)[k]
    } else {
        up_slots(e)[k - idle_slots(e).len()]
    }
}

/// The event of the `k`-th unmatched new point at `pos`.
pub open spec fn insert_event(e: Seq<Report>, k: int, pos: (u32, u32)) -> Report {
    if k < idle_slots(e).len() {
        Report::Down(pos)
    } else {
        Report::UpDown(pos)
    }
}

/// Events after placing the unmatched new points `1..=q`.
pub open spec fn insert_upto(e: Seq<Report>, un: Seq<bool>, pos: Seq<(u32, u32)>, q: int) -> Seq<
    Report,
>
    decreases q,
{
    if q <= 0 {
        e
    } else {
        let prev = insert_upto(e, un, pos, q - 1);
        if un[q] {
            let k = count_flags(un, q - 1) as int;
            prev.update(slot_for(e, k), insert_event(e, k, pos[q - 1]))
        } else {
            prev
        }
    }
}

/// Slot numbers after placing the unmatched new points `1..=q`.
pub open spec fn maps_upto(m: Seq<usize>, un: Seq<bool>, e: Seq<Report>, q: int) -> Seq<usize>
    decreases q,
{
    if q <= 0 {
        m
    } else {
        let prev = maps_upto(m, un, e, q - 1);
        if un[q] {
            prev.update(q - 1, slot_for(e, count_flags(un, q - 1) as int) as usize)
        } else {
            prev
        }
    }
}

} // verus!
