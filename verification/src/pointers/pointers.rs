use crate::pointers::matching::{
    apply_maps, apply_moves, apply_pos, clear_matched, dist, dists_fit, greedy, is_best,
    lemma_greedy_step, moved, pair_dist, precedes, DETACH_THRESHOLD, idle_slots, up_slots, slots_upto, slot_for,
    insert_event, insert_upto, maps_upto, mark_up_upto, insert_fits, lemma_slots_upto,
    lemma_slots_hit, lemma_slots_bound, lemma_mark_up_skip, lemma_insert_skip, count_moves,
    lemma_count_moves_update, lemma_kinds_total,
};
use crate::pointers::set10::{count_flags, flags_ok, lemma_count_mono, lemma_count_skip};
use crate::pointers::set10::{flags_upto, lemma_first_from_props, Set10Iter};
use crate::frame::report_pos;
use crate::pointers::report::{Counter, Report};
use vstd::prelude::*;

verus! {

/// Tracks up to ten touch points across frames and reports, per slot, what
/// happened to the touch in it.
pub struct Pointers {
    counter: Counter,
    positions: [(u32, u32); 10],
    positions_length: usize,
    mappings: [usize; 10],
    events: [Report; 10],
}

/// The tracker's state: the points of the last frame (all ten entries, the first
/// `length` of them live), the slot of each live point, and the slot events.
pub struct PointersView {
    pub positions: Seq<(u32, u32)>,
    pub length: nat,
    pub mappings: Seq<usize>,
    pub events: Seq<Report>,
}

impl View for Pointers {
    type V = PointersView;

    closed spec fn view(&self) -> PointersView {
        PointersView {
            positions: self.positions@,
            length: self.positions_length as nat,
            mappings: self.mappings@,
            events: self.events@,
        }
    }
}

/// The matching of an update: pairs `(new index, old index)` in the order taken.
pub open spec fn update_matching(v: PointersView, new: Seq<(u32, u32)>, n: nat) -> Seq<(int, int)> {
    greedy(new, v.positions, flags_upto(n as int), flags_upto(v.length as int))
}

/// The new points that no old point matched, as flags over `1..=10`.
pub open spec fn update_unmatched_new(v: PointersView, new: Seq<(u32, u32)>, n: nat) -> Seq<bool> {
    clear_matched(flags_upto(n as int), update_matching(v, new, n), true)
}

/// The old points that no new point matched, as flags over `1..=10`.
pub open spec fn update_unmatched_old(v: PointersView, new: Seq<(u32, u32)>, n: nat) -> Seq<bool> {
    clear_matched(flags_upto(v.length as int), update_matching(v, new, n), false)
}

/// The slot events once the matched points have moved and the unmatched old ones are lifted.
pub open spec fn update_lifted_events(v: PointersView, new: Seq<(u32, u32)>, n: nat) -> Seq<Report> {
    let g = update_matching(v, new, n);
    mark_up_upto(
        apply_moves(Seq::new(10, |s: int| Report::Idle), g, new, v.positions, v.mappings),
        update_unmatched_old(v, new, n),
        v.mappings,
        10,
    )
}

/// The tracker does not run past its last slot while placing the unmatched new
/// points of an update (where it would panic): that happens when slot 9 was
/// just lifted and the unmatched new points need every free and lifted slot.
pub open spec fn update_fits(v: PointersView, new: Seq<(u32, u32)>, n: nat) -> bool {
    let e1 = update_lifted_events(v, new, n);
    !(e1[9] is Up && count_flags(update_unmatched_new(v, new, n), 10) == idle_slots(e1).len()
        + up_slots(e1).len())
}

/// A slot's event is one the previous events allow: `Move`, `Up` and `UpDown`
/// follow a touch, `Idle` and `Down` follow none.
pub open spec fn follows(prev: Report, next: Report) -> bool {
    (next is Move || next is Up || next is UpDown) <==> prev.is_touching()
}

/// The state after an update with the first `n` of `new`.
pub open spec fn update_spec(v: PointersView, new: Seq<(u32, u32)>, n: nat) -> PointersView {
    let g = update_matching(v, new, n);
    let un = update_unmatched_new(v, new, n);
    let e1 = update_lifted_events(v, new, n);
    let pos = apply_pos(new, v.positions, g);
    PointersView {
        positions: pos,
        length: n,
        mappings: maps_upto(apply_maps(Seq::new(10, |i: int| 0usize), g, v.mappings), un, e1, 10),
        events: insert_upto(e1, un, pos, 10),
    }
}

/// The slot of each tracked point reports the position the tracker keeps
/// for it.
pub open spec fn positions_reported(v: PointersView) -> bool {
    forall|i: int|
        0 <= i < v.length ==> report_pos(v.events[#[trigger] v.mappings[i] as int]) == v.positions[i]
}

impl Pointers {
    /// The state the tracker keeps between frames: ten positions; each of the tracked points
    /// has a slot of its own, which holds a touch, and every slot that holds a
    /// touch is a tracked point's.
    pub open spec fn wf(&self) -> bool {
        &&& self@.length <= 10
        &&& self@.positions.len() == 10
        &&& slots_ok(self@.mappings, self@.events, self@.length as int)
        &&& positions_reported(self@)
    }

    /// The id counter.
    pub closed spec fn counter(&self) -> Counter {
        self.counter
    }

    /// A tracker with no touch points and every slot idle.
    pub fn new() -> (r: Pointers)
        ensures
            r.wf(),
            r@.length == 0,
            r@.events == Seq::new(10, |s: int| Report::Idle),
            r@.positions == Seq::new(10, |i: int| (0u32, 0u32)),
            r@.mappings == Seq::new(10, |i: int| 0usize),
            r.counter()@ == 0,
    {
        let r = Pointers {
            counter: Counter::default(),
            positions: [(0, 0); 10],
            positions_length: 0,
            mappings: [0; 10],
            events: [Report::Idle; 10],
        };
        assert(r@.events =~= Seq::new(10, |s: int| Report::Idle));
        assert(r@.positions =~= Seq::new(10, |i: int| (0u32, 0u32)));
        assert(r@.mappings =~= Seq::new(10, |i: int| 0usize));
        r
    }

    /// Takes the touch points of a new frame, the first `new_length` of `new`,
    /// and reports per slot what happened: each new point is matched to the
    /// nearest tracked one (nearest pair first, within the detach threshold)
    /// and keeps its slot (`Move`); tracked points left over are lifted (`Up`);
    /// new points left over take free slots (`Down`) or else just-lifted ones (`UpDown`).
    pub fn update(&mut self, new: [(u32, u32); 10], new_length: usize)
        requires
            old(self).wf(),
            new_length <= 10,
            dists_fit(old(self)@.positions, new@),
            update_fits(old(self)@, new@, new_length as nat),
        ensures
            final(self).wf(),
            final(self)@ == update_spec(old(self)@, new@, new_length as nat),
            final(self).counter() == old(self).counter(),
            forall|s: int|
                0 <= s < 10 ==> follows(old(self)@.events[s], #[trigger] final(self)@.events[s]),
    {
        let mut new = new;
        let old_positions = self.positions;
        let old_length = self.positions_length;
        let mut events = [Report::Idle; 10];
        let distances = compute_distances(&old_positions, &new);
        let mut mappings = [0usize; 10];
        let mut new_pending = Set10Iter::new(new_length);
        let mut old_pending = Set10Iter::new(old_length);
        let ghost v = self@;
        let ghost new0 = new@;
        assert(events@ =~= Seq::new(10, |s: int| Report::Idle));
        assert(mappings@ =~= Seq::new(10, |i: int| 0usize));
        proof {
            assert forall|a: int, b: int| 1 <= a <= 10 && 1 <= b <= 10 implies #[trigger] distances[(a
                - 1) * 10 + (b - 1)] == pair_dist(new0, v.positions, a, b) && distances[(a - 1) * 10
                + (b - 1)] < u32::MAX by {
                assert(distances[(a - 1) * 10 + (b - 1)] == dist(v.positions[b - 1], new0[a - 1]));
            }
        }
        match_pointers(
            &distances,
            &mut new,
            &old_positions,
            &self.mappings,
            &mut new_pending,
            &mut old_pending,
            &mut events,
            &mut mappings,
            Ghost(v.events),
            Ghost(new_length as int),
            Ghost(old_length as int),
        );
        let ghost e_matched = events@;
        proof {
            let fo = old_pending.flags();
            assert forall|q: int| 1 <= q <= 10 && #[trigger] fo[q] implies self.mappings@[q - 1] < 10
                && e_matched[self.mappings@[q - 1] as int] is Idle by {
                assert(q <= old_length);
            }
            lemma_mark_up_keeps_moves(e_matched, fo, self.mappings@, 10);
        }
        mark_lifted(
            &old_pending,
            &self.mappings,
            &mut events,
            Ghost(mappings@),
            Ghost(new_pending.flags()),
            Ghost(v.events),
            Ghost(new_length as int),
            Ghost(old_length as int),
        );
        proof {
            lemma_lifted_to_placed(events@, mappings@, new_pending.flags(), old_pending.flags(), self.mappings@, v.events, new_length as int, old_length as int);
            lemma_kinds_total(events@, 10);
            crate::pointers::set10::lemma_count_bound(new_pending.flags(), 10);
            assert(insert_fits(events@, count_flags(new_pending.flags(), 10) as int));
            assert forall|i: int| placed(new_pending.flags(), new_length as int, 1, i) implies report_pos(
                events@[#[trigger] mappings@[i] as int],
            ) == new@[i] by {
                assert(e_matched[mappings@[i] as int] is Move);
            }
        }
        place_new(&new_pending, &new, &mut events, &mut mappings, Ghost(v.events), Ghost(new_length as int));
        self.positions = new;
        self.positions_length = new_length;
        self.mappings = mappings;
        self.events = events;
    }

    /// Whether `update` can take this frame: it cannot when the slot 9 was
    /// just lifted and the new touches need every free and lifted slot, where
    /// the tracker would run past its last slot.
    pub fn fits(&self, new: &[(u32, u32); 10], new_length: usize) -> (r: bool)
        requires
            self.wf(),
            new_length <= 10,
            dists_fit(self@.positions, new@),
        ensures
            r == update_fits(self@, new@, new_length as nat),
    {
        let ghost v = self@;
        let mut new = *new;
        let ghost new0 = new@;
        let old_positions = self.positions;
        let mut events = [Report::Idle; 10];
        let distances = compute_distances(&old_positions, &new);
        let mut mappings = [0usize; 10];
        let mut new_pending = Set10Iter::new(new_length);
        let mut old_pending = Set10Iter::new(self.positions_length);
        assert(events@ =~= Seq::new(10, |s: int| Report::Idle));
        proof {
            assert forall|a: int, b: int| 1 <= a <= 10 && 1 <= b <= 10 implies #[trigger] distances[(a
                - 1) * 10 + (b - 1)] == pair_dist(new0, v.positions, a, b) && distances[(a - 1) * 10
                + (b - 1)] < u32::MAX by {
                assert(distances[(a - 1) * 10 + (b - 1)] == dist(v.positions[b - 1], new0[a - 1]));
            }
        }
        match_pointers(
            &distances,
            &mut new,
            &old_positions,
            &self.mappings,
            &mut new_pending,
            &mut old_pending,
            &mut events,
            &mut mappings,
            Ghost(v.events),
            Ghost(new_length as int),
            Ghost(self.positions_length as int),
        );
        mark_lifted(
            &old_pending,
            &self.mappings,
            &mut events,
            Ghost(mappings@),
            Ghost(new_pending.flags()),
            Ghost(v.events),
            Ghost(new_length as int),
            Ghost(self.positions_length as int),
        );
        let mut free: usize = 0;
        let mut lifted: usize = 0;
        let mut s: usize = 0;
        while s < 10
            invariant
                0 <= s <= 10,
                free == slots_upto(events@, s as int, false).len(),
                lifted == slots_upto(events@, s as int, true).len(),
                free + lifted <= s,
            decreases 10 - s,
        {
            match events[s] {
                Report::Idle => {
                    free += 1;
                },
                Report::Up => {
                    lifted += 1;
                },
                _ => {},
            }
            s += 1;
        }
        let ghost f = new_pending.flags();
        let mut pending: usize = 0;
        let mut p = new_pending.next(0);
        proof {
            lemma_first_from_props(f, 1);
            lemma_count_skip(f, 0, if p == 0 { 10 } else { p - 1 });
        }
        while p != 0
            invariant
                new_pending.wf(),
                f == new_pending.flags(),
                p == 0 || (1 <= p <= 10 && f[p as int]),
                pending == count_flags(f, if p == 0 { 10 } else { p - 1 }),
                pending <= 10,
            decreases if p == 0 { 0 } else { 11 - p },
        {
            pending += 1;
            let next = new_pending.next(p);
            proof {
                lemma_first_from_props(f, p + 1);
                lemma_count_skip(f, p as int, if next == 0 { 10 } else { next - 1 });
                crate::pointers::set10::lemma_count_bound(f, p as int);
            }
            p = next;
        }
        let last_lifted = match events[9] {
            Report::Up => true,
            _ => false,
        };
        !(last_lifted && pending == free + lifted)
    }

    /// The events and the id counter, the counter to be used while the events are read.
    pub fn events_and_counter(&mut self) -> (r: (&[Report; 10], &mut Counter))
        ensures
            r.0@ == old(self)@.events,
            *r.1 == old(self).counter(),
            final(self)@ == old(self)@,
            final(self).counter() == *final(r.1),
            final(self).wf() == old(self).wf(),
    {
        (&self.events, &mut self.counter)
    }

    /// Whether every squared distance between a tracked point and a point of
    /// `new` fits the distance table, as `fits` and `update` need.
    pub fn distances_fit(&self, new: &[(u32, u32); 10]) -> (r: bool)
        requires
            self.wf(),
        ensures
            r == dists_fit(self@.positions, new@),
    {
        let mut i: usize = 0;
        while i < 10
            invariant
                0 <= i <= 10,
                self.wf(),
                forall|a: int, b: int|
                    0 <= a < i && 0 <= b < 10 ==> #[trigger] dist(self@.positions[b], new@[a])
                        < u32::MAX,
            decreases 10 - i,
        {
            let mut j: usize = 0;
            while j < 10
                invariant
                    0 <= i < 10,
                    0 <= j <= 10,
                    self.wf(),
                    forall|a: int, b: int|
                        0 <= a < i && 0 <= b < 10 ==> #[trigger] dist(self@.positions[b], new@[a])
                            < u32::MAX,
                    forall|b: int| 0 <= b < j ==> #[trigger] dist(self@.positions[b], new@[i as int])
                        < u32::MAX,
                decreases 10 - j,
            {
                let o = self.positions[j];
                let n = new[i];
                let dx: u128 = if o.0 < n.0 { (n.0 - o.0) as u128 } else { (o.0 - n.0) as u128 };
                let dy: u128 = if o.1 < n.1 { (n.1 - o.1) as u128 } else { (o.1 - n.1) as u128 };
                assert(dx * dx + dy * dy == dist(o, n)) by (nonlinear_arith)
                    requires
                        dx == o.0 - n.0 || dx == n.0 - o.0,
                        dy == o.1 - n.1 || dy == n.1 - o.1,
                        dist(o, n) == (o.0 - n.0) * (o.0 - n.0) + (o.1 - n.1) * (o.1 - n.1),
                ;
                assert(dx * dx <= 0xffff_ffff * 0xffff_ffff) by (nonlinear_arith)
                    requires
                        dx <= 0xffff_ffff,
                ;
                assert(dy * dy <= 0xffff_ffff * 0xffff_ffff) by (nonlinear_arith)
                    requires
                        dy <= 0xffff_ffff,
                ;
                if dx * dx + dy * dy >= 0xffff_ffff {
                    return false;
                }
                j += 1;
            }
            i += 1;
        }
        true
    }

    /// The event of each slot from the last update.
    pub fn events(&self) -> (r: &[Report; 10])
        ensures
            r@ == self@.events,
    {
        &self.events
    }
}

proof fn lemma_dist_symmetric(a: (u32, u32), b: (u32, u32))
    ensures
        dist(a, b) == dist(b, a),
        0 <= (a.0 - b.0) * (a.0 - b.0) <= dist(a, b),
        0 <= (a.1 - b.1) * (a.1 - b.1) <= dist(a, b),
{
    let dx = a.0 - b.0;
    let dy = a.1 - b.1;
    assert(0 <= dx * dx) by (nonlinear_arith);
    assert(0 <= dy * dy) by (nonlinear_arith);
    assert(dx * dx == (b.0 - a.0) * (b.0 - a.0)) by (nonlinear_arith)
        requires
            dx == a.0 - b.0,
    ;
    assert(dy * dy == (b.1 - a.1) * (b.1 - a.1)) by (nonlinear_arith)
        requires
            dy == a.1 - b.1,
    ;
}

fn sq_diff(a: u32, b: u32) -> (r: u32)
    requires
        (a - b) * (a - b) <= u32::MAX,
    ensures
        r == (a - b) * (a - b),
{
    let diff = if a < b {
        b - a
    } else {
        a - b
    };
    assert(diff * diff == (a - b) * (a - b)) by (nonlinear_arith)
        requires
            diff == a - b || diff == b - a,
    ;
    diff * diff
}

fn point_dist(a: (u32, u32), b: (u32, u32)) -> (r: u32)
    requires
        dist(a, b) < u32::MAX,
    ensures
        r == dist(a, b),
{
    proof {
        lemma_dist_symmetric(a, b);
    }
    sq_diff(a.0, b.0) + sq_diff(a.1, b.1)
}

/// The squared distance of every new point (row) to every old point (column).
fn compute_distances(old: &[(u32, u32); 10], new: &[(u32, u32); 10]) -> (r: [u32; 100])
    requires
        dists_fit(old@, new@),
    ensures
        forall|i: int, j: int|
            0 <= i < 10 && 0 <= j < 10 ==> #[trigger] r[i * 10 + j] == dist(old@[j], new@[i])
                && r[i * 10 + j] < u32::MAX,
{
    let mut distances = [0u32; 100];
    let mut new_i: usize = 0;
    while new_i < 10
        invariant
            0 <= new_i <= 10,
            dists_fit(old@, new@),
            forall|i: int, j: int|
                0 <= i < new_i && 0 <= j < 10 ==> #[trigger] distances[i * 10 + j] == dist(
                    old@[j],
                    new@[i],
                ) && distances[i * 10 + j] < u32::MAX,
        decreases 10 - new_i,
    {
        let mut old_i: usize = 0;
        while old_i < 10
            invariant
                0 <= new_i < 10,
                0 <= old_i <= 10,
                dists_fit(old@, new@),
                forall|i: int, j: int|
                    0 <= i < new_i && 0 <= j < 10 ==> #[trigger] distances[i * 10 + j] == dist(
                        old@[j],
                        new@[i],
                    ) && distances[i * 10 + j] < u32::MAX,
                forall|j: int|
                    0 <= j < old_i ==> #[trigger] distances[new_i * 10 + j] == dist(
                        old@[j],
                        new@[new_i as int],
                    ) && distances[new_i * 10 + j] < u32::MAX,
            decreases 10 - old_i,
        {
            let dist = point_dist(old[old_i], new[new_i]);
            distances[new_i * 10 + old_i] = dist;
            old_i += 1;
        }
        new_i += 1;
    }
    distances
}

/// The distance table of `new` to `old`, numbered from 1.
spec fn table_ok(
    distances: [u32; 100],
    new: Seq<(u32, u32)>,
    old: Seq<(u32, u32)>,
) -> bool {
    forall|a: int, b: int|
        1 <= a <= 10 && 1 <= b <= 10 ==> #[trigger] distances[(a - 1) * 10 + (b - 1)]
            == pair_dist(new, old, a, b) && distances[(a - 1) * 10 + (b - 1)] < u32::MAX
}

/// The preferred pending pair `(distance, new, old)`, numbered from 1, or new 0
/// when one side has nothing pending.
fn find_best(
    distances: &[u32; 100],
    new_pending: &Set10Iter,
    old_pending: &Set10Iter,
    Ghost(new): Ghost<Seq<(u32, u32)>>,
    Ghost(old): Ghost<Seq<(u32, u32)>>,
) -> (r: (u32, usize, usize))
    requires
        new_pending.wf(),
        old_pending.wf(),
        table_ok(*distances, new, old),
    ensures
        r.1 == 0 ==> forall|a: int, b: int|
            !is_best(new, old, new_pending.flags(), old_pending.flags(), a, b),
        r.1 != 0 ==> is_best(new, old, new_pending.flags(), old_pending.flags(), r.1 as int, r.2 as int)
            && r.0 == pair_dist(new, old, r.1 as int, r.2 as int),
{
    let ghost fnew = new_pending.flags();
    let ghost fold = old_pending.flags();
    let mut min_dist: u32 = u32::MAX;
    let mut min_new: usize = 0;
    let mut min_old: usize = 0;
    let mut new_p = new_pending.next(0);
    proof {
        lemma_first_from_props(fnew, 1);
    }
    if new_p == 0 {
        return (min_dist, 0, 0);
    }
    loop
        invariant_except_break
            min_new != 0 ==> min_new < new_p,
            forall|a2: int, b2: int|
                1 <= a2 <= 10 && 1 <= b2 <= 10 && #[trigger] fnew[a2] && #[trigger] fold[b2] && a2
                    < new_p ==> min_new != 0 && precedes(
                    min_dist as int,
                    min_new as int,
                    min_old as int,
                    pair_dist(new, old, a2, b2),
                    a2,
                    b2,
                ),
        invariant
            new_pending.wf(),
            old_pending.wf(),
            fnew == new_pending.flags(),
            fold == old_pending.flags(),
            table_ok(*distances, new, old),
            1 <= new_p <= 10,
            fnew[new_p as int],
            min_new == 0 ==> min_dist == u32::MAX,
            min_new != 0 ==> 1 <= min_new <= 10 && 1 <= min_old <= 10 && fnew[min_new as int]
                && fold[min_old as int] && min_dist == pair_dist(new, old, min_new as int, min_old as int),
        ensures
            min_new != 0,
            forall|a2: int, b2: int|
                1 <= a2 <= 10 && 1 <= b2 <= 10 && #[trigger] fnew[a2] && #[trigger] fold[b2]
                    ==> precedes(
                    min_dist as int,
                    min_new as int,
                    min_old as int,
                    pair_dist(new, old, a2, b2),
                    a2,
                    b2,
                ),
        decreases 11 - new_p,
    {
        let new_offset = (new_p - 1) * 10;
        let mut old_p = old_pending.next(0);
        proof {
            lemma_first_from_props(fold, 1);
        }
        if old_p == 0 {
            return (u32::MAX, 0, 0);
        }
        loop
            invariant_except_break
                min_new != 0 ==> (min_new < new_p || (min_new == new_p && min_old < old_p)),
                forall|a2: int, b2: int|
                    1 <= a2 <= 10 && 1 <= b2 <= 10 && #[trigger] fnew[a2] && #[trigger] fold[b2]
                        && (a2 < new_p || (a2 == new_p && b2 < old_p)) ==> min_new != 0
                        && precedes(
                        min_dist as int,
                        min_new as int,
                        min_old as int,
                        pair_dist(new, old, a2, b2),
                        a2,
                        b2,
                    ),
            invariant
                new_pending.wf(),
                old_pending.wf(),
                fnew == new_pending.flags(),
                fold == old_pending.flags(),
                table_ok(*distances, new, old),
                1 <= new_p <= 10,
                new_offset == (new_p - 1) * 10,
                fnew[new_p as int],
                1 <= old_p <= 10,
                fold[old_p as int],
                min_new == 0 ==> min_dist == u32::MAX,
                min_new != 0 ==> 1 <= min_new <= 10 && 1 <= min_old <= 10 && fnew[min_new as int]
                    && fold[min_old as int] && min_dist == pair_dist(
                    new,
                    old,
                    min_new as int,
                    min_old as int,
                ),
            ensures
                min_new != 0,
                min_new <= new_p,
                forall|a2: int, b2: int|
                    1 <= a2 <= 10 && 1 <= b2 <= 10 && #[trigger] fnew[a2] && #[trigger] fold[b2]
                        && a2 <= new_p ==> precedes(
                        min_dist as int,
                        min_new as int,
                        min_old as int,
                        pair_dist(new, old, a2, b2),
                        a2,
                        b2,
                    ),
            decreases 11 - old_p,
        {
            let dist = distances[new_offset + old_p - 1];
            assert(dist == pair_dist(new, old, new_p as int, old_p as int) && dist < u32::MAX) by {
                assert(distances[(new_p - 1) * 10 + (old_p - 1)] == pair_dist(
                    new,
                    old,
                    new_p as int,
                    old_p as int,
                ));
            }
            if dist < min_dist {
                min_dist = dist;
                min_new = new_p;
                min_old = old_p;
            }
            let next_old = old_pending.next(old_p);
            proof {
                lemma_first_from_props(fold, old_p + 1);
            }
            if next_old == 0 {
                break ;
            }
            old_p = next_old;
        }
        let next_new = new_pending.next(new_p);
        proof {
            lemma_first_from_props(fnew, new_p + 1);
        }
        if next_new == 0 {
            break ;
        }
        new_p = next_new;
    }
    (min_dist, min_new, min_old)
}

/// The slot numbers of the first `len` points are distinct slots, each of
/// which holds a touch.
pub open spec fn slots_ok(mappings: Seq<usize>, events: Seq<Report>, len: int) -> bool {
    &&& mappings.len() == 10
    &&& events.len() == 10
    &&& forall|i: int| 0 <= i < 10 ==> #[trigger] mappings[i] < 10
    &&& forall|i1: int, i2: int|
        0 <= i1 < len && 0 <= i2 < len && i1 != i2 ==> #[trigger] mappings[i1]
            != #[trigger] mappings[i2]
    &&& forall|i: int| 0 <= i < len ==> (#[trigger] events[mappings[i] as int]).is_touching()
    &&& forall|s: int|
        0 <= s < 10 && (#[trigger] events[s]).is_touching() ==> exists|i: int|
            0 <= i < len && #[trigger] mappings[i] == s
}

/// What holds while new points are matched: slots hold `Move` (for matched
/// points) or nothing; a moved slot held a touch before and belongs to exactly
/// one matched new point; the slots of unmatched old points are still free;
/// and the moves plus the pending new points number `nl`.
spec fn matched_ok(
    events: Seq<Report>,
    mappings: Seq<usize>,
    fnew: Seq<bool>,
    fold: Seq<bool>,
    om: Seq<usize>,
    prev_e: Seq<Report>,
    nl: int,
    ol: int,
) -> bool {
    &&& events.len() == 10
    &&& mappings.len() == 10
    &&& forall|s: int| 0 <= s < 10 ==> #[trigger] events[s] is Idle || events[s] is Move
    &&& forall|s: int| 0 <= s < 10 && (#[trigger] events[s] is Move) ==> prev_e[s].is_touching()
    &&& forall|s: int|
        0 <= s < 10 && (#[trigger] events[s] is Move) ==> exists|i: int|
            0 <= i < nl && !fnew[i + 1] && #[trigger] mappings[i] == s
    &&& forall|i: int| 0 <= i < nl && !fnew[i + 1] ==> events[#[trigger] mappings[i] as int] is Move
    &&& forall|i1: int, i2: int|
        0 <= i1 < nl && 0 <= i2 < nl && i1 != i2 && !fnew[i1 + 1] && !fnew[i2 + 1]
            ==> #[trigger] mappings[i1] != #[trigger] mappings[i2]
    &&& forall|q: int| 1 <= q <= ol && #[trigger] fold[q] ==> events[om[q - 1] as int] is Idle
    &&& forall|q: int| 1 <= q <= ol && !#[trigger] fold[q] ==> events[om[q - 1] as int] is Move
    &&& count_moves(events, 10) + count_flags(fnew, 10) == nl
}

proof fn lemma_count_moves_zero(e: Seq<Report>, h: int)
    requires
        0 <= h <= e.len(),
        forall|s: int| 0 <= s < h ==> #[trigger] e[s] is Idle,
    ensures
        count_moves(e, h) == 0,
    decreases h,
{
    if h > 0 {
        lemma_count_moves_zero(e, h - 1);
    }
}

/// Matching new point `a` to old point `b` keeps what holds while matching.
proof fn lemma_matched_step(
    e: Seq<Report>,
    m: Seq<usize>,
    fnew: Seq<bool>,
    fold: Seq<bool>,
    om: Seq<usize>,
    prev_e: Seq<Report>,
    nl: int,
    ol: int,
    a: int,
    b: int,
    pos: (u32, u32),
)
    requires
        matched_ok(e, m, fnew, fold, om, prev_e, nl, ol),
        slots_ok(om, prev_e, ol),
        forall|i: int| 0 <= i < 10 ==> #[trigger] m[i] < 10,
        flags_ok(fnew, nl),
        flags_ok(fold, ol),
        1 <= a <= 10,
        1 <= b <= 10,
        fnew[a],
        fold[b],
    ensures
        matched_ok(
            e.update(om[b - 1] as int, Report::Move(pos)),
            m.update(a - 1, om[b - 1]),
            fnew.update(a, false),
            fold.update(b, false),
            om,
            prev_e,
            nl,
            ol,
        ),
{
    let slot = om[b - 1] as int;
    let e2 = e.update(slot, Report::Move(pos));
    let m2 = m.update(a - 1, om[b - 1]);
    let fn2 = fnew.update(a, false);
    let fo2 = fold.update(b, false);
    assert(b <= ol && a <= nl);
    assert(e[slot] is Idle);
    assert(prev_e[slot].is_touching()) by {
        assert(prev_e[om[b - 1] as int].is_touching());
    }
    assert forall|s: int|
        0 <= s < 10 && (#[trigger] e2[s] is Move) implies exists|i: int|
        0 <= i < nl && !fn2[i + 1] && #[trigger] m2[i] == s by {
        if s == slot {
            assert(m2[a - 1] == s);
        } else {
            assert(e[s] is Move);
            let i = choose|i: int| 0 <= i < nl && !fnew[i + 1] && #[trigger] m[i] == s;
            assert(i != a - 1);
            assert(m2[i] == s);
        }
    }
    assert forall|i: int| 0 <= i < nl && !fn2[i + 1] implies e2[#[trigger] m2[i] as int] is Move by {
        if i != a - 1 {
            assert(!fnew[i + 1]);
            assert(e[m[i] as int] is Move);
            assert(m[i] as int != slot);
            assert(m2[i] == m[i]);
        } else {
            assert(m2[i] as int == slot);
        }
    }
    assert forall|i1: int, i2: int|
        0 <= i1 < nl && 0 <= i2 < nl && i1 != i2 && !fn2[i1 + 1] && !fn2[i2 + 1] implies #[trigger] m2[i1]
        != #[trigger] m2[i2] by {
        if i1 == a - 1 {
            assert(e[m[i2] as int] is Move);
        } else if i2 == a - 1 {
            assert(e[m[i1] as int] is Move);
        } else {
            assert(m[i1] != m[i2]);
        }
    }
    assert forall|q: int| 1 <= q <= ol && #[trigger] fo2[q] implies e2[om[q - 1] as int] is Idle by {
        assert(q != b);
        assert(fold[q]);
        assert(om[q - 1] != om[b - 1]);
    }
    assert forall|q: int| 1 <= q <= ol && !#[trigger] fo2[q] implies e2[om[q - 1] as int] is Move by {
        if q != b {
            assert(!fold[q]);
            assert(e[om[q - 1] as int] is Move);
        }
    }
    lemma_count_moves_update(e, slot, Report::Move(pos), 10);
    crate::pointers::set10::lemma_count_clear(fnew, a, 10);
}

/// What holds while unmatched old points are lifted, those below `bound` done:
/// as `matched_ok`, but the slots of unmatched old points below `bound` hold `Up`.
spec fn lifting_ok(
    events: Seq<Report>,
    mappings: Seq<usize>,
    fnew: Seq<bool>,
    fold: Seq<bool>,
    om: Seq<usize>,
    prev_e: Seq<Report>,
    nl: int,
    ol: int,
    bound: int,
) -> bool {
    &&& events.len() == 10
    &&& mappings.len() == 10
    &&& forall|s: int|
        0 <= s < 10 ==> #[trigger] events[s] is Idle || events[s] is Up || events[s] is Move
    &&& forall|s: int|
        0 <= s < 10 && (#[trigger] events[s] is Move || events[s] is Up)
            ==> prev_e[s].is_touching()
    &&& forall|s: int|
        0 <= s < 10 && (#[trigger] events[s] is Move) ==> exists|i: int|
            0 <= i < nl && !fnew[i + 1] && #[trigger] mappings[i] == s
    &&& forall|i: int| 0 <= i < nl && !fnew[i + 1] ==> events[#[trigger] mappings[i] as int] is Move
    &&& forall|i1: int, i2: int|
        0 <= i1 < nl && 0 <= i2 < nl && i1 != i2 && !fnew[i1 + 1] && !fnew[i2 + 1]
            ==> #[trigger] mappings[i1] != #[trigger] mappings[i2]
    &&& forall|q: int|
        1 <= q <= ol && #[trigger] fold[q] ==> if q < bound {
            events[om[q - 1] as int] is Up
        } else {
            events[om[q - 1] as int] is Idle
        }
    &&& forall|q: int| 1 <= q <= ol && !#[trigger] fold[q] ==> events[om[q - 1] as int] is Move
    &&& count_moves(events, 10) + count_flags(fnew, 10) == nl
}

/// Lifting touches only free slots, so a slot holding a move keeps it.
proof fn lemma_mark_up_keeps_moves(e: Seq<Report>, uo: Seq<bool>, om: Seq<usize>, k: int)
    requires
        0 <= k <= 10,
        e.len() == 10,
        forall|q: int| 1 <= q <= k && #[trigger] uo[q] ==> om[q - 1] < 10 && e[om[q - 1] as int] is Idle,
    ensures
        mark_up_upto(e, uo, om, k).len() == 10,
        forall|s: int| 0 <= s < 10 && e[s] is Move ==> #[trigger] mark_up_upto(e, uo, om, k)[s] == e[s],
    decreases k,
{
    if k > 0 {
        lemma_mark_up_keeps_moves(e, uo, om, k - 1);
        if uo[k] {
            assert(om[k - 1] < 10 && e[om[k - 1] as int] is Idle);
        }
    }
}

/// The slot of each placed point reports the position remembered for it.
spec fn reported_ok(
    events: Seq<Report>,
    mappings: Seq<usize>,
    new: Seq<(u32, u32)>,
    fnew: Seq<bool>,
    nl: int,
    bound: int,
) -> bool {
    forall|i: int|
        placed(fnew, nl, bound, i) ==> report_pos(events[#[trigger] mappings[i] as int]) == new[i]
}

/// New point `i` has its slot once new points below `bound` are placed.
spec fn placed(fnew: Seq<bool>, nl: int, bound: int, i: int) -> bool {
    0 <= i < nl && (!fnew[i + 1] || i + 1 < bound)
}

/// What holds while unmatched new points are placed, those below `bound` done:
/// a slot held a touch before exactly when it now holds `Move`, `Up` or
/// `UpDown`; the placed points have distinct slots, each holding a touch, and
/// every slot holding a touch is one of theirs.
spec fn placed_ok(
    events: Seq<Report>,
    mappings: Seq<usize>,
    fnew: Seq<bool>,
    prev_e: Seq<Report>,
    nl: int,
    bound: int,
) -> bool {
    &&& events.len() == 10
    &&& mappings.len() == 10
    &&& forall|s: int|
        0 <= s < 10 ==> ((#[trigger] events[s] is Move || events[s] is Up || events[s] is UpDown)
            <==> prev_e[s].is_touching())
    &&& forall|s: int|
        0 <= s < 10 && (#[trigger] events[s]).is_touching() ==> exists|i: int|
            placed(fnew, nl, bound, i) && #[trigger] mappings[i] == s
    &&& forall|i: int|
        placed(fnew, nl, bound, i) ==> (events[#[trigger] mappings[i] as int]).is_touching()
    &&& forall|i1: int, i2: int|
        placed(fnew, nl, bound, i1) && placed(fnew, nl, bound, i2) && i1 != i2
            ==> #[trigger] mappings[i1] != #[trigger] mappings[i2]
}

/// Once all unmatched old points are lifted, placing can begin.
proof fn lemma_lifted_to_placed(
    events: Seq<Report>,
    mappings: Seq<usize>,
    fnew: Seq<bool>,
    fold: Seq<bool>,
    om: Seq<usize>,
    prev_e: Seq<Report>,
    nl: int,
    ol: int,
)
    requires
        lifting_ok(events, mappings, fnew, fold, om, prev_e, nl, ol, 11),
        forall|s: int| 0 <= s < 10 && (#[trigger] events[s] is Idle) ==> !prev_e[s].is_touching(),
        forall|i: int| 0 <= i < 10 ==> #[trigger] mappings[i] < 10,
        0 <= nl <= 10,
    ensures
        placed_ok(events, mappings, fnew, prev_e, nl, 1),
{
    assert forall|s: int| 0 <= s < 10 && (#[trigger] events[s]).is_touching() implies exists|i: int|
        placed(fnew, nl, 1, i) && #[trigger] mappings[i] == s by {
        let i = choose|i: int| 0 <= i < nl && !fnew[i + 1] && #[trigger] mappings[i] == s;
        assert(placed(fnew, nl, 1, i));
    }
    assert forall|i: int| placed(fnew, nl, 1, i) implies (events[#[trigger] mappings[i] as int]).is_touching() by {
        assert(events[mappings[i] as int] is Move);
    }
}

/// Matches pending new points to pending old ones, nearest pair first, until
/// a side runs out or the nearest pair is beyond the detach threshold.
fn match_pointers(
    distances: &[u32; 100],
    new: &mut [(u32, u32); 10],
    prev: &[(u32, u32); 10],
    om: &[usize; 10],
    new_pending: &mut Set10Iter,
    old_pending: &mut Set10Iter,
    events: &mut [Report; 10],
    mappings: &mut [usize; 10],
    Ghost(prev_e): Ghost<Seq<Report>>,
    Ghost(nl): Ghost<int>,
    Ghost(ol): Ghost<int>,
)
    requires
        table_ok(*distances, old(new)@, prev@),
        dists_fit(prev@, old(new)@),
        slots_ok(om@, prev_e, ol),
        old(new_pending).limit@ == nl,
        old(old_pending).limit@ == ol,
        old(new_pending).flags() == flags_upto(nl),
        old(old_pending).flags() == flags_upto(ol),
        forall|s: int| 0 <= s < 10 ==> #[trigger] old(events)@[s] is Idle,
        old(new_pending).wf(),
        old(old_pending).wf(),
        forall|i: int| 0 <= i < 10 ==> #[trigger] om[i] < 10,
        forall|i: int| 0 <= i < 10 ==> #[trigger] old(mappings)[i] < 10,
    ensures
        forall|i: int| 0 <= i < 10 ==> #[trigger] final(mappings)[i] < 10,
        final(new_pending).limit@ == nl,
        final(old_pending).limit@ == ol,
        matched_ok(
            final(events)@,
            final(mappings)@,
            final(new_pending).flags(),
            final(old_pending).flags(),
            om@,
            prev_e,
            nl,
            ol,
        ),
        ({
            let g = greedy(old(new)@, prev@, old(new_pending).flags(), old(old_pending).flags());
            &&& final(new_pending).wf()
            &&& final(old_pending).wf()
            &&& final(new_pending).flags() == clear_matched(old(new_pending).flags(), g, true)
            &&& final(old_pending).flags() == clear_matched(old(old_pending).flags(), g, false)
            &&& final(new)@ == apply_pos(old(new)@, prev@, g)
            &&& final(events)@ == apply_moves(old(events)@, g, old(new)@, prev@, om@)
            &&& final(mappings)@ == apply_maps(old(mappings)@, g, om@)
        }),
        reported_ok(final(events)@, final(mappings)@, final(new)@, final(new_pending).flags(), nl, 1),
{
    let ghost new0 = new@;
    let ghost fn0 = new_pending.flags();
    let ghost fo0 = old_pending.flags();
    let ghost e0 = events@;
    let ghost m0 = mappings@;
    let ghost g = greedy(new0, prev@, fn0, fo0);
    let ghost mut pairs: Seq<(int, int)> = seq![];
    assert(g =~= pairs + greedy(new0, prev@, fn0, fo0));
    proof {
        crate::pointers::set10::lemma_count_upto(nl, 10);
        assert(count_moves(events@, 10) == 0) by {
            lemma_count_moves_zero(events@, 10);
        }
        assert forall|q: int| 1 <= q <= ol && #[trigger] fo0[q] implies events@[om@[q
            - 1] as int] is Idle by {
            assert(om@[q - 1] < 10);
        }
        assert forall|q: int| 1 <= q <= ol && !#[trigger] fo0[q] implies events@[om@[q
            - 1] as int] is Move by {
            assert(fo0[q]);
        }
    }
    loop
        invariant
            table_ok(*distances, new0, prev@),
            dists_fit(prev@, new0),
            new_pending.wf(),
            old_pending.wf(),
            forall|i: int| 0 <= i < 10 ==> #[trigger] om[i] < 10,
            g == greedy(new0, prev@, fn0, fo0),
            g == pairs + greedy(new0, prev@, new_pending.flags(), old_pending.flags()),
            new_pending.flags() == clear_matched(fn0, pairs, true),
            old_pending.flags() == clear_matched(fo0, pairs, false),
            new@ == apply_pos(new0, prev@, pairs),
            events@ == apply_moves(e0, pairs, new0, prev@, om@),
            mappings@ == apply_maps(m0, pairs, om@),
            forall|q: int| 1 <= q <= 10 && #[trigger] new_pending.flags()[q] ==> new@[q - 1] == new0[q - 1],
            forall|i: int| 0 <= i < 10 ==> #[trigger] mappings[i] < 10,
            slots_ok(om@, prev_e, ol),
            new_pending.limit@ == nl,
            old_pending.limit@ == ol,
            matched_ok(
                events@,
                mappings@,
                new_pending.flags(),
                old_pending.flags(),
                om@,
                prev_e,
                nl,
                ol,
            ),
            reported_ok(events@, mappings@, new@, new_pending.flags(), nl, 1),
        ensures
            new_pending.limit@ == nl,
            old_pending.limit@ == ol,
            matched_ok(
                events@,
                mappings@,
                new_pending.flags(),
                old_pending.flags(),
                om@,
                prev_e,
                nl,
                ol,
            ),
            g == pairs,
            forall|i: int| 0 <= i < 10 ==> #[trigger] mappings[i] < 10,
            new_pending.wf(),
            old_pending.wf(),
            new_pending.flags() == clear_matched(fn0, pairs, true),
            old_pending.flags() == clear_matched(fo0, pairs, false),
            new@ == apply_pos(new0, prev@, pairs),
            events@ == apply_moves(e0, pairs, new0, prev@, om@),
            mappings@ == apply_maps(m0, pairs, om@),
            reported_ok(events@, mappings@, new@, new_pending.flags(), nl, 1),
        decreases crate::pointers::set10::count_flags(new_pending.flags(), 10),
    {
        let ghost fn_cur = new_pending.flags();
        let ghost fo_cur = old_pending.flags();
        let (min_dist, min_new, min_old) = find_best(
            distances,
            new_pending,
            old_pending,
            Ghost(new0),
            Ghost(prev@),
        );
        if min_new == 0 {
            assert(g =~= pairs);
            break ;
        }
        proof {
            lemma_greedy_step(new0, prev@, fn_cur, fo_cur, min_new as int, min_old as int);
        }
        if min_dist > DETACH_THRESHOLD {
            assert(g =~= pairs);
            break ;
        }
        new_pending.remove(min_new);
        old_pending.remove(min_old);
        proof {
            crate::pointers::set10::lemma_count_clear(fn_cur, min_new as int, 10);
        }
        let old_i = min_old - 1;
        let mapped = om[old_i];
        let new_i = min_new - 1;
        let ghost e_before = events@;
        let ghost m_before = mappings@;
        let ghost n_before = new@;
        proof {
            assert(fo_cur[min_old as int]);
            assert(e_before[mapped as int] is Idle);
        }
        mappings[new_i] = mapped;
        let mut pos = new[new_i];
        let old_pos = prev[old_i];
        assert(pos == new0[new_i as int]);
        proof {
            lemma_dist_symmetric(pos, old_pos);
        }
        // Ignore anything less than 16 units away
        if min_dist <= 256 {
            pos = old_pos;
        }
        assert(pos == moved(new0[new_i as int], prev@[old_i as int]));
        new[new_i] = pos;
        events[mapped] = Report::Move(pos);
        proof {
            lemma_matched_step(
                e_before,
                m_before,
                fn_cur,
                fo_cur,
                om@,
                prev_e,
                nl,
                ol,
                min_new as int,
                min_old as int,
                pos,
            );
            crate::pointers::set10::lemma_count_clear(fn_cur, min_new as int, 10);
            assert(events@ == e_before.update(mapped as int, Report::Move(pos)));
            assert(mappings@ == m_before.update(new_i as int, mapped));
            let fn_next = new_pending.flags();
            assert forall|i: int| placed(fn_next, nl, 1, i) implies report_pos(
                events@[#[trigger] mappings@[i] as int],
            ) == new@[i] by {
                if i != new_i as int {
                    assert(placed(fn_cur, nl, 1, i));
                    assert(e_before[m_before[i] as int] is Move);
                    assert(m_before[i] != mapped);
                }
            }
            let p = (new_i as int, old_i as int);
            let np = pairs.push(p);
            assert(np.drop_last() =~= pairs);
            assert(g =~= np + greedy(new0, prev@, new_pending.flags(), old_pending.flags()));
            pairs = np;
        }
    }
}

/// Marks the slots of the old points left in `old_pending` as lifted.
fn mark_lifted(
    old_pending: &Set10Iter,
    om: &[usize; 10],
    events: &mut [Report; 10],
    Ghost(mappings): Ghost<Seq<usize>>,
    Ghost(fnew): Ghost<Seq<bool>>,
    Ghost(prev_e): Ghost<Seq<Report>>,
    Ghost(nl): Ghost<int>,
    Ghost(ol): Ghost<int>,
)
    requires
        old_pending.wf(),
        old_pending.limit@ == ol,
        slots_ok(om@, prev_e, ol),
        mappings.len() == 10,
        0 <= nl <= 10,
        forall|i: int| 0 <= i < 10 ==> #[trigger] mappings[i] < 10,
        matched_ok(old(events)@, mappings, fnew, old_pending.flags(), om@, prev_e, nl, ol),
    ensures
        final(events)@ == mark_up_upto(old(events)@, old_pending.flags(), om@, 10),
        lifting_ok(final(events)@, mappings, fnew, old_pending.flags(), om@, prev_e, nl, ol, 11),
        forall|s: int| 0 <= s < 10 && (#[trigger] final(events)@[s] is Idle) ==> !prev_e[s].is_touching(),
{
    let ghost f = old_pending.flags();
    let ghost e0 = events@;
    let mut old_p = old_pending.next(0);
    proof {
        lemma_first_from_props(f, 1);
        lemma_mark_up_skip(e0, f, om@, 0, if old_p == 0 { 10 } else { old_p - 1 });
        assert(lifting_ok(events@, mappings, fnew, f, om@, prev_e, nl, ol, if old_p == 0 { 11 } else { old_p as int }));
    }
    while old_p != 0
        invariant
            old_pending.wf(),
            old_pending.limit@ == ol,
            f == old_pending.flags(),
            forall|i: int| 0 <= i < 10 ==> #[trigger] om[i] < 10,
            slots_ok(om@, prev_e, ol),
            forall|i: int| 0 <= i < 10 ==> #[trigger] mappings[i] < 10,
            0 <= nl <= 10,
            old_p == 0 || (1 <= old_p <= 10 && f[old_p as int]),
            events@ == mark_up_upto(e0, f, om@, if old_p == 0 { 10 } else { old_p - 1 }),
            lifting_ok(events@, mappings, fnew, f, om@, prev_e, nl, ol, if old_p == 0 { 11 } else { old_p as int }),
        decreases if old_p == 0 { 0 } else { 11 - old_p },
    {
        let ghost eb = events@;
        let ghost slot = om@[old_p - 1] as int;
        proof {
            assert(old_p <= ol);
            assert(eb[slot] is Idle);
            assert(prev_e[slot].is_touching());
        }
        events[om[old_p - 1]] = Report::Up;
        let next = old_pending.next(old_p);
        proof {
            lemma_first_from_props(f, old_p + 1);
            lemma_mark_up_skip(e0, f, om@, old_p as int, if next == 0 { 10 } else { next - 1 });
            let nb = if next == 0 { 11 } else { next as int };
            let e2 = events@;
            assert(e2 == eb.update(slot, Report::Up));
            assert forall|s: int|
                0 <= s < 10 && (#[trigger] e2[s] is Move) implies exists|i: int|
                0 <= i < nl && !fnew[i + 1] && #[trigger] mappings[i] == s by {
                assert(eb[s] is Move);
            }
            assert forall|i: int| 0 <= i < nl && !fnew[i + 1] implies e2[#[trigger] mappings[i] as int] is Move by {
                assert(mappings[i] < 10);
                assert(eb[mappings[i] as int] is Move);
                assert(mappings[i] as int != slot);
            }
            assert forall|q: int|
                1 <= q <= ol && #[trigger] f[q] implies if q < nb {
                    e2[om@[q - 1] as int] is Up
                } else {
                    e2[om@[q - 1] as int] is Idle
                } by {
                if q != old_p {
                    assert(om@[q - 1] != om@[old_p - 1]);
                }
            }
            assert forall|q: int| 1 <= q <= ol && !#[trigger] f[q] implies e2[om@[q - 1] as int] is Move by {
                assert(q != old_p);
                assert(om@[q - 1] != om@[old_p - 1]);
            }
            lemma_count_moves_update(eb, slot, Report::Up, 10);
        }
        old_p = next;
    }
    proof {
        assert forall|s: int| 0 <= s < 10 && (#[trigger] events@[s] is Idle) implies !prev_e[s].is_touching() by {
            if prev_e[s].is_touching() {
                let j = choose|j: int| 0 <= j < ol && #[trigger] om@[j] == s;
                if f[j + 1] {
                } else {
                }
            }
        }
    }
}

/// Which kind of slot the insertion cursor is filling.
#[derive(PartialEq, Eq, Structural)]
enum EventsInsertIterStage {
    /// Free slots.
    Idle,
    /// Slots whose touch was just lifted.
    Up,
}

impl EventsInsertIterStage {
    fn advance(&mut self)
        requires
            *old(self) == EventsInsertIterStage::Idle,
        ensures
            *final(self) == EventsInsertIterStage::Up,
    {
        *self = match *self {
            EventsInsertIterStage::Idle => EventsInsertIterStage::Up,
            EventsInsertIterStage::Up => {
                assert(false);
                EventsInsertIterStage::Up
            },
        }
    }
}

/// A cursor over the slots that places new touches: first in free slots,
/// ascending, then in slots just lifted, ascending.
struct EventsInsertIter {
    head: usize,
    stage: EventsInsertIterStage,
}

impl EventsInsertIter {
    /// The cursor has placed `k` touches into `cur`, which was `e` before.
    spec fn inv(&self, e: Seq<Report>, cur: Seq<Report>, k: int) -> bool {
        &&& e.len() == 10
        &&& cur.len() == 10
        &&& self.head < 10
        &&& self.stage == EventsInsertIterStage::Idle ==> k == slots_upto(
            e,
            self.head as int,
            false,
        ).len()
        &&& self.stage == EventsInsertIterStage::Up ==> k == idle_slots(e).len() + slots_upto(
            e,
            self.head as int,
            true,
        ).len()
        &&& forall|s: int|
            0 <= s < 10 ==> {
                let taken_idle = e[s] is Idle && (self.stage == EventsInsertIterStage::Up || s
                    < self.head);
                let taken_up = e[s] is Up && self.stage == EventsInsertIterStage::Up && s
                    < self.head;
                &&& taken_idle ==> #[trigger] cur[s] is Down
                &&& taken_up ==> cur[s] is UpDown
                &&& !taken_idle && !taken_up ==> cur[s] == e[s]
            }
    }

    fn new() -> (r: EventsInsertIter)
        ensures
            r.head == 0,
            r.stage == EventsInsertIterStage::Idle,
    {
        EventsInsertIter { head: 0, stage: EventsInsertIterStage::Idle }
    }

    fn advance_head(&mut self)
        requires
            old(self).head < 10,
            old(self).head == 9 ==> old(self).stage == EventsInsertIterStage::Idle,
        ensures
            old(self).head < 9 ==> final(self).head == old(self).head + 1 && final(self).stage
                == old(self).stage,
            old(self).head == 9 ==> final(self).head == 0 && final(self).stage
                == EventsInsertIterStage::Up,
    {
        self.head += 1;
        if self.head == 10 {
            self.head = 0;
            self.stage.advance();
        }
    }

    /// The cursor passes over this slot.
    fn skips(&self, r: Report) -> (b: bool)
        ensures
            b == match r {
                Report::Idle => self.stage != EventsInsertIterStage::Idle,
                Report::Up => self.stage != EventsInsertIterStage::Up,
                _ => true,
            },
    {
        match r {
            Report::Idle => self.stage != EventsInsertIterStage::Idle,
            Report::Up => self.stage != EventsInsertIterStage::Up,
            _ => true,
        }
    }

    /// Places a touch at `pos` into the next slot and returns that slot.
    fn insert(
        &mut self,
        events: &mut [Report; 10],
        pos: (u32, u32),
        Ghost(e): Ghost<Seq<Report>>,
        Ghost(k): Ghost<int>,
    ) -> (r: usize)
        requires
            old(self).inv(e, old(events)@, k),
            k < idle_slots(e).len() + up_slots(e).len(),
            !(k >= idle_slots(e).len() && slot_for(e, k) == 9),
        ensures
            r == slot_for(e, k),
            r < 10,
            (old(events)@[r as int] is Idle && insert_event(e, k, pos) is Down) || (
            old(events)@[r as int] is Up && insert_event(e, k, pos) is UpDown),
            final(events)@ == old(events)@.update(r as int, insert_event(e, k, pos)),
            final(self).inv(e, final(events)@, k + 1),
    {
        proof {
            lemma_slots_upto(e, 0, 10, false);
            lemma_slots_upto(e, 0, 10, true);
        }
        while self.skips(events[self.head])
            invariant
                self.inv(e, events@, k),
                k < idle_slots(e).len() + up_slots(e).len(),
            decreases (if self.stage == EventsInsertIterStage::Idle {
                20 - self.head
            } else {
                10 - self.head
            }),
        {
            let ghost h = self.head as int;
            proof {
                assert(events@[h] == events[self.head as int]);
                if self.stage == EventsInsertIterStage::Idle {
                    assert(!(e[h] is Idle));
                    assert(slots_upto(e, h + 1, false) == slots_upto(e, h, false));
                } else {
                    assert(!(e[h] is Up));
                    assert(slots_upto(e, h + 1, true) == slots_upto(e, h, true));
                }
            }
            self.advance_head();
        }
        let result = self.head;
        let ghost h = result as int;
        proof {
            assert(events@[h] == events[self.head as int]);
            if self.stage == EventsInsertIterStage::Idle {
                lemma_slots_hit(e, h, false);
                assert(slots_upto(e, h + 1, false) == slots_upto(e, h, false).push(h));
            } else {
                assert(e[h] is Up);
                lemma_slots_hit(e, h, true);
                assert(slots_upto(e, h + 1, true) == slots_upto(e, h, true).push(h));
            }
        }
        events[result] = match self.stage {
            EventsInsertIterStage::Idle => Report::Down(pos),
            EventsInsertIterStage::Up => Report::UpDown(pos),
        };
        self.advance_head();
        result
    }
}

/// The `k`-th placement that fits never needs the lifted last slot.
proof fn lemma_fits_not_last(e: Seq<Report>, n: int, k: int)
    requires
        e.len() == 10,
        insert_fits(e, n),
        0 <= k < n,
    ensures
        k < idle_slots(e).len() + up_slots(e).len(),
        !(k >= idle_slots(e).len() && slot_for(e, k) == 9),
{
    lemma_slots_bound(e, 9, true);
    if k >= idle_slots(e).len() && slot_for(e, k) == 9 {
        let s9 = slots_upto(e, 9, true);
        if e[9] is Up {
            assert(up_slots(e) == s9.push(9));
            if k - idle_slots(e).len() < s9.len() {
                assert(up_slots(e)[k - idle_slots(e).len()] == s9[k - idle_slots(e).len()]);
            }
        } else {
            assert(up_slots(e) == s9);
        }
    }
}

/// Places the new points left in `new_pending` through an insertion cursor.
fn place_new(
    new_pending: &Set10Iter,
    new: &[(u32, u32); 10],
    events: &mut [Report; 10],
    mappings: &mut [usize; 10],
    Ghost(prev_e): Ghost<Seq<Report>>,
    Ghost(nl): Ghost<int>,
)
    requires
        new_pending.wf(),
        new_pending.limit@ == nl,
        insert_fits(old(events)@, count_flags(new_pending.flags(), 10) as int),
        forall|i: int| 0 <= i < 10 ==> #[trigger] old(mappings)[i] < 10,
        placed_ok(old(events)@, old(mappings)@, new_pending.flags(), prev_e, nl, 1),
        reported_ok(old(events)@, old(mappings)@, new@, new_pending.flags(), nl, 1),
    ensures
        reported_ok(final(events)@, final(mappings)@, new@, new_pending.flags(), nl, 11),
        forall|i: int| 0 <= i < 10 ==> #[trigger] final(mappings)[i] < 10,
        placed_ok(final(events)@, final(mappings)@, new_pending.flags(), prev_e, nl, 11),
        final(events)@ == insert_upto(old(events)@, new_pending.flags(), new@, 10),
        final(mappings)@ == maps_upto(old(mappings)@, new_pending.flags(), old(events)@, 10),
{
    let ghost f = new_pending.flags();
    let ghost e1 = events@;
    let ghost m1 = mappings@;
    let mut new_p = new_pending.next(0);
    let mut events_insert_iter = EventsInsertIter::new();
    proof {
        lemma_first_from_props(f, 1);
        let q = if new_p == 0 { 10 } else { new_p - 1 };
        lemma_insert_skip(e1, f, new@, m1, 0, q);
        lemma_count_skip(f, 0, q);
        lemma_slots_upto(e1, 0, 10, false);
        assert forall|s: int| 0 <= s < 10 implies #[trigger] events@[s] == e1[s] by {}
        let b = if new_p == 0 { 11 } else { new_p as int };
        assert forall|i: int| placed(f, nl, 1, i) <==> placed(f, nl, b, i) by {
            if 0 <= i < nl && i + 1 < b {
                assert(!f[i + 1]);
            }
        }
        assert(placed_ok(events@, mappings@, f, prev_e, nl, b));
        assert(reported_ok(events@, mappings@, new@, f, nl, b));
    }
    while new_p != 0
        invariant
            new_pending.wf(),
            f == new_pending.flags(),
            e1.len() == 10,
            insert_fits(e1, count_flags(f, 10) as int),
            forall|i: int| 0 <= i < 10 ==> #[trigger] mappings[i] < 10,
            new_pending.limit@ == nl,
            placed_ok(events@, mappings@, f, prev_e, nl, if new_p == 0 { 11 } else { new_p as int }),
            reported_ok(events@, mappings@, new@, f, nl, if new_p == 0 { 11 } else { new_p as int }),
            new_p == 0 || (1 <= new_p <= 10 && f[new_p as int]),
            events@ == insert_upto(e1, f, new@, if new_p == 0 { 10 } else { new_p - 1 }),
            mappings@ == maps_upto(m1, f, e1, if new_p == 0 { 10 } else { new_p - 1 }),
            events_insert_iter.inv(
                e1,
                events@,
                count_flags(f, if new_p == 0 { 10 } else { new_p - 1 }) as int,
            ),
        decreases if new_p == 0 { 0 } else { 11 - new_p },
    {
        let new_i = new_p - 1;
        let pos = new[new_i];
        let ghost k = count_flags(f, new_i as int) as int;
        proof {
            lemma_count_mono(f, new_p as int, 10);
            lemma_fits_not_last(e1, count_flags(f, 10) as int, k);
        }
        let ghost eb = events@;
        let ghost mb = mappings@;
        let slot = events_insert_iter.insert(events, pos, Ghost(e1), Ghost(k));
        mappings[new_i] = slot;
        let next = new_pending.next(new_p);
        proof {
            lemma_first_from_props(f, new_p + 1);
            let nb = if next == 0 { 11 } else { next as int };
            let ob = new_p as int;
            let e2 = events@;
            let m2 = mappings@;
            assert(new_p <= nl);
            assert(!eb[slot as int].is_touching());
            assert forall|i: int| placed(f, nl, nb, i) <==> (placed(f, nl, ob, i) || i == new_i) by {
                if 0 <= i < nl && ob <= i + 1 < nb && i != new_i {
                    assert(!f[i + 1]);
                }
            }
            assert forall|s: int|
                0 <= s < 10 && (#[trigger] e2[s]).is_touching() implies exists|i: int|
                placed(f, nl, nb, i) && #[trigger] m2[i] == s by {
                if s == slot {
                    assert(m2[new_i as int] == s);
                } else {
                    assert(eb[s].is_touching());
                    let i = choose|i: int| placed(f, nl, ob, i) && #[trigger] mb[i] == s;
                    assert(i != new_i);
                    assert(m2[i] == s);
                }
            }
            assert forall|i: int| placed(f, nl, nb, i) implies (e2[#[trigger] m2[i] as int]).is_touching() by {
                if i != new_i {
                    assert(placed(f, nl, ob, i));
                    assert(eb[mb[i] as int].is_touching());
                    assert(mb[i] != slot);
                }
            }
            assert forall|i: int| placed(f, nl, nb, i) implies report_pos(
                e2[#[trigger] m2[i] as int],
            ) == new@[i] by {
                if i != new_i {
                    assert(placed(f, nl, ob, i));
                    assert(eb[mb[i] as int].is_touching());
                    assert(mb[i] != slot);
                    assert(m2[i] == mb[i]);
                }
            }
            assert forall|i1: int, i2: int|
                placed(f, nl, nb, i1) && placed(f, nl, nb, i2) && i1 != i2 implies #[trigger] m2[i1]
                != #[trigger] m2[i2] by {
                if i1 == new_i {
                    assert(eb[mb[i2] as int].is_touching());
                } else if i2 == new_i {
                    assert(eb[mb[i1] as int].is_touching());
                } else {
                    assert(mb[i1] != mb[i2]);
                }
            }
            let q = if next == 0 { 10 } else { next - 1 };
            lemma_insert_skip(e1, f, new@, m1, new_p as int, q);
            lemma_count_skip(f, new_p as int, q);
        }
        new_p = next;
    }
}

/// Every slot idle.
spec fn idle_events() -> Seq<Report> {
    Seq::new(10, |s: int| Report::Idle)
}

/// Lifting the slots of the old points `1..=q` among the first `len`, from
/// all idle: a slot is lifted when one of those points has it.
proof fn lemma_mark_up_all(om: Seq<usize>, len: int, q: int)
    requires
        0 <= q <= 10,
        0 <= len <= 10,
        om.len() == 10,
        forall|i: int| 0 <= i < 10 ==> #[trigger] om[i] < 10,
    ensures
        mark_up_upto(idle_events(), flags_upto(len), om, q).len() == 10,
        forall|s: int|
            0 <= s < 10 ==> #[trigger] mark_up_upto(idle_events(), flags_upto(len), om, q)[s]
                == if exists|i: int| 0 <= i < q && i < len && om[i] == s {
                Report::Up
            } else {
                Report::Idle
            },
    decreases q,
{
    let idle = idle_events();
    if q > 0 {
        lemma_mark_up_all(om, len, q - 1);
        let prev = mark_up_upto(idle, flags_upto(len), om, q - 1);
        let cur = mark_up_upto(idle, flags_upto(len), om, q);
        assert(flags_upto(len)[q] == (q <= len));
        assert(om[q - 1] < 10);
        assert(cur == if q <= len {
            prev.update(om[q - 1] as int, Report::Up)
        } else {
            prev
        });
        assert forall|s: int| 0 <= s < 10 implies #[trigger] cur[s] == if exists|i: int|
            0 <= i < q && i < len && om[i] == s {
            Report::Up
        } else {
            Report::Idle
        } by {
            if q <= len && om[q - 1] == s {
                assert(0 <= q - 1 < q && q - 1 < len && om[q - 1] == s);
            } else {
                assert(cur[s] == prev[s]);
                if exists|i: int| 0 <= i < q && i < len && om[i] == s {
                    let i = choose|i: int| 0 <= i < q && i < len && om[i] == s;
                    assert(i != q - 1);
                    assert(0 <= i < q - 1 && i < len && om[i] == s);
                }
            }
        }
    }
}

/// When every finger leaves, exactly the slots that held a touch report
/// `Up`, the other slots are idle, and no point is tracked any more.
pub proof fn lemma_all_lifted(v: PointersView, new: Seq<(u32, u32)>)
    requires
        v.length <= 10,
        slots_ok(v.mappings, v.events, v.length as int),
    ensures
        update_spec(v, new, 0).length == 0,
        update_spec(v, new, 0).events == Seq::new(
            10,
            |s: int|
                if v.events[s].is_touching() {
                    Report::Up
                } else {
                    Report::Idle
                },
        ),
{
    let f0 = flags_upto(0);
    let fl = flags_upto(v.length as int);
    assert(!exists|a: int, b: int| is_best(new, v.positions, f0, fl, a, b));
    let g = update_matching(v, new, 0);
    assert(g == Seq::<(int, int)>::empty());
    let idle = idle_events();
    assert(apply_moves(Seq::new(10, |s: int| Report::Idle), g, new, v.positions, v.mappings)
        =~= idle);
    assert(update_unmatched_old(v, new, 0) == fl);
    assert(update_unmatched_new(v, new, 0) == f0);
    let e1 = update_lifted_events(v, new, 0);
    assert(e1 == mark_up_upto(idle, fl, v.mappings, 10));
    lemma_mark_up_all(v.mappings, v.length as int, 10);
    let pos = apply_pos(new, v.positions, g);
    lemma_insert_skip(e1, f0, pos, v.mappings, 0, 10);
    let want = Seq::new(
        10,
        |s: int|
            if v.events[s].is_touching() {
                Report::Up
            } else {
                Report::Idle
            },
    );
    assert forall|s: int| 0 <= s < 10 implies #[trigger] e1[s] == want[s] by {
        if v.events[s].is_touching() {
            let i = choose|i: int| 0 <= i < v.length && #[trigger] v.mappings[i] == s;
            assert(0 <= i < 10 && i < v.length && v.mappings[i] == s);
        } else {
            if exists|i: int| 0 <= i < 10 && i < v.length && v.mappings[i] == s {
                let i = choose|i: int| 0 <= i < 10 && i < v.length && v.mappings[i] == s;
                assert(v.events[v.mappings[i] as int].is_touching());
            }
        }
    }
    assert(update_spec(v, new, 0).events =~= want);
}

/// The tracker remembers for each tracked point the position its slot
/// reports: a move kept within the jitter margin is remembered at the kept
/// position, so a point that wobbles less than 16 units around it goes on
/// being reported there.
pub proof fn lemma_tracked_positions_reported(p: &Pointers)
    requires
        p.wf(),
    ensures
        forall|i: int|
            0 <= i < p@.length ==> report_pos(p@.events[#[trigger] p@.mappings[i] as int])
                == p@.positions[i],
        forall|i: int|
            0 <= i < p@.length ==> (#[trigger] p@.events[p@.mappings[i] as int]).is_touching(),
{
}

} // verus!
