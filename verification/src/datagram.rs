//! Touch reports over unreliable, unordered datagrams. Each datagram carries a
//! sequence number, a per-slot touch id that grows when a touch is lifted, and
//! the position of each slot's touch (or `(!0, !0)` when it has none), so that
//! the receiver can rebuild the slot events from the latest datagram alone.
use crate::be::{
    be_u32_bytes, be_u32_value, be_u64_bytes, be_u64_value, lemma_be_u32_roundtrip,
    lemma_be_u64_roundtrip, read_u32_at, read_u64_at, write_u32_at, write_u64_at,
};
use crate::pointers::pointers::follows;
use crate::pointers::report::Report;
use crate::{DATAGRAM_SIZE, SCREEN_X, SCREEN_Y};
use vstd::prelude::*;

verus! {

/// Converts touch reports to and from unreliable unordered datagrams.
/// The datagrams' integrity must be protected or else an error will be returned for misbehaviour.
pub struct ReportTransport {
    /// The last seen datagram number
    last_no: u64,
    /// The reports entering or leaving the ReportTransport
    reports: [Report; 10],
    /// A ID for each touch, monotonically increasing on falling edge
    ids: [u64; 10],
    /// The positions of each touch, or (!0, !0) if currently lifted
    positions: [(u32, u32); 10],
}

/// The state of a transport.
pub struct TransportView {
    pub last_no: u64,
    pub reports: Seq<Report>,
    pub ids: Seq<u64>,
    pub positions: Seq<(u32, u32)>,
}

impl View for ReportTransport {
    type V = TransportView;

    closed spec fn view(&self) -> TransportView {
        TransportView {
            last_no: self.last_no,
            reports: self.reports@,
            ids: self.ids@,
            positions: self.positions@,
        }
    }
}

/// The position that marks a slot without a touch.
pub open spec fn lifted_pos() -> (u32, u32) {
    (!0u32, !0u32)
}

/// A position on the screen, which marks a slot with a touch.
pub open spec fn on_screen(p: (u32, u32)) -> bool {
    p.0 < SCREEN_X as u32 && p.1 < SCREEN_Y as u32
}

/// A position that is neither on the screen nor the lifted marker.
pub open spec fn reserved_pos(p: (u32, u32)) -> bool {
    !on_screen(p) && !(p.0 & p.1) != 0
}

/// What the sender may report for a slot after `old` (`offer` asserts it).
pub open spec fn offer_transition_ok(old: Report, r: Report) -> bool {
    match r {
        Report::Idle => old is Idle || old is Up,
        Report::Up => old is UpDown || old is Down || old is Move,
        Report::UpDown(_) => old is UpDown || old is Down || old is Move,
        Report::Down(_) => old is Idle || old is Up,
        Report::Move(_) => old is Down || old is Move,
    }
}

/// No counter overflows when the reports are offered.
pub open spec fn offer_fits(v: TransportView, reports: Seq<Report>) -> bool {
    &&& v.last_no < u64::MAX
    &&& forall|i: int|
        0 <= i < 10 ==> ((#[trigger] reports[i] is Up || reports[i] is UpDown) ==> v.ids[i]
            < u64::MAX)
}

/// The reports may be offered after the transport's state: every slot's
/// transition is one the sender makes, and no counter would overflow.
pub open spec fn offer_ok(v: TransportView, reports: Seq<Report>) -> bool {
    &&& offer_fits(v, reports)
    &&& forall|i: int| 0 <= i < 10 ==> offer_transition_ok(v.reports[i], #[trigger] reports[i])
}

/// The transport's state after offering `reports`.
pub open spec fn offer_spec(v: TransportView, reports: Seq<Report>) -> TransportView {
    TransportView {
        last_no: (v.last_no + 1) as u64,
        reports: reports,
        ids: Seq::new(
            10,
            |i: int|
                if reports[i] is Up || reports[i] is UpDown {
                    (v.ids[i] + 1) as u64
                } else {
                    v.ids[i]
                },
        ),
        positions: Seq::new(
            10,
            |i: int|
                match reports[i] {
                    Report::UpDown(p) | Report::Down(p) | Report::Move(p) => p,
                    _ => lifted_pos(),
                },
        ),
    }
}

/// The ids, eight bytes each.
pub open spec fn ids_bytes(ids: Seq<u64>) -> Seq<u8>
    decreases ids.len(),
{
    if ids.len() == 0 {
        seq![]
    } else {
        ids_bytes(ids.drop_last()) + be_u64_bytes(ids.last())
    }
}

/// The positions, x then y, four bytes each.
pub open spec fn positions_bytes(ps: Seq<(u32, u32)>) -> Seq<u8>
    decreases ps.len(),
{
    if ps.len() == 0 {
        seq![]
    } else {
        positions_bytes(ps.drop_last()) + be_u32_bytes(ps.last().0) + be_u32_bytes(ps.last().1)
    }
}

/// The datagram of a transport's state.
pub open spec fn datagram_bytes(v: TransportView) -> Seq<u8> {
    be_u64_bytes(v.last_no) + ids_bytes(v.ids) + positions_bytes(v.positions)
}

/// The sequence number a datagram carries.
pub open spec fn datagram_no(d: Seq<u8>) -> u64 {
    be_u64_value(d.subrange(0, 8))
}

/// The id of slot `i` a datagram carries.
pub open spec fn datagram_id(d: Seq<u8>, i: int) -> u64 {
    be_u64_value(d.subrange(8 + 8 * i, 16 + 8 * i))
}

/// The position of slot `i` a datagram carries.
pub open spec fn datagram_pos(d: Seq<u8>, i: int) -> (u32, u32) {
    (be_u32_value(d.subrange(88 + 8 * i, 92 + 8 * i)), be_u32_value(d.subrange(92 + 8 * i, 96 + 8 * i)))
}

/// The report a receiver derives for a slot, or `None` when the sender misbehaved:
/// a lower id, or a touch lifted without its id growing.
pub open spec fn receive_report(
    id: u64,
    old_id: u64,
    was_active: bool,
    active: bool,
    pos: (u32, u32),
) -> Option<Report> {
    if id < old_id {
        None
    } else if id == old_id {
        if was_active {
            if active {
                Some(Report::Move(pos))
            } else {
                None
            }
        } else if active {
            Some(Report::Down(pos))
        } else {
            Some(Report::Idle)
        }
    } else {
        if was_active {
            if active {
                Some(Report::UpDown(pos))
            } else {
                Some(Report::Up)
            }
        } else if active {
            Some(Report::Down(pos))
        } else {
            Some(Report::Idle)
        }
    }
}

/// The report a receiver in state `v` derives for slot `i` of datagram `d`.
pub open spec fn receive_slot(v: TransportView, d: Seq<u8>, i: int) -> Option<Report> {
    receive_report(
        datagram_id(d, i),
        v.ids[i],
        v.reports[i].is_touching(),
        on_screen(datagram_pos(d, i)),
        datagram_pos(d, i),
    )
}

/// What receiving datagram `d` returns, and the receiver's state after it.
/// A stale datagram is ignored; a newer one is taken as the last seen even
/// when the sender misbehaved in it.
pub open spec fn receive_spec(v: TransportView, d: Seq<u8>) -> (Result<bool, ()>, TransportView) {
    let no = datagram_no(d);
    if no <= v.last_no {
        (Ok(false), v)
    } else {
        let seen = TransportView { last_no: no, ..v };
        if exists|i: int| 0 <= i < 10 && reserved_pos(#[trigger] datagram_pos(d, i)) {
            (Err(()), seen)
        } else if exists|i: int| 0 <= i < 10 && #[trigger] receive_slot(v, d, i) is None {
            (Err(()), seen)
        } else {
            (
                Ok(true),
                TransportView {
                    last_no: no,
                    reports: Seq::new(10, |i: int| receive_slot(v, d, i)->0),
                    ids: Seq::new(10, |i: int| datagram_id(d, i)),
                    positions: Seq::new(10, |i: int| datagram_pos(d, i)),
                },
            )
        }
    }
}

/// The bytes of `n` ids are `8 n`, id `k` at `8 k`.
proof fn lemma_ids_bytes(ids: Seq<u64>)
    ensures
        ids_bytes(ids).len() == 8 * ids.len(),
        forall|k: int|
            0 <= k < ids.len() ==> #[trigger] ids_bytes(ids).subrange(8 * k, 8 * k + 8)
                == be_u64_bytes(ids[k]),
    decreases ids.len(),
{
    if ids.len() > 0 {
        let init = ids.drop_last();
        lemma_ids_bytes(init);
        assert forall|k: int| 0 <= k < ids.len() implies #[trigger] ids_bytes(ids).subrange(
            8 * k,
            8 * k + 8,
        ) == be_u64_bytes(ids[k]) by {
            if k < ids.len() - 1 {
                assert(init[k] == ids[k]);
                assert(ids_bytes(ids).subrange(8 * k, 8 * k + 8) =~= ids_bytes(init).subrange(
                    8 * k,
                    8 * k + 8,
                ));
            } else {
                assert(ids_bytes(ids).subrange(8 * k, 8 * k + 8) =~= be_u64_bytes(ids.last()));
            }
        }
    }
}

/// The bytes of `n` positions are `8 n`, position `k` at `8 k`, x before y.
proof fn lemma_positions_bytes(ps: Seq<(u32, u32)>)
    ensures
        positions_bytes(ps).len() == 8 * ps.len(),
        forall|k: int|
            0 <= k < ps.len() ==> #[trigger] positions_bytes(ps).subrange(8 * k, 8 * k + 4)
                == be_u32_bytes(ps[k].0) && positions_bytes(ps).subrange(8 * k + 4, 8 * k + 8)
                == be_u32_bytes(ps[k].1),
    decreases ps.len(),
{
    if ps.len() > 0 {
        let init = ps.drop_last();
        lemma_positions_bytes(init);
        assert forall|k: int| 0 <= k < ps.len() implies #[trigger] positions_bytes(ps).subrange(
            8 * k,
            8 * k + 4,
        ) == be_u32_bytes(ps[k].0) && positions_bytes(ps).subrange(8 * k + 4, 8 * k + 8)
            == be_u32_bytes(ps[k].1) by {
            if k < ps.len() - 1 {
                assert(init[k] == ps[k]);
                assert(positions_bytes(ps).subrange(8 * k, 8 * k + 4) =~= positions_bytes(
                    init,
                ).subrange(8 * k, 8 * k + 4));
                assert(positions_bytes(ps).subrange(8 * k + 4, 8 * k + 8) =~= positions_bytes(
                    init,
                ).subrange(8 * k + 4, 8 * k + 8));
            } else {
                assert(positions_bytes(ps).subrange(8 * k, 8 * k + 4) =~= be_u32_bytes(
                    ps.last().0,
                ));
                assert(positions_bytes(ps).subrange(8 * k + 4, 8 * k + 8) =~= be_u32_bytes(
                    ps.last().1,
                ));
            }
        }
    }
}

/// Reading a state's datagram gives back its number, ids and positions.
pub proof fn lemma_datagram_fields(v: TransportView)
    requires
        v.ids.len() == 10,
        v.positions.len() == 10,
    ensures
        datagram_bytes(v).len() == DATAGRAM_SIZE,
        datagram_no(datagram_bytes(v)) == v.last_no,
        forall|i: int| 0 <= i < 10 ==> #[trigger] datagram_id(datagram_bytes(v), i) == v.ids[i],
        forall|i: int|
            0 <= i < 10 ==> #[trigger] datagram_pos(datagram_bytes(v), i) == v.positions[i],
{
    let d = datagram_bytes(v);
    lemma_ids_bytes(v.ids);
    lemma_positions_bytes(v.positions);
    lemma_be_u64_roundtrip(v.last_no);
    assert(d.subrange(0, 8) =~= be_u64_bytes(v.last_no));
    assert forall|i: int| 0 <= i < 10 implies #[trigger] datagram_id(d, i) == v.ids[i] by {
        assert(d.subrange(8 + 8 * i, 16 + 8 * i) =~= ids_bytes(v.ids).subrange(8 * i, 8 * i + 8));
        lemma_be_u64_roundtrip(v.ids[i]);
    }
    assert forall|i: int| 0 <= i < 10 implies #[trigger] datagram_pos(d, i) == v.positions[i] by {
        assert(d.subrange(88 + 8 * i, 92 + 8 * i) =~= positions_bytes(v.positions).subrange(
            8 * i,
            8 * i + 4,
        ));
        assert(d.subrange(92 + 8 * i, 96 + 8 * i) =~= positions_bytes(v.positions).subrange(
            8 * i + 4,
            8 * i + 8,
        ));
        lemma_be_u32_roundtrip(v.positions[i].0);
        lemma_be_u32_roundtrip(v.positions[i].1);
    }
}

/// A receiver that is in step with the sender before an offer rebuilds the
/// offered reports from the datagram of the offer: it accepts it and ends in
/// the sender's state. The offered touches must be on the screen, since
/// positions off it mean "no touch" on the wire.
pub proof fn lemma_transport_roundtrip(
    sender: TransportView,
    receiver: TransportView,
    reports: Seq<Report>,
)
    requires
        sender.reports.len() == 10,
        sender.ids.len() == 10,
        reports.len() == 10,
        offer_ok(sender, reports),
        receiver.reports == sender.reports,
        receiver.ids == sender.ids,
        receiver.last_no <= sender.last_no,
        forall|i: int|
            0 <= i < 10 ==> match #[trigger] reports[i] {
                Report::UpDown(p) | Report::Down(p) | Report::Move(p) => on_screen(p),
                _ => true,
            },
    ensures
        receive_spec(receiver, datagram_bytes(offer_spec(sender, reports))) == (
            Ok::<bool, ()>(true),
            offer_spec(sender, reports),
        ),
{
    let sent = offer_spec(sender, reports);
    let d = datagram_bytes(sent);
    lemma_datagram_fields(sent);
    assert forall|i: int| 0 <= i < 10 implies !reserved_pos(#[trigger] datagram_pos(d, i)) by {
        assert(datagram_pos(d, i) == sent.positions[i]);
        assert(offer_transition_ok(sender.reports[i], reports[i]));
        if !on_screen(sent.positions[i]) {
            assert(sent.positions[i] == lifted_pos());
            assert(!(!0u32 & !0u32) == 0u32) by (bit_vector);
        }
    }
    assert forall|i: int| 0 <= i < 10 implies #[trigger] receive_slot(receiver, d, i) == Some(
        reports[i],
    ) by {
        assert(datagram_pos(d, i) == sent.positions[i]);
        assert(datagram_id(d, i) == sent.ids[i]);
        assert(offer_transition_ok(sender.reports[i], reports[i]));
        assert(!0u32 == 0xffff_ffffu32) by (bit_vector);
        assert(!on_screen(lifted_pos()));
    }
    let got = receive_spec(receiver, d).1;
    assert(got.reports =~= reports);
    assert(got.ids =~= sent.ids);
    assert(got.positions =~= sent.positions);
}

/// A sender's state as offers leave it: each slot's position is on the
/// screen where the slot holds a touch and the lifted marker elsewhere.
pub open spec fn sender_sound(v: TransportView) -> bool {
    &&& v.reports.len() == 10
    &&& v.ids.len() == 10
    &&& v.positions.len() == 10
    &&& forall|i: int|
        0 <= i < 10 ==> if (#[trigger] v.reports[i]).is_touching() {
            on_screen(v.positions[i])
        } else {
            v.positions[i] == lifted_pos()
        }
}

/// A receiver in state `w` has kept up with a sender in state `v`: no id of
/// the receiver is ahead of the sender's, and a slot that touches at the
/// receiver under the sender's id still touches at the sender.
pub open spec fn kept_up(w: TransportView, v: TransportView) -> bool {
    &&& w.reports.len() == 10
    &&& w.ids.len() == 10
    &&& forall|i: int|
        0 <= i < 10 ==> #[trigger] w.ids[i] <= v.ids[i] && (w.ids[i] == v.ids[i]
            && w.reports[i].is_touching() ==> v.reports[i].is_touching())
}

/// The reports a receiver rebuilds from a datagram it accepts follow its own
/// previous ones: a slot reports a move, a lift or a lift with a new touch
/// only where it held a touch, and a new touch or nothing only where it held
/// none.
pub proof fn lemma_received_reports_follow(v: TransportView, d: Seq<u8>)
    requires
        v.reports.len() == 10,
        receive_spec(v, d).0 == Ok::<bool, ()>(true),
    ensures
        forall|i: int|
            0 <= i < 10 ==> follows(v.reports[i], #[trigger] receive_spec(v, d).1.reports[i]),
{
    let w = receive_spec(v, d).1;
    assert forall|i: int| 0 <= i < 10 implies follows(v.reports[i], #[trigger] w.reports[i]) by {
        assert(receive_slot(v, d, i) is Some);
        assert(w.reports[i] == receive_slot(v, d, i)->0);
    }
}

/// A transport holds a report, an id and a position for each of the ten slots.
pub proof fn lemma_transport_sized(t: &ReportTransport)
    ensures
        t@.reports.len() == 10,
        t@.ids.len() == 10,
        t@.positions.len() == 10,
{
}

/// A datagram no newer than the last one seen is ignored.
pub proof fn lemma_stale_ignored(w: TransportView, d: Seq<u8>)
    requires
        datagram_no(d) <= w.last_no,
    ensures
        receive_spec(w, d) == (Ok::<bool, ()>(false), w),
{
}

/// Whatever datagrams were lost or came late, a receiver that has kept up
/// with the sender accepts any newer datagram of it: it then holds the
/// sender's ids and positions, touches in the same slots, and has kept up.
pub proof fn lemma_kept_up_receives(w: TransportView, v: TransportView)
    requires
        sender_sound(v),
        kept_up(w, v),
        w.last_no < v.last_no,
    ensures
        ({
            let (r, w2) = receive_spec(w, datagram_bytes(v));
            &&& r == Ok::<bool, ()>(true)
            &&& w2.last_no == v.last_no
            &&& w2.ids == v.ids
            &&& w2.positions == v.positions
            &&& forall|i: int|
                0 <= i < 10 ==> (#[trigger] w2.reports[i]).is_touching()
                    == v.reports[i].is_touching()
            &&& kept_up(w2, v)
        }),
{
    let d = datagram_bytes(v);
    lemma_datagram_fields(v);
    assert(!0u32 == 0xffff_ffffu32) by (bit_vector);
    assert(!(0xffff_ffffu32 & 0xffff_ffffu32) == 0u32) by (bit_vector);
    assert forall|i: int| 0 <= i < 10 implies !reserved_pos(#[trigger] datagram_pos(d, i)) by {
        assert(datagram_pos(d, i) == v.positions[i]);
        if !v.reports[i].is_touching() {
            assert(v.positions[i] == lifted_pos());
        }
    }
    assert forall|i: int| 0 <= i < 10 implies (#[trigger] receive_slot(w, d, i)) is Some && (
    receive_slot(w, d, i)->0).is_touching() == v.reports[i].is_touching() by {
        assert(datagram_pos(d, i) == v.positions[i]);
        assert(datagram_id(d, i) == v.ids[i]);
        if !v.reports[i].is_touching() {
            assert(v.positions[i] == lifted_pos());
            assert(!on_screen(lifted_pos()));
        }
    }
    let w2 = receive_spec(w, d).1;
    assert(w2.ids =~= v.ids);
    assert(w2.positions =~= v.positions);
}

/// Offering keeps a receiver that has kept up with the sender kept up, and
/// leaves the sender's state sound, when the offered touches are on the screen.
pub proof fn lemma_offer_keeps_up(w: TransportView, v: TransportView, reports: Seq<Report>)
    requires
        v.reports.len() == 10,
        v.ids.len() == 10,
        reports.len() == 10,
        kept_up(w, v),
        offer_ok(v, reports),
        forall|i: int|
            0 <= i < 10 ==> match #[trigger] reports[i] {
                Report::UpDown(p) | Report::Down(p) | Report::Move(p) => on_screen(p),
                _ => true,
            },
    ensures
        sender_sound(offer_spec(v, reports)),
        kept_up(w, offer_spec(v, reports)),
        offer_spec(v, reports).last_no == v.last_no + 1,
{
    let v2 = offer_spec(v, reports);
    assert forall|i: int| 0 <= i < 10 implies #[trigger] w.ids[i] <= v2.ids[i] && (w.ids[i]
        == v2.ids[i] && w.reports[i].is_touching() ==> v2.reports[i].is_touching()) by {
        assert(offer_transition_ok(v.reports[i], reports[i]));
    }
    assert forall|i: int| 0 <= i < 10 implies if (#[trigger] v2.reports[i]).is_touching() {
        on_screen(v2.positions[i])
    } else {
        v2.positions[i] == lifted_pos()
    } by {
        assert(reports[i] == v2.reports[i]);
    }
}

/// A receiver and a sender that are both new have kept up with each other,
/// and a new transport's state is sound: every slot lifted.
pub proof fn lemma_new_kept_up(w: TransportView)
    requires
        w.reports == Seq::new(10, |i: int| Report::Idle),
        w.ids == Seq::new(10, |i: int| 0u64),
        w.positions == Seq::new(10, |i: int| lifted_pos()),
    ensures
        kept_up(w, w),
        sender_sound(w),
{
}

/// `array_init::array_init` of the `array_init` crate with a closure that
/// decides, for each slot, whether its position is on the screen: the array
/// holds at index `i` what the closure gives for `i`.
#[verifier::external_body]
fn active_flags(positions: &[(u32, u32); 10]) -> (r: [bool; 10])
    ensures
        forall|i: int| 0 <= i < 10 ==> r[i] == on_screen(#[trigger] positions[i]),
{
    array_init::array_init(|i| is_active(positions[i]))
}

/// The position marks a touch in the slot.
fn is_active(p: (u32, u32)) -> (r: bool)
    ensures
        r == on_screen(p),
{
    let (x, y) = p;
    x < SCREEN_X as u32 && y < SCREEN_Y as u32
}

impl ReportTransport {
    /// A transport with nothing sent or seen: every slot idle with id 0.
    pub fn new() -> (r: Self)
        ensures
            r@.last_no == 0,
            r@.reports == Seq::new(10, |i: int| Report::Idle),
            r@.ids == Seq::new(10, |i: int| 0u64),
            r@.positions == Seq::new(10, |i: int| lifted_pos()),
    {
        let r = ReportTransport {
            last_no: 0,
            reports: [Report::Idle; 10],
            ids: [0; 10],
            positions: [(!0, !0); 10],
        };
        assert(r@.reports =~= Seq::new(10, |i: int| Report::Idle));
        assert(r@.ids =~= Seq::new(10, |i: int| 0u64));
        assert(r@.positions =~= Seq::new(10, |i: int| lifted_pos()));
        r
    }

    /// Offers the reports of the next frame: counts a new datagram, grows the
    /// id of each slot whose touch is lifted, and records each touch's position
    /// (the lifted marker for slots without one). Transitions the sender does
    /// not make (see `offer_transition_ok`, which `can_offer` checks) are
    /// recorded all the same.
    pub fn offer(&mut self, reports: &[Report; 10])
        requires
            offer_fits(old(self)@, reports@),
        ensures
            final(self)@ == offer_spec(old(self)@, reports@),
    {
        let ghost v = self@;
        self.last_no += 1;
        self.positions = [(!0, !0); 10];
        assert(self.positions@ =~= Seq::new(10, |j: int| lifted_pos()));
        let mut i: usize = 0;
        while i < 10
            invariant
                0 <= i <= 10,
                offer_fits(v, reports@),
                self.last_no == v.last_no + 1,
                forall|j: int|
                    0 <= j < i ==> #[trigger] self.reports@[j] == offer_spec(v, reports@).reports[j],
                forall|j: int| 0 <= j < i ==> #[trigger] self.ids@[j] == offer_spec(v, reports@).ids[j],
                forall|j: int|
                    0 <= j < i ==> #[trigger] self.positions@[j] == offer_spec(
                        v,
                        reports@,
                    ).positions[j],
                forall|j: int| i <= j < 10 ==> #[trigger] self.reports@[j] == v.reports[j],
                forall|j: int| i <= j < 10 ==> #[trigger] self.ids@[j] == v.ids[j],
                forall|j: int| i <= j < 10 ==> #[trigger] self.positions@[j] == lifted_pos(),
                v.reports.len() == 10,
                v.ids.len() == 10,
            decreases 10 - i,
        {
            let r = reports[i];
            assert((reports@[i as int] is Up || reports@[i as int] is UpDown) ==> v.ids[i as int]
                < u64::MAX);
            match r {
                Report::Idle => {},
                Report::Up => {
                    self.ids[i] = self.ids[i] + 1;
                },
                Report::UpDown(pos) => {
                    self.ids[i] = self.ids[i] + 1;
                    self.positions[i] = pos;
                },
                Report::Down(pos) => {
                    self.positions[i] = pos;
                },
                Report::Move(pos) => {
                    self.positions[i] = pos;
                },
            }
            self.reports[i] = r;
            i += 1;
        }
        assert(self@.reports =~= offer_spec(v, reports@).reports);
        assert(self@.ids =~= offer_spec(v, reports@).ids);
        assert(self@.positions =~= offer_spec(v, reports@).positions);
    }

    /// Writes the datagram of the transport's state.
    pub fn serialize(&self, datagram: &mut [u8; DATAGRAM_SIZE])
        ensures
            final(datagram)@ == datagram_bytes(self@),
    {
        write_u64_at(datagram, 0, self.last_no);
        let mut i: usize = 0;
        while i < 10
            invariant
                0 <= i <= 10,
                datagram@.len() == 168,
                datagram@.subrange(0, 8) == be_u64_bytes(self.last_no),
                datagram@.subrange(8, 8 + 8 * i) == ids_bytes(self@.ids.take(i as int)),
            decreases 10 - i,
        {
            let ghost before = datagram@;
            write_u64_at(datagram, 8 + 8 * i, self.ids[i]);
            proof {
                assert(self@.ids.take(i + 1).drop_last() =~= self@.ids.take(i as int));
                assert(datagram@.subrange(0, 8) =~= before.subrange(0, 8));
                assert(datagram@.subrange(8, 8 + 8 * (i + 1)) =~= before.subrange(8, 8 + 8 * i)
                    + be_u64_bytes(self.ids[i as int]));
            }
            i += 1;
        }
        let mut i: usize = 0;
        while i < 10
            invariant
                0 <= i <= 10,
                datagram@.len() == 168,
                datagram@.subrange(0, 8) == be_u64_bytes(self.last_no),
                datagram@.subrange(8, 88) == ids_bytes(self@.ids.take(10)),
                datagram@.subrange(88, 88 + 8 * i) == positions_bytes(self@.positions.take(i as int)),
            decreases 10 - i,
        {
            let ghost before = datagram@;
            let (x, y) = self.positions[i];
            write_u32_at(datagram, 88 + 8 * i, x);
            write_u32_at(datagram, 92 + 8 * i, y);
            proof {
                assert(self@.positions.take(i + 1).drop_last() =~= self@.positions.take(i as int));
                assert(datagram@.subrange(0, 8) =~= before.subrange(0, 8));
                assert(datagram@.subrange(8, 88) =~= before.subrange(8, 88));
                assert(datagram@.subrange(88, 88 + 8 * (i + 1)) =~= before.subrange(88, 88 + 8 * i)
                    + be_u32_bytes(x) + be_u32_bytes(y));
            }
            i += 1;
        }
        proof {
            assert(self@.ids.take(10) =~= self@.ids);
            assert(self@.positions.take(10) =~= self@.positions);
            assert(datagram@ =~= datagram_bytes(self@));
        }
    }

    /// Takes a received datagram. Returns `Ok(false)` for a datagram older than
    /// the last seen (nothing changes), `Err(())` when the sender misbehaved
    /// (only the last seen number moves on), and `Ok(true)` with the slot
    /// events rebuilt from the datagram otherwise.
    pub fn deserialize(&mut self, datagram: &[u8; DATAGRAM_SIZE]) -> (r: Result<bool, ()>)
        ensures
            (r, final(self)@) == receive_spec(old(self)@, datagram@),
    {
        let ghost v = self@;
        let ghost d = datagram@;
        let cur_no = read_u64_at(datagram, 0);
        if cur_no <= self.last_no {
            return Ok(false);
        }
        self.last_no = cur_no;
        let mut ids = [0u64; 10];
        let mut positions = [(0u32, 0u32); 10];
        let mut i: usize = 0;
        while i < 10
            invariant
                0 <= i <= 10,
                d == datagram@,
                forall|j: int| 0 <= j < i ==> #[trigger] ids@[j] == datagram_id(d, j),
                forall|j: int| 0 <= j < i ==> #[trigger] positions@[j] == datagram_pos(d, j),
            decreases 10 - i,
        {
            ids[i] = read_u64_at(datagram, 8 + 8 * i);
            let x = read_u32_at(datagram, 88 + 8 * i);
            let y = read_u32_at(datagram, 92 + 8 * i);
            positions[i] = (x, y);
            proof {
                assert(ids@[i as int] == datagram_id(d, i as int));
                assert(positions@[i as int] == datagram_pos(d, i as int));
            }
            i += 1;
        }
        let ids = ids;
        let positions = positions;
        let active = active_flags(&positions);
        let mut misbehaved = false;
        let mut i: usize = 0;
        while i < 10
            invariant
                0 <= i <= 10,
                forall|j: int| 0 <= j < 10 ==> #[trigger] positions@[j] == datagram_pos(d, j),
                forall|j: int| 0 <= j < 10 ==> active[j] == on_screen(#[trigger] positions@[j]),
                misbehaved == exists|j: int| 0 <= j < i && reserved_pos(#[trigger] datagram_pos(d, j)),
            decreases 10 - i,
        {
            let (x, y) = positions[i];
            if !active[i] && !(x & y) != 0 {
                misbehaved = true;
            }
            assert(positions@[i as int] == datagram_pos(d, i as int));
            i += 1;
        }
        assert(self@ == (TransportView { last_no: cur_no, ..v }));
        if misbehaved {
            assert(exists|j: int| 0 <= j < 10 && reserved_pos(#[trigger] datagram_pos(d, j)));
            assert(datagram_no(d) > v.last_no);
            return Err(());
        }
        let mut reports = [Report::Idle; 10];
        let mut i: usize = 0;
        while i < 10
            invariant
                0 <= i <= 10,
                self@ == (TransportView { last_no: cur_no, ..v }),
                cur_no == datagram_no(d),
                cur_no > v.last_no,
                d == datagram@,
                v == old(self)@,
                !exists|j: int| 0 <= j < 10 && reserved_pos(#[trigger] datagram_pos(d, j)),
                forall|j: int| 0 <= j < 10 ==> #[trigger] positions@[j] == datagram_pos(d, j),
                forall|j: int| 0 <= j < 10 ==> #[trigger] ids@[j] == datagram_id(d, j),
                forall|j: int| 0 <= j < 10 ==> active[j] == on_screen(#[trigger] positions@[j]),
                forall|j: int|
                    0 <= j < i ==> #[trigger] receive_slot(v, d, j) == Some(reports@[j]),
            decreases 10 - i,
        {
            let active = active[i];
            let was_active = match self.reports[i] {
                Report::Idle | Report::Up => false,
                _ => true,
            };
            let pos = positions[i];
            assert(positions@[i as int] == datagram_pos(d, i as int));
            let ghost slot = receive_slot(v, d, i as int);
            assert(ids@[i as int] == datagram_id(d, i as int));
            assert(self.ids@[i as int] == v.ids[i as int]);
            assert(active == on_screen(positions@[i as int]));
            let report = if ids[i] < self.ids[i] {
                assert(receive_slot(v, d, i as int) is None);
                return Err(());
            } else if ids[i] == self.ids[i] {
                if was_active {
                    if active {
                        Report::Move(pos)
                    } else {
                        assert(receive_slot(v, d, i as int) is None);
                        return Err(());
                    }
                } else {
                    if active {
                        Report::Down(pos)
                    } else {
                        Report::Idle
                    }
                }
            } else {
                if was_active {
                    if active {
                        Report::UpDown(pos)
                    } else {
                        Report::Up
                    }
                } else {
                    if active {
                        Report::Down(pos)
                    } else {
                        Report::Idle
                    }
                }
            };
            reports[i] = report;
            i += 1;
        }
        self.ids = ids;
        self.positions = positions;
        self.reports = reports;
        proof {
            assert(self@.reports =~= Seq::new(10, |i: int| receive_slot(v, d, i)->0));
            assert(self@.ids =~= Seq::new(10, |i: int| datagram_id(d, i)));
            assert(self@.positions =~= Seq::new(10, |i: int| datagram_pos(d, i)));
        }
        Ok(true)
    }

    /// Whether offering `reports` now overflows no counter.
    pub fn offer_fits_counters(&self, reports: &[Report; 10]) -> (r: bool)
        ensures
            r == offer_fits(self@, reports@),
    {
        if self.last_no == u64::MAX {
            return false;
        }
        let mut i: usize = 0;
        while i < 10
            invariant
                0 <= i <= 10,
                self@.last_no < u64::MAX,
                forall|j: int|
                    0 <= j < i ==> ((#[trigger] reports@[j] is Up || reports@[j] is UpDown)
                        ==> self@.ids[j] < u64::MAX),
            decreases 10 - i,
        {
            let lifts = match reports[i] {
                Report::Up | Report::UpDown(_) => true,
                _ => false,
            };
            if lifts && self.ids[i] == u64::MAX {
                return false;
            }
            i += 1;
        }
        true
    }

    /// Whether `reports` may be offered now: every slot makes a transition
    /// the sender makes, and no counter is at its limit.
    pub fn can_offer(&self, reports: &[Report; 10]) -> (r: bool)
        ensures
            r == offer_ok(self@, reports@),
    {
        if self.last_no == u64::MAX {
            return false;
        }
        let mut i: usize = 0;
        while i < 10
            invariant
                0 <= i <= 10,
                self@.last_no < u64::MAX,
                forall|j: int|
                    0 <= j < i ==> offer_transition_ok(self@.reports[j], #[trigger] reports@[j]) && ((
                    reports@[j] is Up || reports@[j] is UpDown) ==> self@.ids[j] < u64::MAX),
            decreases 10 - i,
        {
            let old = self.reports[i];
            let r = reports[i];
            let ok = match r {
                Report::Idle | Report::Down(_) => match old {
                    Report::Idle | Report::Up => true,
                    _ => false,
                },
                Report::Up | Report::UpDown(_) => match old {
                    Report::Idle | Report::Up => false,
                    _ => self.ids[i] < u64::MAX,
                },
                Report::Move(_) => match old {
                    Report::Down(_) | Report::Move(_) => true,
                    _ => false,
                },
            };
            if !ok {
                return false;
            }
            i += 1;
        }
        true
    }

    /// The reports last offered or received.
    pub fn take(&self) -> (r: &[Report; 10])
        ensures
            r@ == self@.reports,
    {
        &self.reports
    }
}

} // verus!
