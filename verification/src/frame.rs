//! The 98-byte frame that carries the ten slot reports over a byte stream:
//! `IPTS`, ten 9-byte reports, `IPTS`. A report is its kind's id byte
//! followed by the big-endian x and y of its position (zero where it has none).
use crate::be::{
    be_u32_bytes, be_u32_value, lemma_be_u32_roundtrip, read_u32_at, splice, write_u32_at,
};
use crate::pointers::report::Report;
use vstd::prelude::*;

verus! {

pub const NONE_ID: u8 = 0;
pub const UP_ID: u8 = 1;
pub const UP_DOWN_ID: u8 = 2;
pub const DOWN_ID: u8 = 3;
pub const MOVE_ID: u8 = 4;

/// Length of a frame in bytes.
pub const FRAME_SIZE: usize = 98;

/// The id byte of a report's kind.
pub open spec fn report_id(r: Report) -> u8 {
    match r {
        Report::Idle => NONE_ID,
        Report::Up => UP_ID,
        Report::UpDown(_) => UP_DOWN_ID,
        Report::Down(_) => DOWN_ID,
        Report::Move(_) => MOVE_ID,
    }
}

/// The position a report carries, `(0, 0)` where it carries none.
pub open spec fn report_pos(r: Report) -> (u32, u32) {
    match r {
        Report::UpDown(p) | Report::Down(p) | Report::Move(p) => p,
        _ => (0, 0),
    }
}

/// The nine bytes of one report.
pub open spec fn report_bytes(r: Report) -> Seq<u8> {
    seq![report_id(r)] + be_u32_bytes(report_pos(r).0) + be_u32_bytes(report_pos(r).1)
}

/// The report that nine bytes stand for; an unknown id reads as `Idle`.
pub open spec fn parse_report(s: Seq<u8>) -> Report {
    let pos = (be_u32_value(s.subrange(1, 5)), be_u32_value(s.subrange(5, 9)));
    if s[0] == UP_ID {
        Report::Up
    } else if s[0] == UP_DOWN_ID {
        Report::UpDown(pos)
    } else if s[0] == DOWN_ID {
        Report::Down(pos)
    } else if s[0] == MOVE_ID {
        Report::Move(pos)
    } else {
        Report::Idle
    }
}

/// The bytes `IPTS`.
pub open spec fn magic() -> Seq<u8> {
    seq![73u8, 80u8, 84u8, 83u8]
}

/// The reports one after the other.
pub open spec fn reports_body(rs: Seq<Report>) -> Seq<u8>
    decreases rs.len(),
{
    if rs.len() == 0 {
        seq![]
    } else {
        reports_body(rs.drop_last()) + report_bytes(rs.last())
    }
}

/// The frame of ten reports.
pub open spec fn frame_bytes(rs: Seq<Report>) -> Seq<u8> {
    magic() + reports_body(rs) + magic()
}

/// The report in slot `k` of a frame, read from its bytes.
pub open spec fn frame_report(data: Seq<u8>, k: int) -> Report {
    parse_report(data.subrange(4 + 9 * k, 13 + 9 * k))
}

/// The ten reports of a frame, read from its bytes whatever its magic.
pub open spec fn parse_frame_reports(data: Seq<u8>) -> Seq<Report> {
    Seq::new(10, |k: int| frame_report(data, k))
}

/// Both ends of a frame hold `IPTS`.
pub open spec fn frame_magic_ok(data: Seq<u8>) -> bool {
    data.subrange(0, 4) == magic() && data.subrange(94, 98) == magic()
}

/// Reading back the bytes of a report gives the report.
pub proof fn lemma_report_roundtrip(r: Report)
    ensures
        parse_report(report_bytes(r)) == r,
{
    let b = report_bytes(r);
    lemma_be_u32_roundtrip(report_pos(r).0);
    lemma_be_u32_roundtrip(report_pos(r).1);
    assert(b.subrange(1, 5) =~= be_u32_bytes(report_pos(r).0));
    assert(b.subrange(5, 9) =~= be_u32_bytes(report_pos(r).1));
}

/// The body of `n` reports is `9 n` bytes, report `k` at `9 k`.
pub proof fn lemma_reports_body(rs: Seq<Report>)
    ensures
        reports_body(rs).len() == 9 * rs.len(),
        forall|k: int|
            0 <= k < rs.len() ==> #[trigger] reports_body(rs).subrange(9 * k, 9 * k + 9)
                == report_bytes(rs[k]),
    decreases rs.len(),
{
    if rs.len() > 0 {
        let init = rs.drop_last();
        lemma_reports_body(init);
        assert forall|k: int| 0 <= k < rs.len() implies #[trigger] reports_body(rs).subrange(
            9 * k,
            9 * k + 9,
        ) == report_bytes(rs[k]) by {
            if k < rs.len() - 1 {
                assert(init[k] == rs[k]);
                assert(reports_body(rs).subrange(9 * k, 9 * k + 9) =~= reports_body(init).subrange(
                    9 * k,
                    9 * k + 9,
                ));
            } else {
                assert(reports_body(rs).subrange(9 * k, 9 * k + 9) =~= report_bytes(rs.last()));
            }
        }
    }
}

/// A frame read back gives the ten reports that were written, and its magic checks.
pub proof fn lemma_frame_roundtrip(rs: Seq<Report>)
    requires
        rs.len() == 10,
    ensures
        frame_bytes(rs).len() == FRAME_SIZE,
        frame_magic_ok(frame_bytes(rs)),
        parse_frame_reports(frame_bytes(rs)) == rs,
{
    lemma_reports_body(rs);
    let f = frame_bytes(rs);
    assert(f.subrange(0, 4) =~= magic());
    assert(f.subrange(94, 98) =~= magic());
    assert forall|k: int| 0 <= k < 10 implies #[trigger] frame_report(f, k) == rs[k] by {
        assert(f.subrange(4 + 9 * k, 13 + 9 * k) =~= reports_body(rs).subrange(9 * k, 9 * k + 9));
        lemma_report_roundtrip(rs[k]);
    }
    assert(parse_frame_reports(f) =~= rs);
}

/// Writes the nine bytes of `report` into `result` from `at`.
pub(crate) fn serialize_report<const N: usize>(report: Report, result: &mut [u8; N], at: usize)
    requires
        at + 9 <= N,
    ensures
        final(result)@ == splice(old(result)@, at as int, report_bytes(report)),
{
    let (id, pos): (u8, (u32, u32)) = match report {
        Report::Idle => (NONE_ID, (0, 0)),
        Report::Up => (UP_ID, (0, 0)),
        Report::UpDown(x) => (UP_DOWN_ID, x),
        Report::Down(x) => (DOWN_ID, x),
        Report::Move(x) => (MOVE_ID, x),
    };
    result[at] = id;
    write_u32_at(result, at + 1, pos.0);
    write_u32_at(result, at + 5, pos.1);
    assert(result@ =~= splice(old(result)@, at as int, report_bytes(report)));
}

/// Reads the report whose nine bytes start at `at`.
pub(crate) fn deserialize_report<const N: usize>(data: &[u8; N], at: usize) -> (r: Report)
    requires
        at + 9 <= N,
    ensures
        r == parse_report(data@.subrange(at as int, at + 9)),
{
    let id = data[at];
    let pos = (read_u32_at(data, at + 1), read_u32_at(data, at + 5));
    proof {
        let s = data@.subrange(at as int, at + 9);
        assert(s.subrange(1, 5) =~= data@.subrange(at + 1, at + 5));
        assert(s.subrange(5, 9) =~= data@.subrange(at + 5, at + 9));
    }
    match id {
        UP_ID => Report::Up,
        UP_DOWN_ID => Report::UpDown(pos),
        DOWN_ID => Report::Down(pos),
        MOVE_ID => Report::Move(pos),
        _ => Report::Idle,
    }
}

} // verus!
