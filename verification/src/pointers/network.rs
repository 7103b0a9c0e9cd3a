//! The frame format of the pointer tracker. Its reader's magic check fills the
//! reports with `Idle` on any mismatch and then reads all ten slots anyway, so
//! what it reads never depends on the magic.
use crate::frame::{
    deserialize_report, frame_bytes, frame_report, lemma_frame_roundtrip, magic,
    parse_frame_reports, report_bytes, reports_body, serialize_report,
};
use crate::pointers::report::Report;
use vstd::prelude::*;

verus! {

/// Writes the frame of `reports` into `result`.
pub fn serialize_reports(reports: &[Report; 10], result: &mut [u8; 98])
    ensures
        final(result)@ == frame_bytes(reports@),
{
    result[0] = 73;
    result[1] = 80;
    result[2] = 84;
    result[3] = 83;
    let mut k: usize = 0;
    while k < 10
        invariant
            0 <= k <= 10,
            result@.len() == 98,
            result@.subrange(0, 4) == magic(),
            result@.subrange(4, 4 + 9 * k) == reports_body(reports@.take(k as int)),
        decreases 10 - k,
    {
        let ghost before = result@;
        serialize_report(reports[k], result, 4 + 9 * k);
        proof {
            let t = reports@.take(k + 1);
            assert(t.drop_last() =~= reports@.take(k as int));
            assert(result@.subrange(0, 4) =~= before.subrange(0, 4));
            assert(result@.subrange(4, 4 + 9 * (k + 1)) =~= before.subrange(4, 4 + 9 * k)
                + report_bytes(reports@[k as int]));
        }
        k = k + 1;
    }
    let ghost before = result@;
    result[94] = 73;
    result[95] = 80;
    result[96] = 84;
    result[97] = 83;
    proof {
        assert(reports@.take(10) =~= reports@);
        assert(result@.subrange(0, 4) =~= before.subrange(0, 4));
        assert(result@.subrange(4, 94) =~= before.subrange(4, 94));
        assert(result@ =~= frame_bytes(reports@));
    }
}

/// Reads the ten reports of a frame into `result`.
pub fn deserialize_reports(data: &[u8; 98], result: &mut [Report; 10])
    ensures
        final(result)@ == parse_frame_reports(data@),
{
    if data[0] != 73 || data[1] != 73 || data[2] != 73 || data[3] != 73 || data[94] != 73
        || data[95] != 73 || data[96] != 73 || data[97] != 73 {
        *result = [Report::Idle; 10];
    }
    let mut k: usize = 0;
    while k < 10
        invariant
            0 <= k <= 10,
            result@.len() == 10,
            forall|j: int| 0 <= j < k ==> result@[j] == frame_report(data@, j),
        decreases 10 - k,
    {
        result[k] = deserialize_report(data, 4 + 9 * k);
        k = k + 1;
    }
    assert(result@ =~= parse_frame_reports(data@));
}

/// Reading a written frame gives back the reports written.
pub proof fn lemma_serialize_deserialize(reports: Seq<Report>)
    requires
        reports.len() == 10,
    ensures
        parse_frame_reports(frame_bytes(reports)) == reports,
{
    lemma_frame_roundtrip(reports);
}

} // verus!
