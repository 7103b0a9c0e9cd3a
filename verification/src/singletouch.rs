//! Reading the single-touch reports that the device sends when it is not in
//! multitouch mode.
use crate::header::HeaderAndBuffer;
use crate::{SCREEN_X, SCREEN_Y};
use vstd::prelude::*;

verus! {

/// The `u16` whose little-endian bytes are the two of `b` from `at`.
pub open spec fn le_u16_value(b: Seq<u8>, at: int) -> u32 {
    (b[at] + 256 * b[at + 1]) as u32
}

/// A raw coordinate, out of 32768, scaled to a screen dimension.
pub open spec fn scale(raw: u32, dim: u32) -> u32 {
    ((raw * dim) / 32768) as u32
}

/// What a buffer says about a single touch: `None` when it is no
/// single-touch report (type 3, size 6, first payload byte 0x40);
/// `Some(None)` when nothing touches; else the position, scaled to the screen.
pub open spec fn singletouch_spec(typ: u32, size: u32, data: Seq<u8>) -> Option<Option<(u32, u32)>> {
    if !(typ == 3 && size == 6 && data[0] == 0x40) {
        None
    } else if data[1] == 0 {
        Some(None)
    } else {
        Some(
            Some(
                (
                    scale(le_u16_value(data, 2), SCREEN_X as u32),
                    scale(le_u16_value(data, 4), SCREEN_Y as u32),
                ),
            ),
        )
    }
}

/// Scales a raw coordinate: `raw * dim >> 15`.
fn scale_raw(raw: u16, dim: u16) -> (r: u32)
    ensures
        r == scale(raw as u32, dim as u32),
{
    assert(raw as u32 * dim as u32 <= 0xffff * 0xffff) by (nonlinear_arith)
        requires
            raw <= 0xffff,
            dim <= 0xffff,
    ;
    let p = raw as u32 * dim as u32;
    assert(p >> 15u32 == p / 32768) by (bit_vector);
    p >> 15
}

/// Reads a single-touch report out of a driver buffer.
pub fn singletouch_position(parsed: &HeaderAndBuffer) -> (r: Option<Option<(u32, u32)>>)
    ensures
        r == singletouch_spec(parsed.typ, parsed.size, parsed.data@),
{
    if !(parsed.typ == 3 && parsed.size == 6 && parsed.data[0] == 0x40) {
        return None;
    }
    if parsed.data[1] == 0 {
        return Some(None);
    }
    let x_raw: u16 = parsed.data[2] as u16 + 256 * parsed.data[3] as u16;
    let y_raw: u16 = parsed.data[4] as u16 + 256 * parsed.data[5] as u16;
    let x = scale_raw(x_raw, SCREEN_X);
    let y = scale_raw(y_raw, SCREEN_Y);
    Some(Some((x, y)))
}

} // verus!
