//! The header that the IPTS driver puts before each buffer it hands out, and
//! the device information it reports.
use crate::dump::{dump_text, write_dump_text};
use crate::slices::array_window;
use vstd::prelude::*;

verus! {

/// The `u32` whose little-endian bytes are the four of `b` from `at`.
pub open spec fn le_u32_value(b: Seq<u8>, at: int) -> u32 {
    (b[at] as u32) | ((b[at + 1] as u32) << 8u32) | ((b[at + 2] as u32) << 16u32) | ((b[at + 3] as u32)
        << 24u32)
}

/// Reads the little-endian `u32` at `at`.
fn read_le_u32<const N: usize>(buf: &[u8; N], at: usize) -> (r: u32)
    requires
        at + 4 <= N,
    ensures
        r == le_u32_value(buf@, at as int),
{
    (buf[at] as u32) | ((buf[at + 1] as u32) << 8) | ((buf[at + 2] as u32) << 16) | ((buf[at + 3] as u32)
        << 24)
}

/// A buffer from the driver: its type, payload size and buffer number, then the payload.
pub struct HeaderAndBuffer<'a> {
    pub typ: u32,
    pub size: u32,
    pub buffer: u32,
    // uint8_t reserved[52];
    pub data: &'a [u8; 16320],
}

impl<'a> HeaderAndBuffer<'a> {
    /// Splits a driver buffer into its header fields (little-endian, at 0, 4
    /// and 8) and the payload after the 64-byte header.
    pub fn from(buf: &'a [u8; 16384]) -> (r: HeaderAndBuffer<'a>)
        ensures
            r.typ == le_u32_value(buf@, 0),
            r.size == le_u32_value(buf@, 4),
            r.buffer == le_u32_value(buf@, 8),
            r.data@ == buf@.subrange(64, 16384),
    {
        HeaderAndBuffer {
            typ: read_le_u32(buf, 0),
            size: read_le_u32(buf, 4),
            buffer: read_le_u32(buf, 8),
            data: array_window(buf, 64),
        }
    }

    /// The buffer holds a heatmap: type 3, size 3500, first payload byte 0x0B.
    pub fn is_heatmap(&self) -> (r: bool)
        ensures
            r == (self.typ == 3 && self.size == 3500 && self.data@[0] == 0x0B),
    {
        self.typ == 3 && self.size == 3500 && self.data[0] == 0x0B
    }

    /// The text that shows the buffer's payload for debugging.
    pub fn printed_text(&self) -> (r: Vec<u8>)
        ensures
            r@ == printed(self.data@, self.size),
    {
        let n: usize = if (self.size as usize) < 16320 {
            self.size as usize
        } else {
            16320
        };
        let mut out = if n == 0 {
            Vec::new()
        } else {
            write_dump_text(self.data, n)
        };
        let ghost body = out@;
        out.push(10);
        out.push(10);
        proof {
            if n == 0 {
                assert(out@ =~= seq![10u8, 10u8]);
            } else {
                assert(out@ =~= body + seq![10u8, 10u8]);
            }
        }
        out
    }

    /// The 3500 heatmap bytes at the start of the payload.
    pub fn heatmap_frame(&self) -> (r: &'a [u8; 3500])
        ensures
            r@ == self.data@.subrange(0, 3500),
    {
        array_window(self.data, 0)
    }
}

/// What printing a buffer shows: its first `size` payload bytes (at most the
/// whole payload) as `dump_text`, then an empty line.
pub open spec fn printed(data: Seq<u8>, size: u32) -> Seq<u8> {
    let n = if size < data.len() {
        size as int
    } else {
        data.len() as int
    };
    if n == 0 {
        seq![10u8, 10u8]
    } else {
        dump_text(data.take(n)) + seq![10u8, 10u8]
    }
}

/// What the device reports about itself.
pub struct DeviceInfo {
    pub vendor: u16,
    pub product: u16,
    pub version: u32,
    pub buffer_size: u32,
    pub max_contacts: u8,
    reserved: [u8; 19],
}

/// The fields of device information that carry meaning.
pub struct DeviceInfoView {
    pub vendor: u16,
    pub product: u16,
    pub version: u32,
    pub buffer_size: u32,
    pub max_contacts: u8,
}

impl View for DeviceInfo {
    type V = DeviceInfoView;

    closed spec fn view(&self) -> DeviceInfoView {
        DeviceInfoView {
            vendor: self.vendor,
            product: self.product,
            version: self.version,
            buffer_size: self.buffer_size,
            max_contacts: self.max_contacts,
        }
    }
}

impl Default for DeviceInfo {
    fn default() -> (r: DeviceInfo)
        ensures
            r@.vendor == 0 && r@.product == 0 && r@.version == 0 && r@.buffer_size == 0
                && r@.max_contacts == 0,
    {
        DeviceInfo {
            vendor: 0,
            product: 0,
            version: 0,
            buffer_size: 0,
            max_contacts: 0,
            reserved: [0; 19],
        }
    }
}

impl DeviceInfo {
    /// Device information with the given fields and a zero reserved area.
    pub fn new(vendor: u16, product: u16, version: u32, buffer_size: u32, max_contacts: u8) -> (r:
        DeviceInfo)
        ensures
            r@.vendor == vendor && r@.product == product && r@.version == version
                && r@.buffer_size == buffer_size && r@.max_contacts == max_contacts,
    {
        DeviceInfo { vendor, product, version, buffer_size, max_contacts, reserved: [0; 19] }
    }

    /// The device is the one this driver knows: vendor 0x45E, product 0x99F,
    /// version 19088656, 16384-byte buffers, 10 contacts.
    pub fn is_supported(&self) -> (r: bool)
        ensures
            r == (self@.vendor == 0x45E && self@.product == 0x99F && self@.version == 19088656
                && self@.buffer_size == 16384 && self@.max_contacts == 10),
    {
        self.vendor == 0x45E && self.product == 0x99F && self.version == 19088656
            && self.buffer_size == 16384 && self.max_contacts == 10
    }
}

} // verus!
