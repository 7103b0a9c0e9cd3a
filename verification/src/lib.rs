//! Touch-report processing for Intel Precise Touch & Stylus devices:
//! pointer tracking, report wire formats and device-protocol decisions.

pub mod be;
pub mod config;
pub mod cursors;
pub mod datagram;
pub mod dump;
pub mod engine;
pub mod frame;
pub mod header;
pub mod heatmap;
pub mod ipts;
pub mod mtinput;
pub mod mux;
pub mod pem;
pub mod pointers;
pub mod quic;
pub mod segment;
pub mod session;
pub mod singletouch;
mod slices;
pub mod tcp;

pub use header::{DeviceInfo, HeaderAndBuffer};
pub use heatmap::get_heatmap;
pub use pointers::{Counter, Pointers, Report};

use vstd::prelude::*;

verus! {

/// Width of the touch screen in its own units.
pub const SCREEN_X: u16 = 2736;

/// Height of the touch screen in its own units.
pub const SCREEN_Y: u16 = 1824;

/// Length of a report datagram in bytes.
pub const DATAGRAM_SIZE: usize = 168;

} // verus!
