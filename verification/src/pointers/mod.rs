pub mod matching;
pub mod network;
pub mod pointers;
pub mod report;
pub mod set10;

pub use pointers::Pointers;
pub use report::{Counter, Report};
