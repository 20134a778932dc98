//! Packed-BCD codec and the fixed-layout "Format 6" market-data record.

pub mod bcd;
pub mod error;
pub mod record;
pub mod writer;
