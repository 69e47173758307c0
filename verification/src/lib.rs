//! A verified parser for LHA/LZH archive headers.
//!
//! The library decodes one archive-entry header at a time from a byte
//! slice, covering all four incompatible header layouts (levels 0 to 3),
//! their length and checksum disciplines, the chained extra-header
//! sub-format, and the sanitizing of file names and paths into safe,
//! relative, printable text.

pub mod crc;
pub mod header;
pub mod sanitize;

pub use crc::Crc16;
pub use header::ExtraHeaderIter;
pub use header::LhaHeader;
pub use header::ParseError;
pub use sanitize::parse_pathname;
pub use sanitize::parse_str_nilterm;
pub use sanitize::split_data_at_nil_or_end;
