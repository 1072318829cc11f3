//! A small persistence codec for task records.
//!
//! A list of [`record::TaskEntry`] values is encoded as a tab-separated,
//! line-oriented text: a fixed header line followed by one line per entry.
//! [`codec::TaskDao`] holds such a list and converts it to and from that
//! text; reading and writing the backing file is left to the caller.

pub mod codec;
pub mod due;
pub mod record;
pub mod text;

pub use codec::ParseError;
pub use codec::TaskDao;
pub use record::TaskEntry;
