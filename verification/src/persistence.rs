//! Save-game persistence: the save header, the write-ahead log framing and
//! the modification-decay budget.

pub mod schema;
pub mod wal;
pub mod decay;
pub mod mutation;
