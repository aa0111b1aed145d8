//! Parser for the metadata block that may follow a directive in a
//! line-oriented plain-text accounting format.
//!
//! A metadata block is a run of indented `key: value` lines interleaved with
//! blank lines, ended by the first line that is neither; that line is left
//! unconsumed.  Entries are folded into a key/value map with last-write-wins
//! on repeated keys.  A value is a quoted string, a decimal arithmetic
//! expression, or a currency ticker, tried in that order.

pub mod lex;
pub mod value;
pub mod map;
pub mod expr;
pub mod metadata;
pub mod render;
pub mod laws;

pub use map::MetadataMap;
pub use metadata::entry;
pub use metadata::parse;
pub use value::Currency;
pub use value::Decimal;
pub use value::SpecValue;
pub use value::Value;
