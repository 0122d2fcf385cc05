//! A guest computation kernel for a host/guest linear-memory calling
//! convention: the host writes raw bytes into an arena the guest hands out,
//! invokes a compute export on a region, and reads the result bytes back
//! from the same region.
//!
//! The library provides the arena allocator, the marshalling layer (UTF-8
//! text and a JSON-encoded frequency table), and the compute exports `fx`,
//! `map` and `reduce` built on a word-counting payload.

pub mod arena;
pub mod errors;
pub mod guest;
pub mod json;
pub mod table;
pub mod tokens;

pub use arena::Arena;
pub use errors::GuestError;
pub use table::FreqTable;
pub use tokens::word_count;
