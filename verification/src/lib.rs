//! IPv4 subnet arithmetic: netmask/prefix conversion, subnet derivation,
//! child-subnet enumeration with pagination, contiguous free-range search,
//! and membership/overlap predicates.
//!
//! Addresses and masks are 32-bit unsigned integers; dotted-decimal text is
//! parsed by this crate. Rendering values back to text is left to callers.

pub mod convert;
pub mod enumerate;
pub mod errors;
pub mod help;
pub mod mask;
pub mod parse;
pub mod range;
pub mod subnet;
