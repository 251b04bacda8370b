//! A byte-signature scanner: signatures are sequences of literal bytes and
//! wildcards, parsed from text, matched exactly against a byte buffer, and
//! distributed over a bounded worker pool by round-robin.

pub mod parse;
pub mod sched;
pub mod set;
pub mod sig;
