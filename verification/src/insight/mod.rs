//! Procedure-level analysis of AL code: the call graph, call-site and
//! attribute extraction, and graph traversals.

pub mod calls;
pub mod discovery;
pub mod index;
pub mod search;
