//! Sequential (C-compatible) structure layout: the byte offset of each field,
//! given the size and alignment of every field in declaration order.

pub mod util;
pub mod layout;
