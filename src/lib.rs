//! Per-user process census: parsing of a process listing, an accumulating
//! aggregate of process ids per owner, and the JSON summary served over HTTP.

pub mod aggregate;
pub mod parse;
pub mod service;
