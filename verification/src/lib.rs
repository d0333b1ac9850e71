//! Timing analysis of CI build logs whose lines carry a `[h:m:s]` stamp,
//! and the paging logic for listing builds of a CI service.

pub mod decimal;
pub mod text;
pub mod logline;
pub mod order;
pub mod compare;
pub mod statements;
pub mod runs;
pub mod appveyor;
