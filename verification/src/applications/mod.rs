//! What is built on the arguments.

pub mod poly_commit;
pub mod round_trip;
