//! Low-level pieces that the rest is built on.

pub mod aligned;
pub mod device;
pub mod genstamp;
pub mod hint;
pub mod numa;
pub mod powers;
