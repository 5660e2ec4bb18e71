//! The first layout of patch mails that this library read.
pub mod patch;
