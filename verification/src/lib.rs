//! Integrity verification of AiBenchLab MBX v2 benchmark exports.
pub mod batch;
pub mod canonical;
pub mod digest;
pub mod info;
pub mod json;
pub mod text;
pub mod timestamp;
pub mod verify;
