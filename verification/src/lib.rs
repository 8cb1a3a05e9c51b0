//! Decoding of the Display Connector Block (DCB) of an NVIDIA video BIOS and
//! construction of the NVCAP value that summarises its outputs.
//!
//! The crate does no input or output: it is handed the firmware image as
//! bytes and the user's choices as plain values, and hands back entries,
//! displays and the packed NVCAP bytes.
//!
//! Every function has a contract, and Verus proves each of them but four:
//! the private functions in [`menu`] that call `str::trim`, `str::trim_end`,
//! `str::to_lowercase` and `str::replace` state what the standard library
//! does, and that is believed. Only the functions of [`menu`] that read a
//! line of text rest on them.

pub mod heads;
pub mod menu;
pub mod merge;
pub mod nvcap;
pub mod nvidia;
pub mod util;
