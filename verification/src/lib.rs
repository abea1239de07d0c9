//! Command registry and help overlay of a terminal application.
//!
//! Every component of the application reports the commands it currently
//! offers. The help overlay collects them, drops the hidden ones and the
//! duplicates, groups them, and lays them out as a scrollable popup with a
//! selection cursor.

pub mod aggregate;
pub mod components;
pub mod hash;
pub mod keys;
pub mod layout;
pub mod strings;
pub mod ui;
