//! Readers for the launchers' own library data.

pub mod heroic;
pub mod profile;
pub mod steam;
