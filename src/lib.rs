//! Groups the files of a directory into subdirectories named after their
//! lowercased extension.
//!
//! The library holds every decision of an organizing pass; whoever drives it
//! performs the filesystem work it asks for and reports back what happened.

pub mod extension;
pub mod key;
pub mod model;
pub mod organizer;
