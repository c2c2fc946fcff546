//! Enumerating locally installed Chrome profiles, resolving what it takes to
//! launch one, and keeping user-defined tags for profiles in a small JSON
//! file.
//!
//! The library holds the verified logic: reading the profile registry out of
//! the browser's state file, the tag store's format with its proven
//! round-trip law, and the platform-specific paths and launch argument.
//! Reading and writing the files themselves, and starting the browser, are
//! left to the embedding program, which hands content in and takes content
//! out as plain strings.

pub mod chars;
pub mod error;
pub mod json;
pub mod paths;
pub mod state;
pub mod tags;
