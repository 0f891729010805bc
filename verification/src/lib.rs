//! A small launcher library that maps user-chosen aliases to numeric
//! game ids for the Steam client: a file-backed alias store with
//! normalization and sorting rules, the messages each command prints,
//! and the probe that picks between the sandboxed and the bare client.

pub mod commands;
pub mod json;
pub mod launch;
pub mod laws;
pub mod norm;
pub mod store;
pub mod text;
