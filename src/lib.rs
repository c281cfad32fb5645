//! Incremental one-way synchronisation of a local tree to a remote host.
//!
//! The library decides everything that a sync run does: it reads the
//! manifest of the previous run, classifies each local file against it,
//! orders the remote operations and writes the next manifest. The program
//! around it only walks the disk and talks to the remote host.
pub mod config;
pub mod text;
pub mod manifest;
pub mod fingerprint;
pub mod laws;
pub mod plan;
pub mod remote;
