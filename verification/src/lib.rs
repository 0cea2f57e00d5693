//! Offline installation bundles for Debian-style packages.
//!
//! The library holds the verified core of the bundling pipeline: dependency
//! resolution with cycle and duplicate suppression, the parser for the
//! dependency query service's textual output, the manifest data model with a
//! round-tripping text codec, the bundle integrity digest protocol, and the
//! pure planning steps of packing and installing. Process invocation and file
//! handling live outside the library and hand it plain values.

pub mod strutil;
pub mod depends;
pub mod parse;
pub mod manifest;
pub mod digest;
pub mod bundle;
