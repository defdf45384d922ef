//! Verified core of a ROM collection auditor.
//!
//! The library ingests a catalog (a DAT/XML file enumerating the expected
//! content of named games), identifies files by content digest, decides how
//! each file is to be placed in a canonical directory layout, and maintains a
//! provenance record of what has been placed across runs. All strings are
//! modelled as byte vectors; file system access, digest streaming and other
//! side effects live outside the library, which only decides.

pub mod bytes;
pub mod config;
pub mod db;
pub mod detector;
pub mod digest;
pub mod engine;
pub mod folders;
pub mod incremental;
pub mod jsondb;
pub mod mame;
pub mod parser;
pub mod report;
pub mod store;
pub mod rules;
pub mod types;
pub mod xml;
