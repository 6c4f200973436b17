//! Repository database engine for a Linux package manager: canonical record
//! encoding, an in-memory name-to-entry database, archive (de)serialization,
//! and package-artifact loading.
pub mod archive;
pub mod database;
pub mod lines;
pub mod loader;
pub mod numbers;
pub mod record;
pub mod sections;
