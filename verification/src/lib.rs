//! A schema migration engine: it discovers a catalog of named migrations,
//! orders them by the numeric ordinal encoded in each name, consults a ledger
//! of already-applied migrations for idempotency, and decides which forward or
//! backward scripts to run. The host process performs the filesystem and
//! database work and drives the engine's verified decisions.

pub mod catalog;
pub mod engine;
pub mod laws;
pub mod ledger;
pub mod ordinal;
