//! A small in-memory document archive: a sharded reverse index, an
//! append-only document store, and the binary wire protocol spoken between
//! the archive's clients and its server.
pub mod message;
pub mod multimap;
pub mod database;
pub mod server;
