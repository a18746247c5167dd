//! A log-structured key/value store.
//!
//! The library holds the store's bookkeeping: which log generation and
//! byte range holds the live command of every key, how many bytes of the
//! logs are stale, when a compaction is due, and how compaction relocates
//! live commands. Reading and writing the log files is left to the caller,
//! which reports back what it wrote or read. A second engine keeps the
//! pairs in a `sled` database.
pub mod command;
pub mod error;
pub mod files;
pub mod index;
pub mod keys;
pub mod laws;
pub mod model;
pub mod moves;
pub mod protocol;
pub mod server;
pub mod sled_engine;
pub mod store;

pub use command::{CommandPos, CommandView, EntryView, KvsCommand, LogEntry};
pub use error::{DbError, Result};
pub use files::{gen_of_file_name, get_gen_list, log_path};
pub use moves::{numbered_moves, Move};
pub use protocol::{GetResponse, RemoveResponse, Request, SetResponse};
pub use server::{resolve_engine, server_start};
pub use sled_engine::SledEngine;
pub use store::{Compaction, KvStore};
