//! An embedded key-value store of the Bitcask family: an append-only paged
//! log on disk, indexed by an in-memory directory that maps each live key to
//! the location of its most recent record. This crate holds the verified
//! storage engine: the entry codec, the page format, the LRU-K replacer, the
//! page cache, the key directory with its bootstrap replay, and the request
//! dispatcher. Disk and network I/O live outside the library; the engine
//! hands out the bytes to write and receives the bytes that were read.

pub mod entry;
pub mod page;
pub mod replacer;
pub mod key_dir;
pub mod page_manager;
pub mod message;
