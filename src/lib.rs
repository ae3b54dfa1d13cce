//! Chunk-backed collections over swappable storage backends.
//!
//! Items live in fixed-size byte chunks handed out by a [`ChunkStorage`];
//! the same collections work over transient heap memory and over storages
//! that persist chunks between runs.

pub mod word;
pub mod ident;
pub mod chunk;
pub mod heap_storage;
pub mod value;
pub mod arena;
pub mod record;
pub mod queue;
pub mod vector;
pub mod multi_arena;

pub use word::{read_word, write_word};
pub use ident::Ident;
pub use chunk::{Chunk, ChunkStorage, StorageError};
pub use heap_storage::HeapStorage;
pub use value::Value;
pub use arena::{Arena, ArenaIndex};
pub use queue::{Queue, QueueStep};
pub use vector::Vector;
pub use multi_arena::{MultiArena, MultiArenaIndex};
