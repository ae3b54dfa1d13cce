use vstd::prelude::*;
use crate::chunk::{Chunk, ChunkStorage, StorageError};
use crate::ident::Ident;

verus! {

/// A [`ChunkStorage`] that allocates chunks in heap memory and persists nothing.
pub struct HeapStorage;

impl HeapStorage {
    /// Gets an instance of `HeapStorage`; it has no configuration.
    pub fn new() -> (r: HeapStorage) {
        HeapStorage
    }
}

impl ChunkStorage for HeapStorage {
    open spec fn spec_volatile(&self) -> bool {
        true
    }

    fn create_chunk(&self, ident: Ident, size: usize) -> (r: Result<Chunk, StorageError>)
        ensures
            r matches Ok(c) && c.ident == ident && c.bytes@ == Seq::new(size as nat, |i: int| 0u8),
    {
        let bytes = vec![0u8; size];
        assert(bytes@ =~= Seq::new(size as nat, |i: int| 0u8));
        Ok(Chunk { ident, bytes })
    }

    fn load_or_create_chunk(&self, ident: Ident, size: usize) -> (r: Result<(Chunk, bool), StorageError>)
        ensures
            r matches Ok((c, created)) && created && c.ident == ident && c.bytes@ == Seq::new(
                size as nat,
                |i: int| 0u8,
            ),
    {
        match self.create_chunk(ident, size) {
            Ok(c) => Ok((c, true)),
            Err(e) => Err(e),
        }
    }

    fn load_chunk(&self, ident: Ident) -> (r: Result<Chunk, StorageError>)
        ensures
            r == Err::<Chunk, StorageError>(StorageError::NotPersistent),
    {
        Err(StorageError::NotPersistent)
    }

    fn unload_chunk(&self, chunk: &Chunk) -> (r: Result<(), StorageError>)
        ensures
            r is Ok,
    {
        Ok(())
    }

    fn forget_chunk(&self, chunk: &Chunk) -> (r: Result<(), StorageError>)
        ensures
            r is Ok,
    {
        Ok(())
    }
}

} // verus!
