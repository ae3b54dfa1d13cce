use vstd::prelude::*;
use crate::ident::Ident;

verus! {

/// A contiguous block of bytes handed out by a [`ChunkStorage`], with the name it is kept under.
pub struct Chunk {
    /// The name the storage keeps this chunk under.
    pub ident: Ident,
    /// The chunk's contents.
    pub bytes: Vec<u8>,
}

impl Chunk {
    /// Number of bytes in the chunk.
    pub fn len(&self) -> (r: usize)
        ensures
            r == self.bytes@.len(),
    {
        self.bytes.len()
    }
}

/// Copies `src` over the bytes of `dst` starting at `at`, leaving every other byte as it was.
pub(crate) fn write_bytes(dst: &mut Vec<u8>, at: usize, src: &[u8])
    requires
        at + src@.len() <= old(dst)@.len(),
    ensures
        final(dst)@.len() == old(dst)@.len(),
        forall|i: int| at <= i < at + src@.len() ==> #[trigger] final(dst)@[i] == src@[i - at],
        forall|i: int| 0 <= i < old(dst)@.len() && !(at <= i < at + src@.len()) ==> #[trigger] final(dst)@[i] == old(dst)@[i],
{
    let n = dst.len();
    let mut k: usize = 0;
    while k < src.len()
        invariant
            k <= src@.len(),
            at + src@.len() <= dst@.len(),
            dst@.len() == old(dst)@.len(),
            n == dst@.len(),
            forall|i: int| at <= i < at + k ==> #[trigger] dst@[i] == src@[i - at],
            forall|i: int| 0 <= i < old(dst)@.len() && !(at <= i < at + k) ==> #[trigger] dst@[i] == old(dst)@[i],
        decreases src@.len() - k,
    {
        dst.set(at + k, src[k]);
        k = k + 1;
    }
}

/// A fresh vector holding the bytes of `src`.
pub(crate) fn copy_bytes(src: &[u8]) -> (r: Vec<u8>)
    ensures
        r@ == src@,
{
    let mut r: Vec<u8> = Vec::new();
    let mut k: usize = 0;
    while k < src.len()
        invariant
            k <= src@.len(),
            r@ == src@.subrange(0, k as int),
        decreases src@.len() - k,
    {
        r.push(src[k]);
        k = k + 1;
        assert(r@ =~= src@.subrange(0, k as int));
    }
    assert(r@ =~= src@);
    r
}

/// Why a storage or collection operation could not be carried out.
#[derive(Clone, Copy, Debug, PartialEq, Eq, Structural)]
pub enum StorageError {
    /// A chunk that was to be created new already exists.
    AlreadyExists,
    /// A chunk that was to be loaded does not exist.
    NotFound,
    /// The storage keeps nothing between runs, so nothing can be loaded.
    NotPersistent,
    /// The backing medium failed.
    Io,
    /// Persisted data does not have the layout its collection expects.
    Corrupt,
    /// A size or position does not fit in a machine word.
    Overflow,
}

/// A provider of backing storage for chunks.
///
/// A storage creates, loads, unloads and forgets chunks by name. Unloading
/// keeps whatever the storage persists; forgetting deletes it as well.
pub trait ChunkStorage {
    /// The storage keeps nothing between runs: creating always succeeds with exactly the
    /// requested size, nothing is ever found to load, and unloading and forgetting succeed.
    spec fn spec_volatile(&self) -> bool;

    /// Creates a fresh chunk of at least `size` bytes named `ident`.
    fn create_chunk(&self, ident: Ident, size: usize) -> (r: Result<Chunk, StorageError>)
        ensures
            r matches Ok(c) ==> c.ident == ident && c.bytes@.len() >= size,
            self.spec_volatile() ==> (r matches Ok(c) && c.bytes@.len() == size),
    ;

    /// Loads the chunk named `ident`, or creates it with at least `size` bytes
    /// if it does not exist; the flag tells whether it was created.
    fn load_or_create_chunk(&self, ident: Ident, size: usize) -> (r: Result<(Chunk, bool), StorageError>)
        ensures
            r matches Ok((c, created)) ==> c.ident == ident && (created ==> c.bytes@.len() >= size),
            self.spec_volatile() ==> (r matches Ok((c, created)) && created && c.bytes@.len() == size),
    ;

    /// Loads the existing chunk named `ident`, at its persisted size.
    fn load_chunk(&self, ident: Ident) -> (r: Result<Chunk, StorageError>)
        ensures
            r matches Ok(c) ==> c.ident == ident,
    ;

    /// Persists the contents of `chunk`, if the storage persists anything.
    fn unload_chunk(&self, chunk: &Chunk) -> (r: Result<(), StorageError>)
        ensures
            self.spec_volatile() ==> r is Ok,
    ;

    /// Deletes any persisted representation of `chunk`.
    fn forget_chunk(&self, chunk: &Chunk) -> (r: Result<(), StorageError>)
        ensures
            self.spec_volatile() ==> r is Ok,
    ;
}

} // verus!
