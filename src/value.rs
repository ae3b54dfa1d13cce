use vstd::prelude::*;
use crate::chunk::{Chunk, ChunkStorage, StorageError};
use crate::ident::Ident;
use crate::word::{read_word, write_word, word_at, WORD_SIZE};

verus! {

/// A fixed number of `u64` words kept in a chunk of their own.
///
/// The chunk's bytes are the value: word `i` is stored little-endian at byte `8 * i`.
/// With a persisting storage the words survive [`Value::unload`] and loading again; a value
/// dropped without `unload` leaves the persisted words as they were.
pub struct Value {
    chunk: Chunk,
    n_words: usize,
    created: bool,
}

impl View for Value {
    type V = Seq<u64>;

    closed spec fn view(&self) -> Seq<u64> {
        Seq::new(self.n_words as nat, |i: int| word_at(self.chunk.bytes@, WORD_SIZE * i))
    }
}

impl Value {
    /// The chunk holds every word.
    pub closed spec fn wf(&self) -> bool {
        &&& self.n_words * WORD_SIZE <= self.chunk.bytes@.len()
        &&& self.n_words * WORD_SIZE <= usize::MAX
    }

    /// Whether the chunk was created new (and so holds the defaults) rather than loaded.
    pub closed spec fn is_new(&self) -> bool {
        self.created
    }

    /// The name of the chunk holding the value.
    pub closed spec fn ident(&self) -> Ident {
        self.chunk.ident
    }

    /// Loads the value kept under `ident`, or creates it holding `default`.
    ///
    /// A loaded chunk too short to hold `default.len()` words is reported as corrupt.
    pub fn load_or_default<S: ChunkStorage>(ident: Ident, default: &[u64], storage: &S) -> (r: Result<
        Value,
        StorageError,
    >)
        requires
            default@.len() * WORD_SIZE <= usize::MAX,
        ensures
            r matches Ok(v) ==> v.wf() && v@.len() == default@.len() && v.ident() == ident && (
            v.is_new() ==> v@ == default@),
            storage.spec_volatile() ==> (r matches Ok(v) && v.is_new()),
    {
        let size = default.len() * WORD_SIZE;
        match storage.load_or_create_chunk(ident, size) {
            Ok((chunk, created)) => Value::from_chunk(chunk, created, default),
            Err(e) => Err(e),
        }
    }

    /// Builds the value held by `chunk`: `default` written into it when the chunk was
    /// `created` new, otherwise the words the chunk already holds.
    pub fn from_chunk(chunk: Chunk, created: bool, default: &[u64]) -> (r: Result<Value, StorageError>)
        requires
            default@.len() * WORD_SIZE <= usize::MAX,
        ensures
            r is Err <==> chunk.bytes@.len() < default@.len() * WORD_SIZE,
            r is Err ==> r == Err::<Value, StorageError>(StorageError::Corrupt),
            r matches Ok(v) ==> v.wf() && v@.len() == default@.len() && v.ident() == chunk.ident
                && v.is_new() == created,
            r matches Ok(v) ==> (created ==> v@ == default@),
            r matches Ok(v) ==> (!created ==> v@ == Seq::new(
                default@.len(),
                |i: int| word_at(chunk.bytes@, WORD_SIZE * i),
            )),
    {
        let mut chunk = chunk;
        let size = default.len() * WORD_SIZE;
        if chunk.bytes.len() < size {
            return Err(StorageError::Corrupt);
        }
        let ghost n = default@.len();
        let ghost ident = chunk.ident;
        if created {
            let mut i: usize = 0;
            while i < default.len()
                invariant
                    i <= n,
                    n == default@.len(),
                    n * WORD_SIZE <= chunk.bytes@.len(),
                    n * WORD_SIZE <= usize::MAX,
                    chunk.ident == ident,
                    forall|j: int| 0 <= j < i ==> word_at(chunk.bytes@, WORD_SIZE * j) == #[trigger] default@[j],
                decreases n - i,
            {
                let ghost before = chunk.bytes@;
                write_word(&mut chunk.bytes, i * WORD_SIZE, default[i]);
                assert forall|j: int| 0 <= j < i + 1 implies word_at(chunk.bytes@, WORD_SIZE * j) == #[trigger] default@[j] by {
                    if j < i {
                        assert forall|k: int| WORD_SIZE * j <= k < WORD_SIZE * j + WORD_SIZE implies chunk.bytes@[k] == before[k] by {}
                        assert(word_at(chunk.bytes@, WORD_SIZE * j) == word_at(before, WORD_SIZE * j));
                    }
                }
                i = i + 1;
            }
            let v = Value { chunk, n_words: default.len(), created };
            assert(v@ =~= default@);
            Ok(v)
        } else {
            let v = Value { chunk, n_words: default.len(), created };
            assert(v@ =~= Seq::new(n, |i: int| word_at(v.chunk.bytes@, WORD_SIZE * i)));
            Ok(v)
        }
    }

    /// Number of words in the value.
    pub fn len(&self) -> (r: usize)
        ensures
            r == self@.len(),
    {
        self.n_words
    }

    /// Word `i` of the value.
    pub fn get(&self, i: usize) -> (r: u64)
        requires
            self.wf(),
            i < self@.len(),
        ensures
            r == self@[i as int],
    {
        read_word(self.chunk.bytes.as_slice(), i * WORD_SIZE)
    }

    /// Sets word `i` of the value to `x`.
    pub fn set(&mut self, i: usize, x: u64)
        requires
            old(self).wf(),
            i < old(self)@.len(),
        ensures
            final(self).wf(),
            final(self)@ == old(self)@.update(i as int, x),
            final(self).ident() == old(self).ident(),
            final(self).is_new() == old(self).is_new(),
    {
        let ghost before = self.chunk.bytes@;
        write_word(&mut self.chunk.bytes, i * WORD_SIZE, x);
        assert forall|j: int| 0 <= j < self.n_words && j != i implies #[trigger] word_at(self.chunk.bytes@, WORD_SIZE * j) == word_at(before, WORD_SIZE * j) by {
            assert(j < i || j > i);
            assert forall|k: int| WORD_SIZE * j <= k < WORD_SIZE * j + WORD_SIZE implies self.chunk.bytes@[k] == before[k] by {}
        }
        assert(self@ =~= old(self)@.update(i as int, x));
    }

    /// Hands the value's chunk to `storage` to be persisted.
    pub fn unload<S: ChunkStorage>(&self, storage: &S) -> (r: Result<(), StorageError>)
        ensures
            storage.spec_volatile() ==> r is Ok,
    {
        storage.unload_chunk(&self.chunk)
    }

    /// Deletes any persisted representation of the value.
    pub fn forget<S: ChunkStorage>(&self, storage: &S) -> (r: Result<(), StorageError>)
        ensures
            storage.spec_volatile() ==> r is Ok,
    {
        storage.forget_chunk(&self.chunk)
    }
}

} // verus!
