use vstd::prelude::*;
use crate::arena::{Arena, ArenaIndex};
use crate::chunk::{ChunkStorage, StorageError};
use crate::ident::Ident;
use crate::word::{read_word, write_word, word_at, WORD_SIZE};

verus! {

/// A growable sequence of `u64` items kept in an [`Arena`], one little-endian word per slot.
/// Items reach the storage through [`Vector::unload`].
pub struct Vector {
    arena: Arena,
}

impl View for Vector {
    type V = Seq<u64>;

    closed spec fn view(&self) -> Seq<u64> {
        Seq::new(self.arena@.len(), |i: int| word_at(self.arena@[i], 0))
    }
}

impl Vector {
    /// The vector's well-formedness: its arena is well formed with word-sized slots.
    pub closed spec fn wf(&self) -> bool {
        &&& self.arena.wf()
        &&& self.arena.spec_item_size() == WORD_SIZE
    }

    /// How many items one chunk holds.
    pub closed spec fn spec_items_per_chunk(&self) -> int {
        self.arena.spec_items_per_chunk()
    }

    /// Whether the persisted length was created new rather than loaded.
    pub closed spec fn spec_is_new(&self) -> bool {
        self.arena.spec_len_is_new()
    }

    /// Opens the vector named `ident`, with chunks of `max(chunk_size, 8)` bytes, reloading
    /// its persisted items, or creates it empty.
    pub fn new<S: ChunkStorage>(ident: Ident, chunk_size: usize, storage: &S) -> (r: Result<Vector, StorageError>)
        ensures
            r matches Ok(v) ==> v.wf() && (v.spec_is_new() ==> v@.len() == 0),
            storage.spec_volatile() ==> (r matches Ok(v) && v@.len() == 0),
    {
        let size = if chunk_size > WORD_SIZE {
            chunk_size
        } else {
            WORD_SIZE
        };
        match Arena::new(ident, size, WORD_SIZE, storage) {
            Ok(arena) => Ok(Vector { arena }),
            Err(e) => Err(e),
        }
    }

    /// Number of items in the vector.
    pub fn len(&self) -> (r: usize)
        ensures
            r == self@.len(),
    {
        self.arena.len()
    }

    /// Whether the vector holds no item.
    pub fn is_empty(&self) -> (r: bool)
        ensures
            r == (self@.len() == 0),
    {
        self.len() == 0
    }

    /// The item at `index`, if there is one.
    pub fn at(&self, index: usize) -> (r: Option<u64>)
        requires
            self.wf(),
        ensures
            index < self@.len() ==> r == Some(self@[index as int]),
            index >= self@.len() ==> r is None,
    {
        if index < self.len() {
            proof {
                self.arena.lemma_wf_facts();
            }
            Some(read_word(self.arena.at(ArenaIndex(index)), 0))
        } else {
            None
        }
    }

    /// Overwrites the item at `index` with `item`; returns whether there was an item there.
    pub fn at_mut(&mut self, index: usize, item: u64) -> (r: bool)
        requires
            old(self).wf(),
        ensures
            final(self).wf(),
            r == (index < old(self)@.len()),
            r ==> final(self)@ == old(self)@.update(index as int, item),
            !r ==> final(self)@ == old(self)@,
    {
        if index < self.len() {
            let ghost before = self.arena@;
            proof {
                self.arena.lemma_wf_facts();
            }
            let bytes = word_bytes(item);
            self.arena.at_mut(ArenaIndex(index), bytes.as_slice());
            proof {
                assert(bytes@.subrange(WORD_SIZE as int, WORD_SIZE as int) =~= Seq::<u8>::empty());
                assert(bytes@ + before[index as int].subrange(WORD_SIZE as int, WORD_SIZE as int) =~= bytes@);
                assert(self@ =~= old(self)@.update(index as int, item));
            }
            true
        } else {
            false
        }
    }

    /// Appends `item`.
    pub fn push<S: ChunkStorage>(&mut self, item: u64, storage: &S) -> (r: Result<(), StorageError>)
        requires
            old(self).wf(),
        ensures
            final(self).wf(),
            r is Ok ==> final(self)@ == old(self)@.push(item),
            r is Err ==> final(self)@ == old(self)@,
            final(self).spec_items_per_chunk() == old(self).spec_items_per_chunk(),
            old(self)@.len() < usize::MAX && ((old(self)@.len() as int) % old(self).spec_items_per_chunk() != 0
                || storage.spec_volatile()) ==> r is Ok,
    {
        let ghost before = self.arena@;
        let index = match self.arena.push(storage) {
            Ok(i) => i,
            Err(e) => {
                return Err(e);
            },
        };
        let ghost mid = self.arena@;
        proof {
            self.arena.lemma_wf_facts();
            assert forall|i: int| 0 <= i < before.len() implies mid[i] == before[i] by {
                assert(mid.subrange(0, before.len() as int)[i] == mid[i]);
            }
        }
        let bytes = word_bytes(item);
        self.arena.at_mut(index, bytes.as_slice());
        proof {
            assert(bytes@.subrange(WORD_SIZE as int, WORD_SIZE as int) =~= Seq::<u8>::empty());
            assert(bytes@ + mid[index.0 as int].subrange(WORD_SIZE as int, WORD_SIZE as int) =~= bytes@);
            assert(self@ =~= old(self)@.push(item));
        }
        Ok(())
    }

    /// Removes and returns the last item, or `None` when the vector is empty.
    pub fn pop<S: ChunkStorage>(&mut self, storage: &S) -> (r: Result<Option<u64>, StorageError>)
        requires
            old(self).wf(),
        ensures
            final(self).wf(),
            old(self)@.len() == 0 ==> r == Ok::<Option<u64>, StorageError>(None) && final(self)@ == old(self)@,
            r matches Ok(Some(x)) ==> old(self)@.len() > 0 && x == old(self)@.last() && final(self)@
                == old(self)@.drop_last(),
            r is Err ==> final(self)@ == old(self)@,
            old(self)@.len() > 0 ==> (r is Err || r == Ok::<Option<u64>, StorageError>(Some(old(self)@.last()))),
            old(self)@.len() > 0 && ((old(self)@.len() - 1) % old(self).spec_items_per_chunk() != 0
                || storage.spec_volatile()) ==> r == Ok::<Option<u64>, StorageError>(Some(old(self)@.last())),
            final(self).spec_items_per_chunk() == old(self).spec_items_per_chunk(),
    {
        let n = self.len();
        if n == 0 {
            return Ok(None);
        }
        proof {
            self.arena.lemma_wf_facts();
        }
        let item = read_word(self.arena.at(ArenaIndex(n - 1)), 0);
        match self.arena.pop_away(storage) {
            Ok(()) => {},
            Err(e) => {
                return Err(e);
            },
        }
        assert(self@ =~= old(self)@.drop_last());
        Ok(Some(item))
    }

    /// Hands the vector's chunks to `storage` to be persisted.
    pub fn unload<S: ChunkStorage>(&self, storage: &S) -> (r: Result<(), StorageError>)
        ensures
            storage.spec_volatile() ==> r is Ok,
    {
        self.arena.unload(storage)
    }
}

/// The eight little-endian bytes of `x`.
fn word_bytes(x: u64) -> (r: Vec<u8>)
    ensures
        r@.len() == WORD_SIZE,
        word_at(r@, 0) == x,
{
    let mut b = vec![0u8; WORD_SIZE];
    write_word(&mut b, 0, x);
    b
}

} // verus!
