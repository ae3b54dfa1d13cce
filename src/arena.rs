use vstd::prelude::*;
use vstd::arithmetic::div_mod::{
    lemma_fundamental_div_mod, lemma_mod_bound, lemma_div_pos_is_pos, lemma_div_is_ordered,
    lemma_div_basics, lemma_div_multiples_vanish_fancy, lemma_mod_multiples_basic,
};
use crate::chunk::{Chunk, ChunkStorage, StorageError, write_bytes, copy_bytes};
use crate::ident::{Ident, sub_name, decimal};
use crate::value::Value;

verus! {

/// Refers to an item within an [`Arena`].
#[derive(Clone, Copy, Debug, PartialEq, Eq, Structural)]
pub struct ArenaIndex(pub usize);

/// Stores items of a fixed (maximum) size consecutively in a sequence of chunks.
///
/// Slot `i` lives in chunk `i / items_per_chunk`, at byte `(i % items_per_chunk) * item_size`,
/// where `items_per_chunk = chunk_size / item_size`. The number of items is persisted in a
/// [`Value`] named `<ident>_len`; chunk `k` is named `<ident>_<k * items_per_chunk>`.
pub struct Arena {
    ident: Ident,
    chunks: Vec<Chunk>,
    chunk_size: usize,
    item_size: usize,
    len: usize,
    len_value: Value,
}

/// The bytes of slot `i` when `chunks` hold `per_chunk` slots of `item_size` bytes each.
pub open spec fn slot_of(chunks: Seq<Chunk>, per_chunk: int, item_size: int, i: int) -> Seq<u8> {
    let start = (i % per_chunk) * item_size;
    chunks[i / per_chunk].bytes@.subrange(start, start + item_size)
}

/// The number of chunks needed to hold `len` items, `per_chunk` to a chunk.
pub open spec fn chunks_needed(len: int, per_chunk: int) -> int {
    (len + per_chunk - 1) / per_chunk
}

/// With `len <= c * d < len + d`, the last of the `c` chunks is full exactly when `d` divides `len`.
proof fn lemma_tail_full(len: int, c: int, d: int)
    requires
        d > 0,
        len >= 0,
        c >= 0,
        len <= c * d,
        c * d < len + d,
    ensures
        (len % d == 0) <==> (len == c * d),
        c == chunks_needed(len, d),
{
    lemma_fundamental_div_mod(len, d);
    lemma_mod_bound(len, d);
    let q = len / d;
    let r = len % d;
    assert(len == d * q + r);
    // c * d lies in [q*d + r, q*d + r + d), so c is q when r == 0 and q + 1 otherwise.
    if r == 0 {
        assert(q * d <= c * d && c * d < (q + 1) * d) by (nonlinear_arith)
            requires len == d * q, len <= c * d, c * d < len + d;
        assert(c == q) by (nonlinear_arith)
            requires q * d <= c * d, c * d < (q + 1) * d, d > 0;
        assert(len == c * d) by (nonlinear_arith)
            requires len == d * q, c == q;
    } else {
        assert(q * d < c * d && c * d < (q + 2) * d) by (nonlinear_arith)
            requires len == d * q + r, 0 < r < d, len <= c * d, c * d < len + d;
        assert(c == q + 1) by (nonlinear_arith)
            requires q * d < c * d, c * d < (q + 2) * d, d > 0;
        assert(len != c * d) by (nonlinear_arith)
            requires len == d * q + r, 0 < r < d, c == q + 1;
    }
    let m = len + d - 1;
    lemma_fundamental_div_mod(m, d);
    lemma_mod_bound(m, d);
    if r == 0 {
        assert(m == d * q + (d - 1)) by (nonlinear_arith)
            requires len == d * q + r, r == 0, m == len + d - 1;
        lemma_div_multiples_vanish_fancy(q, d - 1, d);
    } else {
        assert(m == d * (q + 1) + (r - 1)) by (nonlinear_arith)
            requires len == d * q + r, m == len + d - 1;
        lemma_div_multiples_vanish_fancy(q + 1, r - 1, d);
    }
}

/// A chunk at least one item large holds at least one item.
proof fn lemma_per_chunk_pos(chunk_size: int, size: int)
    requires
        0 < size <= chunk_size,
    ensures
        chunk_size / size >= 1,
{
    lemma_div_is_ordered(size, chunk_size, size);
    lemma_div_basics(size);
}

/// `chunks_needed(len, d)` chunks hold `len` items with less than one chunk to spare.
proof fn lemma_needed_bounds(len: int, d: int)
    requires
        d > 0,
        len >= 0,
    ensures
        len <= chunks_needed(len, d) * d < len + d,
{
    let m = len + d - 1;
    lemma_fundamental_div_mod(m, d);
    lemma_mod_bound(m, d);
    let c = m / d;
    assert(c * d == d * c) by (nonlinear_arith);
}

/// With `n + 1 <= c * d < n + 1 + d`, removing the last of `n + 1` items empties the last chunk
/// exactly when `d` divides `n`.
proof fn lemma_pop_shape(n: int, c: int, d: int)
    requires
        d > 0,
        n >= 0,
        n + 1 <= c * d,
        c * d < n + 1 + d,
    ensures
        c >= 1,
        n % d == 0 ==> n == (c - 1) * d,
        n % d != 0 ==> c * d < n + d,
{
    lemma_fundamental_div_mod(n, d);
    lemma_mod_bound(n, d);
    let q = n / d;
    let r = n % d;
    assert(c >= 1) by (nonlinear_arith)
        requires n + 1 <= c * d, d > 0, n >= 0;
    if r == 0 {
        assert(d * q < c * d && c * d <= d * q + d) by (nonlinear_arith)
            requires n == d * q, n + 1 <= c * d, c * d < n + 1 + d;
        assert(c == q + 1) by (nonlinear_arith)
            requires d * q < c * d, c * d <= d * q + d, d > 0;
        assert(n == (c - 1) * d) by (nonlinear_arith)
            requires n == d * q, c == q + 1;
    } else if c * d == n + d {
        assert(n == (c - 1) * d) by (nonlinear_arith)
            requires c * d == n + d;
        lemma_mod_multiples_basic(c - 1, d);
    }
}

/// Slot `r` of `size` bytes ends no later than the chunk when `r < chunk_size / size`.
proof fn lemma_slot_fits(r: int, size: int, chunk_size: int)
    requires
        size > 0,
        0 <= r < chunk_size / size,
    ensures
        0 <= r * size,
        r * size + size <= chunk_size,
{
    lemma_fundamental_div_mod(chunk_size, size);
    lemma_mod_bound(chunk_size, size);
    let q = chunk_size / size;
    assert(r * size + size <= size * q) by (nonlinear_arith)
        requires r < q, size > 0;
    assert(0 <= r * size) by (nonlinear_arith)
        requires r >= 0, size > 0;
}

/// Slots `r1 < r2` of `size` bytes do not overlap.
proof fn lemma_slots_apart(r1: int, r2: int, size: int)
    requires
        size > 0,
        0 <= r1 < r2,
    ensures
        r1 * size + size <= r2 * size,
{
    assert(r1 * size + size <= r2 * size) by (nonlinear_arith)
        requires size > 0, r1 < r2;
}

/// Item `i < len` lies in one of the `c` chunks when `len <= c * d`.
proof fn lemma_item_chunk(i: int, len: int, c: int, d: int)
    requires
        d > 0,
        0 <= i < len,
        len <= c * d,
    ensures
        0 <= i / d < c,
        0 <= i % d < d,
{
    lemma_fundamental_div_mod(i, d);
    lemma_mod_bound(i, d);
    lemma_div_pos_is_pos(i, d);
    let q = i / d;
    assert(q < c) by (nonlinear_arith)
        requires i == d * q + i % d, i % d >= 0, i < len, len <= c * d, d > 0;
}

impl View for Arena {
    type V = Seq<Seq<u8>>;

    /// The bytes of every slot, in index order.
    closed spec fn view(&self) -> Seq<Seq<u8>> {
        Seq::new(self.len as nat, |i: int| self.slot(i))
    }
}

impl Arena {
    /// The bytes of slot `i`.
    closed spec fn slot(&self, i: int) -> Seq<u8> {
        slot_of(self.chunks@, self.spec_items_per_chunk(), self.item_size as int, i)
    }

    /// The arena's name.
    pub closed spec fn spec_ident(&self) -> Seq<char> {
        self.ident@
    }

    /// The name of chunk `k`.
    pub closed spec fn spec_chunk_ident(&self, k: int) -> Seq<char> {
        self.chunks@[k].ident@
    }

    /// Whether the persisted length was created new rather than loaded.
    pub closed spec fn spec_len_is_new(&self) -> bool {
        self.len_value.is_new()
    }

    /// How many slots one chunk holds.
    pub closed spec fn spec_items_per_chunk(&self) -> int {
        self.chunk_size as int / self.item_size as int
    }

    /// The size of every slot.
    pub closed spec fn spec_item_size(&self) -> int {
        self.item_size as int
    }

    /// The size of the chunks the arena creates.
    pub closed spec fn spec_chunk_size(&self) -> int {
        self.chunk_size as int
    }

    /// The number of chunks currently held.
    pub closed spec fn spec_chunk_count(&self) -> int {
        self.chunks@.len() as int
    }

    /// The arena's well-formedness: sizes, chunk count and persisted length agree.
    pub closed spec fn wf(&self) -> bool {
        let d = self.spec_items_per_chunk();
        &&& 0 < self.item_size <= self.chunk_size
        &&& self.len <= self.chunks@.len() * d < self.len + d
        &&& forall|k: int| 0 <= k < self.chunks@.len() ==> #[trigger] self.chunks@[k].bytes@.len()
            >= self.chunk_size
        &&& self.len_value.wf()
        &&& self.len_value@.len() == 1
        &&& self.len_value@[0] == self.len as u64
    }

    /// A well-formed arena holds `ceil(len / items_per_chunk)` chunks, at least one item fits
    /// in a chunk, and every slot is `item_size` bytes long.
    pub proof fn lemma_wf_facts(&self)
        requires
            self.wf(),
        ensures
            self.spec_items_per_chunk() == self.spec_chunk_size() / self.spec_item_size(),
            self.spec_item_size() > 0,
            self.spec_items_per_chunk() >= 1,
            self.spec_chunk_count() == chunks_needed(self@.len() as int, self.spec_items_per_chunk()),
            forall|i: int| 0 <= i < self@.len() ==> (#[trigger] self@[i]).len() == self.spec_item_size(),
    {
        let d = self.spec_items_per_chunk();
        lemma_per_chunk_pos(self.chunk_size as int, self.item_size as int);
        lemma_tail_full(self.len as int, self.chunks@.len() as int, d);
        assert forall|i: int| 0 <= i < self@.len() implies (#[trigger] self@[i]).len() == self.spec_item_size() by {
            lemma_item_chunk(i, self.len as int, self.chunks@.len() as int, d);
            lemma_slot_fits(i % d, self.item_size as int, self.chunk_size as int);
        }
    }

    /// Opens the arena named `ident`, loading every chunk that its persisted length needs,
    /// or creates it empty.
    ///
    /// A persisted length beyond `usize::MAX`, or a loaded chunk shorter than `chunk_size`,
    /// is reported as corrupt.
    pub fn new<S: ChunkStorage>(ident: Ident, chunk_size: usize, item_size: usize, storage: &S) -> (r:
        Result<Arena, StorageError>)
        requires
            0 < item_size <= chunk_size,
        ensures
            r matches Ok(a) ==> a.wf() && a.spec_item_size() == item_size && a.spec_chunk_size()
                == chunk_size,
            r matches Ok(a) ==> (a.spec_len_is_new() ==> a@.len() == 0 && a.spec_chunk_count() == 0),
            r matches Ok(a) ==> a.spec_ident() == ident@,
            storage.spec_volatile() ==> (r matches Ok(a) && a@.len() == 0 && a.spec_chunk_count() == 0),
    {
        let len_value = match Value::load_or_default(ident.sub("len"), &[0u64], storage) {
            Ok(v) => v,
            Err(e) => {
                return Err(e);
            },
        };
        let stored = len_value.get(0);
        let mut chunks: Vec<Chunk> = Vec::new();
        if stored <= usize::MAX as u64 {
            let len = stored as usize;
            let per_chunk = chunk_size / item_size;
            proof {
                lemma_per_chunk_pos(chunk_size as int, item_size as int);
            }
            let mut remaining: usize = len;
            assert(chunks@.len() * per_chunk == 0) by (nonlinear_arith)
                requires chunks@.len() == 0;
            while remaining > 0
                invariant
                    per_chunk == chunk_size as int / item_size as int,
                    per_chunk >= 1,
                    remaining <= len,
                    storage.spec_volatile() ==> len == 0,
                    remaining > 0 ==> chunks@.len() * per_chunk == len - remaining,
                    remaining == 0 ==> len <= chunks@.len() * per_chunk < len + per_chunk,
                decreases remaining,
            {
                let chunk = match storage.load_chunk(ident.sub_index(len - remaining)) {
                    Ok(c) => c,
                    Err(e) => {
                        return Err(e);
                    },
                };
                let ghost c = chunks@.len() as int;
                chunks.push(chunk);
                assert((c + 1) * per_chunk == c * per_chunk + per_chunk) by (nonlinear_arith);
                if remaining <= per_chunk {
                    remaining = 0;
                } else {
                    remaining = remaining - per_chunk;
                }
            }
            proof {
                lemma_tail_full(len as int, chunks@.len() as int, per_chunk as int);
                let c = chunks@.len() as int;
                if len == 0 {
                    assert(c == 0) by (nonlinear_arith)
                        requires 0 <= c * per_chunk < per_chunk, per_chunk >= 1, c >= 0;
                }
            }
        }
        Arena::from_parts(ident, chunk_size, item_size, len_value, chunks)
    }

    /// Builds the arena held by a loaded length `len_value` and the loaded `chunks`: the
    /// length is the value's word, and slot `i` is read from the chunks.
    pub fn from_parts(ident: Ident, chunk_size: usize, item_size: usize, len_value: Value, chunks: Vec<Chunk>) -> (r:
        Result<Arena, StorageError>)
        requires
            0 < item_size <= chunk_size,
            len_value.wf(),
            len_value@.len() == 1,
            len_value@[0] <= usize::MAX ==> chunks@.len() == chunks_needed(
                len_value@[0] as int,
                chunk_size as int / item_size as int,
            ),
        ensures
            r is Err <==> (len_value@[0] > usize::MAX || exists|k: int| 0 <= k < chunks@.len()
                && #[trigger] chunks@[k].bytes@.len() < chunk_size),
            r is Err ==> r == Err::<Arena, StorageError>(StorageError::Corrupt),
            r matches Ok(a) ==> a.wf() && a.spec_item_size() == item_size && a.spec_chunk_size()
                == chunk_size && a.spec_len_is_new() == len_value.is_new() && a.spec_ident() == ident@ && a@.len()
                == len_value@[0] && a.spec_chunk_count() == chunks@.len(),
            r matches Ok(a) ==> forall|i: int| 0 <= i < a@.len() ==> #[trigger] a@[i] == slot_of(
                chunks@,
                chunk_size as int / item_size as int,
                item_size as int,
                i,
            ),
    {
        let stored = len_value.get(0);
        if stored > usize::MAX as u64 {
            return Err(StorageError::Corrupt);
        }
        let mut k: usize = 0;
        while k < chunks.len()
            invariant
                k <= chunks@.len(),
                forall|j: int| 0 <= j < k ==> #[trigger] chunks@[j].bytes@.len() >= chunk_size,
            decreases chunks@.len() - k,
        {
            if chunks[k].len() < chunk_size {
                return Err(StorageError::Corrupt);
            }
            k = k + 1;
        }
        let len = stored as usize;
        proof {
            lemma_per_chunk_pos(chunk_size as int, item_size as int);
            lemma_needed_bounds(len as int, chunk_size as int / item_size as int);
        }
        let a = Arena { ident, chunks, chunk_size, item_size, len, len_value };
        Ok(a)
    }

    fn items_per_chunk(&self) -> (r: usize)
        requires
            self.wf(),
        ensures
            r == self.spec_items_per_chunk(),
            r >= 1,
    {
        proof {
            lemma_per_chunk_pos(self.chunk_size as int, self.item_size as int);
        }
        self.chunk_size / self.item_size
    }

    /// Number of items in the arena.
    pub fn len(&self) -> (r: usize)
        ensures
            r == self@.len(),
    {
        self.len
    }

    /// Whether the arena holds no item.
    pub fn is_empty(&self) -> (r: bool)
        ensures
            r == (self@.len() == 0),
    {
        self.len() == 0
    }

    /// Number of chunks the arena currently holds.
    pub fn chunk_count(&self) -> (r: usize)
        ensures
            r == self.spec_chunk_count(),
    {
        self.chunks.len()
    }

    /// Allocates the slot at index `len` and returns that index; the slot's bytes are left as
    /// they are. When the last chunk is full, a chunk named `<ident>_<len>` is created first.
    pub fn push<S: ChunkStorage>(&mut self, storage: &S) -> (r: Result<ArenaIndex, StorageError>)
        requires
            old(self).wf(),
        ensures
            final(self).wf(),
            final(self).spec_item_size() == old(self).spec_item_size(),
            final(self).spec_chunk_size() == old(self).spec_chunk_size(),
            final(self).spec_items_per_chunk() == old(self).spec_items_per_chunk(),
            final(self).spec_chunk_count() == chunks_needed(final(self)@.len() as int, final(self).spec_items_per_chunk()),
            r matches Ok(i) ==> i.0 == old(self)@.len() && final(self)@.len() == old(self)@.len() + 1
                && final(self)@.subrange(0, old(self)@.len() as int) == old(self)@,
            r is Err ==> final(self)@ == old(self)@,
            old(self)@.len() == usize::MAX ==> r == Err::<ArenaIndex, StorageError>(StorageError::Overflow),
            old(self)@.len() < usize::MAX && (old(self)@.len() as int) % old(self).spec_items_per_chunk() != 0
                ==> r is Ok,
            old(self)@.len() < usize::MAX && storage.spec_volatile() ==> r is Ok,
            final(self).spec_ident() == old(self).spec_ident(),
            forall|k: int| 0 <= k < old(self).spec_chunk_count() ==> #[trigger] final(self).spec_chunk_ident(k)
                == old(self).spec_chunk_ident(k),
            r is Ok && (old(self)@.len() as int) % old(self).spec_items_per_chunk() == 0 ==> final(self).spec_chunk_count()
                == old(self).spec_chunk_count() + 1 && final(self).spec_chunk_ident(old(self).spec_chunk_count())
                == sub_name(old(self).spec_ident(), decimal(old(self)@.len() as nat)),
    {
        proof {
            self.lemma_wf_facts();
        }
        let d = self.items_per_chunk();
        if self.len == usize::MAX {
            return Err(StorageError::Overflow);
        }
        let ghost old_self = *self;
        proof {
            lemma_tail_full(self.len as int, self.chunks@.len() as int, d as int);
        }
        if self.len % d == 0 {
            let chunk = match storage.create_chunk(self.ident.sub_index(self.len), self.chunk_size) {
                Ok(c) => c,
                Err(e) => {
                    return Err(e);
                },
            };
            let ghost c = self.chunks@.len() as int;
            self.chunks.push(chunk);
            assert((c + 1) * d == c * d + d) by (nonlinear_arith);
        }
        let index = ArenaIndex(self.len);
        self.len = self.len + 1;
        self.len_value.set(0, self.len as u64);
        proof {
            assert forall|i: int| 0 <= i < old_self.len implies self.slot(i) == old_self.slot(i) by {
                lemma_item_chunk(i, old_self.len as int, old_self.chunks@.len() as int, d as int);
            }
            assert(self@.subrange(0, old_self.len as int) =~= old_self@);
        }
        proof {
            self.lemma_wf_facts();
        }
        Ok(index)
    }

    /// Removes the last item. When that empties the last chunk, the chunk is forgotten
    /// (its persisted representation deleted) and dropped.
    pub fn pop_away<S: ChunkStorage>(&mut self, storage: &S) -> (r: Result<(), StorageError>)
        requires
            old(self).wf(),
            old(self)@.len() > 0,
        ensures
            final(self).wf(),
            final(self).spec_item_size() == old(self).spec_item_size(),
            final(self).spec_chunk_size() == old(self).spec_chunk_size(),
            final(self).spec_items_per_chunk() == old(self).spec_items_per_chunk(),
            final(self).spec_chunk_count() == chunks_needed(final(self)@.len() as int, final(self).spec_items_per_chunk()),
            r is Ok ==> final(self)@ == old(self)@.drop_last(),
            r is Err ==> final(self)@ == old(self)@,
            (old(self)@.len() - 1) % old(self).spec_items_per_chunk() != 0 ==> r is Ok,
            storage.spec_volatile() ==> r is Ok,
            final(self).spec_ident() == old(self).spec_ident(),
    {
        proof {
            self.lemma_wf_facts();
        }
        let d = self.items_per_chunk();
        let ghost old_self = *self;
        let new_len = self.len - 1;
        proof {
            lemma_pop_shape(new_len as int, self.chunks@.len() as int, d as int);
        }
        if new_len % d == 0 {
            let last = self.chunks.len() - 1;
            match storage.forget_chunk(&self.chunks[last]) {
                Ok(()) => {},
                Err(e) => {
                    return Err(e);
                },
            }
            self.chunks.pop();
        }
        self.len = new_len;
        self.len_value.set(0, new_len as u64);
        proof {
            assert forall|i: int| 0 <= i < new_len implies self.slot(i) == old_self.slot(i) by {
                lemma_item_chunk(i, new_len as int, self.chunks@.len() as int, d as int);
            }
            assert(self@ =~= old_self@.drop_last());
            self.lemma_wf_facts();
        }
        Ok(())
    }

    /// The bytes of the slot at `index`.
    pub fn at(&self, index: ArenaIndex) -> (r: &[u8])
        requires
            self.wf(),
            index.0 < self@.len(),
        ensures
            r@ == self@[index.0 as int],
            r@.len() == self.spec_item_size(),
    {
        let d = self.items_per_chunk();
        proof {
            lemma_item_chunk(index.0 as int, self.len as int, self.chunks@.len() as int, d as int);
            lemma_slot_fits(index.0 as int % d as int, self.item_size as int, self.chunk_size as int);
        }
        let start = (index.0 % d) * self.item_size;
        let chunk = &self.chunks[index.0 / d];
        &chunk.bytes.as_slice()[start..start + self.item_size]
    }

    /// Writes `data` over the first bytes of the slot at `index`; the rest of the slot keeps
    /// its bytes.
    pub fn at_mut(&mut self, index: ArenaIndex, data: &[u8])
        requires
            old(self).wf(),
            index.0 < old(self)@.len(),
            data@.len() <= old(self).spec_item_size(),
        ensures
            final(self).wf(),
            final(self).spec_item_size() == old(self).spec_item_size(),
            final(self).spec_chunk_size() == old(self).spec_chunk_size(),
            final(self).spec_items_per_chunk() == old(self).spec_items_per_chunk(),
            final(self).spec_ident() == old(self).spec_ident(),
            final(self)@ == old(self)@.update(
                index.0 as int,
                data@ + old(self)@[index.0 as int].subrange(data@.len() as int, old(self).spec_item_size()),
            ),
    {
        let d = self.items_per_chunk();
        let ghost old_self = *self;
        let ghost id = index.0 as int;
        proof {
            lemma_item_chunk(id, self.len as int, self.chunks@.len() as int, d as int);
            lemma_slot_fits(id % d as int, self.item_size as int, self.chunk_size as int);
        }
        let start = (index.0 % d) * self.item_size;
        let c = index.0 / d;
        write_bytes(&mut self.chunks[c].bytes, start, data);
        proof {
            assert forall|j: int| 0 <= j < self.len && j != id implies self.slot(j) == old_self.slot(j) by {
                lemma_item_chunk(j, self.len as int, self.chunks@.len() as int, d as int);
                lemma_slot_fits(j % d as int, self.item_size as int, self.chunk_size as int);
                if j / d as int == c as int {
                    lemma_fundamental_div_mod(j, d as int);
                    lemma_fundamental_div_mod(id, d as int);
                    if j % (d as int) < id % (d as int) {
                        lemma_slots_apart(j % d as int, id % d as int, self.item_size as int);
                    } else {
                        lemma_slots_apart(id % d as int, j % d as int, self.item_size as int);
                    }
                    assert(self.slot(j) =~= old_self.slot(j));
                }
            }
            assert(self.slot(id) =~= data@ + old_self.slot(id).subrange(data@.len() as int, self.item_size as int));
            assert(self@ =~= old_self@.update(id, data@ + old_self@[id].subrange(data@.len() as int, self.item_size as int)));
        }
    }

    /// Removes the item at `index` by moving the last item's bytes into its slot and
    /// removing the last slot. Returns `index` when an item was moved there, `None` when
    /// the removed item was the last one.
    pub fn swap_remove<S: ChunkStorage>(&mut self, index: ArenaIndex, storage: &S) -> (r: Result<
        Option<ArenaIndex>,
        StorageError,
    >)
        requires
            old(self).wf(),
            index.0 < old(self)@.len(),
        ensures
            final(self).wf(),
            final(self).spec_item_size() == old(self).spec_item_size(),
            final(self).spec_chunk_size() == old(self).spec_chunk_size(),
            final(self).spec_items_per_chunk() == old(self).spec_items_per_chunk(),
            final(self).spec_chunk_count() == chunks_needed(final(self)@.len() as int, final(self).spec_items_per_chunk()),
            r matches Ok(None) ==> index.0 == old(self)@.len() - 1 && final(self)@ == old(self)@.drop_last(),
            r matches Ok(Some(i)) ==> i == index && index.0 < old(self)@.len() - 1 && final(self)@
                == old(self)@.update(index.0 as int, old(self)@.last()).drop_last(),
            r is Err ==> final(self)@ == old(self)@,
            (old(self)@.len() - 1) % old(self).spec_items_per_chunk() != 0 ==> r is Ok,
            storage.spec_volatile() ==> r is Ok,
    {
        let last = self.len - 1;
        if index.0 == last {
            match self.pop_away(storage) {
                Ok(()) => Ok(None),
                Err(e) => Err(e),
            }
        } else {
            let ghost old_view = self@;
            proof {
                self.lemma_wf_facts();
            }
            let moved = copy_bytes(self.at(ArenaIndex(last)));
            match self.pop_away(storage) {
                Ok(()) => {},
                Err(e) => {
                    return Err(e);
                },
            }
            proof {
                self.lemma_wf_facts();
            }
            self.at_mut(index, moved.as_slice());
            proof {
                assert(moved@.subrange(moved@.len() as int, self.item_size as int) =~= Seq::<u8>::empty());
                assert(moved@ + moved@.subrange(moved@.len() as int, self.item_size as int) =~= moved@);
                assert(self@ =~= old_view.update(index.0 as int, old_view.last()).drop_last());
                self.lemma_wf_facts();
            }
            Ok(Some(index))
        }
    }

    /// Hands every chunk of the arena, and its persisted length, to `storage` to be persisted.
    pub fn unload<S: ChunkStorage>(&self, storage: &S) -> (r: Result<(), StorageError>)
        ensures
            storage.spec_volatile() ==> r is Ok,
    {
        let mut k: usize = 0;
        while k < self.chunks.len()
            invariant
                k <= self.chunks@.len(),
            decreases self.chunks@.len() - k,
        {
            match storage.unload_chunk(&self.chunks[k]) {
                Ok(()) => {},
                Err(e) => {
                    return Err(e);
                },
            }
            k = k + 1;
        }
        self.len_value.unload(storage)
    }
}

} // verus!
