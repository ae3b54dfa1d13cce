use vstd::prelude::*;
use crate::chunk::{Chunk, ChunkStorage, StorageError, write_bytes, copy_bytes};
use crate::ident::{Ident, sub_name, decimal};
use crate::record::{
    HEADER_SIZE, records_at, records_end, concat, lemma_records_end_bounds, lemma_records_frame,
    lemma_records_append, lemma_concat_push_last, lemma_concat_push_empty, lemma_concat_pop_front,
    lemma_concat_push, scan_records, scan_target, lemma_records_determined, lemma_marker_determined,
    lemma_concat_append,
};
use crate::value::Value;
use crate::word::{read_word, write_word, word_at};

verus! {

/// The larger of `a` and `b`.
pub open spec fn bigger(a: int, b: int) -> int {
    if a > b {
        a
    } else {
        b
    }
}

/// Total length of the first `k` chunks of `cs`.
pub open spec fn lens_before(cs: Seq<Chunk>, k: int) -> int
    decreases k,
{
    if k <= 0 {
        0
    } else {
        lens_before(cs, k - 1) + cs[k - 1].bytes@.len()
    }
}

proof fn lemma_lens_push(cs: Seq<Chunk>, c: Chunk, k: int)
    requires
        0 <= k <= cs.len(),
    ensures
        lens_before(cs.push(c), k) == lens_before(cs, k),
    decreases k,
{
    if k > 0 {
        lemma_lens_push(cs, c, k - 1);
    }
}

proof fn lemma_lens_drop_first(cs: Seq<Chunk>, k: int)
    requires
        1 <= k <= cs.len(),
    ensures
        lens_before(cs.drop_first(), k - 1) == lens_before(cs, k) - cs[0].bytes@.len(),
        lens_before(cs, k) >= cs[0].bytes@.len(),
    decreases k,
{
    let d = cs.drop_first();
    assert(lens_before(cs, 1) == lens_before(cs, 0) + cs[0].bytes@.len());
    if k > 1 {
        lemma_lens_drop_first(cs, k - 1);
        assert(d[k - 2] == cs[k - 1]);
        assert(lens_before(d, k - 1) == lens_before(d, k - 2) + d[k - 2].bytes@.len());
    } else {
        assert(lens_before(d, 0) == 0);
    }
}

proof fn lemma_lens_same(cs1: Seq<Chunk>, cs2: Seq<Chunk>, k: int)
    requires
        0 <= k <= cs1.len(),
        k <= cs2.len(),
        forall|i: int| 0 <= i < k ==> #[trigger] cs1[i].bytes@.len() == cs2[i].bytes@.len(),
    ensures
        lens_before(cs1, k) == lens_before(cs2, k),
    decreases k,
{
    if k > 0 {
        lemma_lens_same(cs1, cs2, k - 1);
    }
}

/// Where the unread records of loaded chunk `j` begin, the first one being read from `s0`.
pub open spec fn head_start(j: int, s0: int) -> int {
    if j == 0 {
        s0
    } else {
        0
    }
}

/// A loaded chunk holds well-formed records from `start`, with room for a header after them.
pub open spec fn loaded_ok(b: Seq<u8>, start: int, items: Seq<Seq<u8>>) -> bool {
    &&& records_at(b, start, items)
    &&& records_end(start, items) + HEADER_SIZE <= b.len()
    &&& b.len() <= usize::MAX
}

/// One operation on a queue, as seen by its contents.
pub enum QueueStep {
    /// Enqueue of the given payload.
    Enqueue(Seq<u8>),
    /// Dequeue of the oldest payload, if any.
    Dequeue,
}

/// The contents after `step`, and the payload it dequeued, following the contracts of
/// [`Queue::enqueue`] and [`Queue::dequeue`].
pub open spec fn after_step(q: Seq<Seq<u8>>, step: QueueStep) -> (Seq<Seq<u8>>, Option<Seq<u8>>) {
    match step {
        QueueStep::Enqueue(p) => (q.push(p), None),
        QueueStep::Dequeue => if q.len() == 0 {
            (q, None)
        } else {
            (q.drop_first(), Some(q[0]))
        },
    }
}

/// The contents after running `steps` from `q`, and the payloads dequeued on the way, in order.
pub open spec fn run_steps(q: Seq<Seq<u8>>, steps: Seq<QueueStep>) -> (Seq<Seq<u8>>, Seq<Seq<u8>>)
    decreases steps.len(),
{
    if steps.len() == 0 {
        (q, Seq::empty())
    } else {
        let (q1, out) = after_step(q, steps[0]);
        let (qf, outs) = run_steps(q1, steps.drop_first());
        match out {
            Some(p) => (qf, seq![p] + outs),
            None => (qf, outs),
        }
    }
}

/// The payloads enqueued by `steps`, in order.
pub open spec fn enqueued(steps: Seq<QueueStep>) -> Seq<Seq<u8>>
    decreases steps.len(),
{
    if steps.len() == 0 {
        Seq::empty()
    } else {
        match steps[0] {
            QueueStep::Enqueue(p) => seq![p] + enqueued(steps.drop_first()),
            QueueStep::Dequeue => enqueued(steps.drop_first()),
        }
    }
}

/// First in, first out: for any interleaving of enqueues and dequeues starting from the
/// contents `q`, the dequeued payloads followed by the remaining contents are `q` followed by
/// the enqueued payloads; so the dequeued payloads are a prefix of them, in order.
pub proof fn lemma_fifo(q: Seq<Seq<u8>>, steps: Seq<QueueStep>)
    ensures
        run_steps(q, steps).1 + run_steps(q, steps).0 == q + enqueued(steps),
        run_steps(q, steps).1 == (q + enqueued(steps)).subrange(0, run_steps(q, steps).1.len() as int),
    decreases steps.len(),
{
    if steps.len() > 0 {
        let (q1, out) = after_step(q, steps[0]);
        lemma_fifo(q1, steps.drop_first());
        match steps[0] {
            QueueStep::Enqueue(p) => {
                assert(q + enqueued(steps) =~= q1 + enqueued(steps.drop_first()));
            },
            QueueStep::Dequeue => {
                if q.len() == 0 {
                    assert(q1 == q);
                } else {
                    assert(seq![q[0]] + q1 =~= q);
                    assert(seq![q[0]] + run_steps(q1, steps.drop_first()).1 + run_steps(q1, steps.drop_first()).0
                        =~= seq![q[0]] + (run_steps(q1, steps.drop_first()).1 + run_steps(q1, steps.drop_first()).0));
                    assert(q + enqueued(steps) =~= seq![q[0]] + (q1 + enqueued(steps.drop_first())));
                }
            },
        }
    }
    let r = run_steps(q, steps);
    assert(r.1 =~= (r.1 + r.0).subrange(0, r.1.len() as int));
}

/// The persisted state words `w` (first chunk, last chunk, read and write cursors, count)
/// and the chunks `cs` loaded from the first to the last chunk hold the unread records `segs`,
/// chunk by chunk: the cursors are ordered, the chunks follow each other from the first chunk
/// to the last, each holds its records from where reading resumes in it, every chunk but the
/// last ends them with a jump marker, the last ends them at the write cursor, and the count is
/// the number of records.
pub open spec fn queue_layout(w: Seq<u64>, cs: Seq<Chunk>, segs: Seq<Seq<Seq<u8>>>) -> bool {
    let first = w[0] as int;
    let last = w[1] as int;
    let read = w[2] as int;
    let write = w[3] as int;
    let n = cs.len() as int;
    &&& w.len() == 5
    &&& w[0] <= usize::MAX && w[1] <= usize::MAX && w[2] <= usize::MAX && w[3] <= usize::MAX && w[4] <= usize::MAX
    &&& first <= read <= write
    &&& first <= last <= write
    &&& segs.len() == n
    &&& w[4] as int == concat(segs).len()
    &&& write == 0 ==> n == 0
    &&& write != 0 ==> {
        &&& n > 0
        &&& last == first + lens_before(cs, n - 1)
        &&& last + cs[n - 1].bytes@.len() <= usize::MAX
        &&& records_end(head_start(n - 1, read - first), segs[n - 1]) == write - last
    }
    &&& forall|j: int| 0 <= j < n ==> #[trigger] loaded_ok(cs[j].bytes@, head_start(j, read - first), segs[j])
    &&& forall|j: int| 0 <= j < n - 1 ==> #[trigger] word_at(
        cs[j].bytes@,
        records_end(head_start(j, read - first), segs[j]),
    ) == 0
}

/// Some records fit the layout of `w` and `cs`.
pub open spec fn queue_layout_exists(w: Seq<u64>, cs: Seq<Chunk>) -> bool {
    exists|segs: Seq<Seq<Seq<u8>>>| #[trigger] queue_layout(w, cs, segs)
}

proof fn lemma_lens_mono(cs: Seq<Chunk>, a: int, b: int)
    requires
        0 <= a <= b <= cs.len(),
    ensures
        lens_before(cs, a) <= lens_before(cs, b),
    decreases b - a,
{
    if a < b {
        lemma_lens_mono(cs, a, b - 1);
    }
}

/// Writes the persisted queue state.
fn save_state(state: &mut Value, first: usize, last: usize, read: usize, write: usize, len: usize)
    requires
        old(state).wf(),
        old(state)@.len() == 5,
    ensures
        final(state).wf(),
        final(state)@ == seq![first as u64, last as u64, read as u64, write as u64, len as u64],
{
    state.set(0, first as u64);
    state.set(1, last as u64);
    state.set(2, read as u64);
    state.set(3, write as u64);
    state.set(4, len as u64);
    assert(state@ =~= seq![first as u64, last as u64, read as u64, write as u64, len as u64]);
}

/// A FIFO queue of variable-size byte items laid out in a sequence of chunks.
///
/// Positions are global byte offsets; the chunks follow each other from `first_chunk_at`
/// on, and the chunk starting at `p` is named `<ident>_<p>`. Each item is a record: a header
/// word holding the record's total size, then the payload. A header of `0` marks the end of
/// a chunk's records; reading goes on at the start of the next chunk. The cursors and the
/// item count are persisted in a [`Value`] named `<ident>_q_state`. Chunks and state reach
/// the storage through [`Queue::unload`]; a queue dropped without it leaves the persisted
/// data as it was.
pub struct Queue {
    ident: Ident,
    typical_chunk_size: usize,
    chunks: Vec<Chunk>,
    chunks_to_drop: Vec<Chunk>,
    state: Value,
    first_chunk_at: usize,
    last_chunk_at: usize,
    read_at: usize,
    write_at: usize,
    len: usize,
    segs: Ghost<Seq<Seq<Seq<u8>>>>,
}

impl View for Queue {
    type V = Seq<Seq<u8>>;

    /// The payloads still to be dequeued, oldest first.
    closed spec fn view(&self) -> Seq<Seq<u8>> {
        concat(self.segs@)
    }
}

impl Queue {
    /// Where the unread records of chunk `j` begin.
    closed spec fn seg_start(&self, j: int) -> int {
        if j == 0 {
            self.read_at - self.first_chunk_at
        } else {
            0
        }
    }

    /// Where the unread records of chunk `j` end.
    closed spec fn seg_end(&self, j: int) -> int {
        records_end(self.seg_start(j), self.segs@[j])
    }

    /// Chunk `j` holds its unread records with room for a header after them.
    closed spec fn chunk_ok(&self, j: int) -> bool {
        &&& records_at(self.chunks@[j].bytes@, self.seg_start(j), self.segs@[j])
        &&& self.seg_end(j) + HEADER_SIZE <= self.chunks@[j].bytes@.len()
        &&& self.chunks@[j].bytes@.len() <= usize::MAX
    }

    /// Chunk `j` ends its records with a jump marker.
    closed spec fn marker_ok(&self, j: int) -> bool {
        word_at(self.chunks@[j].bytes@, self.seg_end(j)) == 0
    }

    /// Free bytes after the write cursor in the last chunk.
    closed spec fn tail_room(&self) -> int {
        self.chunks@.last().bytes@.len() - (self.write_at - self.last_chunk_at)
    }

    /// The global offset where the first held chunk begins.
    pub closed spec fn spec_first_chunk_at(&self) -> int {
        self.first_chunk_at as int
    }

    /// The global offset where the last held chunk begins.
    pub closed spec fn spec_last_chunk_at(&self) -> int {
        self.last_chunk_at as int
    }

    /// The global read cursor.
    pub closed spec fn spec_read_at(&self) -> int {
        self.read_at as int
    }

    /// The global write cursor.
    pub closed spec fn spec_write_at(&self) -> int {
        self.write_at as int
    }

    /// The stored item count.
    pub closed spec fn spec_len(&self) -> int {
        self.len as int
    }

    /// The queue's name.
    pub closed spec fn spec_ident(&self) -> Seq<char> {
        self.ident@
    }

    /// The chunks read from and written to, first to last.
    pub closed spec fn spec_chunks(&self) -> Seq<Chunk> {
        self.chunks@
    }

    /// The unread records of each chunk.
    pub closed spec fn spec_segs(&self) -> Seq<Seq<Seq<u8>>> {
        self.segs@
    }

    /// Where a chunk appended after the last one begins.
    pub closed spec fn spec_next_chunk_at(&self) -> int {
        if self.chunks@.len() == 0 {
            0
        } else {
            self.last_chunk_at + self.chunks@.last().bytes@.len()
        }
    }

    /// The name of the last chunk.
    pub closed spec fn spec_last_chunk_ident(&self) -> Seq<char> {
        self.chunks@.last().ident@
    }

    /// The chunk size a new chunk gets at least.
    pub closed spec fn spec_typical_chunk_size(&self) -> int {
        self.typical_chunk_size as int
    }

    /// The length of the last chunk.
    pub closed spec fn spec_last_chunk_len(&self) -> int {
        self.chunks@.last().bytes@.len() as int
    }

    /// Whether the persisted state was created new rather than loaded.
    pub closed spec fn spec_state_is_new(&self) -> bool {
        self.state.is_new()
    }

    /// The persisted state words: first chunk, last chunk, read and write cursors, count.
    pub closed spec fn spec_persisted(&self) -> Seq<u64> {
        self.state@
    }

    /// The number of chunks currently read from or written to.
    pub closed spec fn spec_chunk_count(&self) -> int {
        self.chunks@.len() as int
    }

    /// The number of chunks read past and waiting to be forgotten.
    pub closed spec fn spec_pending_drops(&self) -> int {
        self.chunks_to_drop@.len() as int
    }

    /// The queue's well-formedness: cursors, chunk layout, records and persisted state agree.
    pub closed spec fn wf(&self) -> bool {
        let n = self.chunks@.len() as int;
        &&& self.segs@.len() == n
        &&& self.len == concat(self.segs@).len()
        &&& self.first_chunk_at <= self.read_at <= self.write_at
        &&& self.last_chunk_at <= self.write_at
        &&& self.state.wf()
        &&& self.state@ == seq![
            self.first_chunk_at as u64,
            self.last_chunk_at as u64,
            self.read_at as u64,
            self.write_at as u64,
            self.len as u64,
        ]
        &&& n == 0 ==> self.write_at == 0
        &&& n > 0 ==> {
            &&& self.last_chunk_at == self.first_chunk_at + lens_before(self.chunks@, n - 1)
            &&& self.last_chunk_at + self.chunks@[n - 1].bytes@.len() <= usize::MAX
            &&& self.seg_end(n - 1) == self.write_at - self.last_chunk_at
        }
        &&& forall|j: int| 0 <= j < n ==> #[trigger] self.chunk_ok(j)
        &&& forall|j: int| 0 <= j < n - 1 ==> #[trigger] self.marker_ok(j)
    }

    /// Appends a new chunk, of at least `min_space` bytes, after the last one, first writing a
    /// jump marker at the write cursor of the current last chunk.
    fn add_chunk<S: ChunkStorage>(&mut self, min_space: usize, storage: &S) -> (r: Result<(), StorageError>)
        requires
            old(self).wf(),
            min_space >= 2 * HEADER_SIZE,
        ensures
            r is Ok ==> final(self).wf() && final(self)@ == old(self)@ && final(self).chunks@.len() > 0
                && final(self).tail_room() >= min_space,
            r is Err ==> *final(self) == *old(self),
            final(self).chunks_to_drop == old(self).chunks_to_drop,
            final(self).first_chunk_at == old(self).first_chunk_at,
            final(self).read_at == old(self).read_at,
            final(self).typical_chunk_size == old(self).typical_chunk_size,
            r is Ok ==> final(self).chunks@.len() == old(self).chunks@.len() + 1
                && final(self).spec_last_chunk_len() >= bigger(old(self).typical_chunk_size as int, min_space as int)
                && final(self).last_chunk_at == old(self).spec_next_chunk_at() && final(self).write_at
                == final(self).last_chunk_at && final(self).spec_last_chunk_ident() == sub_name(
                old(self).ident@,
                decimal(old(self).spec_next_chunk_at() as nat),
            ),
            final(self).ident == old(self).ident,
            storage.spec_volatile() && old(self).spec_next_chunk_at() + bigger(old(self).typical_chunk_size as int, min_space as int)
                <= usize::MAX ==> r is Ok,
    {
        let ghost old_self = *self;
        let n = self.chunks.len();
        let new_size = if self.typical_chunk_size > min_space {
            self.typical_chunk_size
        } else {
            min_space
        };
        let new_at: usize = if n == 0 {
            0
        } else {
            let tail_len = self.chunks[n - 1].len();
            self.last_chunk_at + tail_len
        };
        if new_size > usize::MAX - new_at {
            return Err(StorageError::Overflow);
        }
        let chunk = match storage.create_chunk(self.ident.sub_index(new_at), new_size) {
            Ok(c) => c,
            Err(e) => {
                return Err(e);
            },
        };
        let chunk_len = chunk.len();
        if chunk_len > usize::MAX - new_at {
            let _ = storage.forget_chunk(&chunk);
            return Err(StorageError::Overflow);
        }
        if n > 0 {
            let off = self.write_at - self.last_chunk_at;
            let ghost b0 = self.chunks@[n - 1].bytes@;
            assert(self.chunk_ok(n - 1));
            write_word(&mut self.chunks[n - 1].bytes, off, 0);
            proof {
                lemma_records_frame(b0, self.chunks@[n - 1].bytes@, old_self.seg_start(n - 1), old_self.segs@[n - 1]);
            }
        }
        self.last_chunk_at = new_at;
        self.write_at = new_at;
        let ghost mid = self.chunks@;
        self.chunks.push(chunk);
        self.segs = Ghost(self.segs@.push(Seq::empty()));
        save_state(&mut self.state, self.first_chunk_at, self.last_chunk_at, self.read_at, self.write_at, self.len);
        proof {
            lemma_concat_push_empty(old_self.segs@);
            let n2 = self.chunks@.len() as int;
            if n > 0 {
                lemma_lens_push(mid, chunk, n as int);
                lemma_lens_same(old_self.chunks@, mid, n - 1);
                assert(lens_before(mid, n as int) == lens_before(mid, n - 1) + mid[n - 1].bytes@.len());
                lemma_records_end_bounds(old_self.chunks@[n - 1].bytes@, old_self.seg_start(n - 1), old_self.segs@[n - 1]);
                assert(old_self.chunk_ok(n - 1));
            }
            assert(self.seg_start(n2 - 1) == 0);
            assert(self.segs@[n2 - 1] =~= Seq::<Seq<u8>>::empty());
            assert forall|j: int| 0 <= j < n2 implies #[trigger] self.chunk_ok(j) by {
                if j < n2 - 1 {
                    assert(old_self.chunk_ok(j));
                    assert(self.segs@[j] == old_self.segs@[j]);
                }
            }
            assert forall|j: int| 0 <= j < n2 - 1 implies #[trigger] self.marker_ok(j) by {
                assert(self.segs@[j] == old_self.segs@[j]);
                if j < n2 - 2 {
                    assert(old_self.marker_ok(j));
                }
            }
            assert(self.tail_room() >= min_space);
            assert(self@ == old_self@);
            assert(self.len == concat(self.segs@).len());
            assert(n2 > 0 ==> self.seg_end(n2 - 1) == self.write_at - self.last_chunk_at);
            assert(n2 > 0 ==> self.last_chunk_at + self.chunks@[n2 - 1].bytes@.len() <= usize::MAX);
            assert(self.last_chunk_at == self.first_chunk_at + lens_before(self.chunks@, n2 - 1));
            assert(self.first_chunk_at <= self.read_at <= self.write_at);
        }
        Ok(())
    }

    /// Writes the record of `payload` at the write cursor of the last chunk.
    fn write_record(&mut self, payload: &[u8])
        requires
            old(self).wf(),
            old(self).chunks@.len() > 0,
            old(self).tail_room() >= 2 * HEADER_SIZE + payload@.len(),
            old(self).len < usize::MAX,
        ensures
            final(self).wf(),
            final(self)@ == old(self)@.push(payload@),
            final(self).chunks_to_drop == old(self).chunks_to_drop,
            final(self).first_chunk_at == old(self).first_chunk_at,
            final(self).read_at == old(self).read_at,
            final(self).chunks@.len() == old(self).chunks@.len(),
            final(self).last_chunk_at == old(self).last_chunk_at,
            final(self).write_at == old(self).write_at + HEADER_SIZE + payload@.len(),
            final(self).spec_last_chunk_ident() == old(self).spec_last_chunk_ident(),
            final(self).ident == old(self).ident,
            final(self).spec_last_chunk_len() == old(self).spec_last_chunk_len(),
            final(self).typical_chunk_size == old(self).typical_chunk_size,
    {
        let ghost old_self = *self;
        let n = self.chunks.len();
        let off = self.write_at - self.last_chunk_at;
        let size = payload.len();
        let ghost b0 = self.chunks@[n - 1].bytes@;
        write_word(&mut self.chunks[n - 1].bytes, off, (HEADER_SIZE + size) as u64);
        let ghost b1 = self.chunks@[n - 1].bytes@;
        write_bytes(&mut self.chunks[n - 1].bytes, off + HEADER_SIZE, payload);
        let ghost b2 = self.chunks@[n - 1].bytes@;
        self.write_at = self.write_at + HEADER_SIZE + size;
        self.len = self.len + 1;
        self.segs = Ghost(self.segs@.update(n - 1, self.segs@[n - 1].push(payload@)));
        save_state(&mut self.state, self.first_chunk_at, self.last_chunk_at, self.read_at, self.write_at, self.len);
        proof {
            let j = n - 1;
            let start = old_self.seg_start(j);
            assert(old_self.chunk_ok(j));
            assert(b2.len() == b0.len());
            lemma_lens_same(old_self.chunks@, self.chunks@, j as int);
            lemma_records_frame(b0, b2, start, old_self.segs@[j]);
            assert(word_at(b2, off as int) == word_at(b1, off as int)) by {
                let o = off as int;
                assert(b2[o] == b1[o] && b2[o + 1] == b1[o + 1] && b2[o + 2] == b1[o + 2] && b2[o + 3]
                    == b1[o + 3] && b2[o + 4] == b1[o + 4] && b2[o + 5] == b1[o + 5] && b2[o + 6] == b1[o
                    + 6] && b2[o + 7] == b1[o + 7]);
            }
            assert(b2.subrange(off + HEADER_SIZE, off + HEADER_SIZE + size) =~= payload@);
            lemma_records_append(b2, start, old_self.segs@[j], payload@);
            lemma_concat_push_last(old_self.segs@, payload@);
            assert forall|k: int| 0 <= k < n implies #[trigger] self.chunk_ok(k) by {
                if k != j {
                    assert(old_self.chunk_ok(k));
                }
            }
            assert forall|k: int| 0 <= k < n - 1 implies #[trigger] self.marker_ok(k) by {
                assert(old_self.marker_ok(k));
            }
        }
    }

    /// Number of items in the queue.
    pub fn len(&self) -> (r: usize)
        requires
            self.wf(),
        ensures
            r == self@.len(),
    {
        self.len
    }

    /// Whether the queue holds no item.
    pub fn is_empty(&self) -> (r: bool)
        requires
            self.wf(),
        ensures
            r == (self@.len() == 0),
    {
        self.len() == 0
    }

    /// Number of chunks the queue currently reads from or writes to.
    pub fn chunk_count(&self) -> (r: usize)
        ensures
            r == self.spec_chunk_count(),
    {
        self.chunks.len()
    }

    /// Number of chunks read past and waiting for [`Queue::drop_old_chunks`].
    pub fn pending_drop_count(&self) -> (r: usize)
        ensures
            r == self.spec_pending_drops(),
    {
        self.chunks_to_drop.len()
    }

    /// Whether a payload of `size` bytes fits after the write cursor of the last chunk,
    /// together with a header and room for a jump marker.
    pub closed spec fn spec_fits_in_tail(&self, size: int) -> bool {
        &&& self.chunks@.len() > 0
        &&& self.tail_room() >= 2 * HEADER_SIZE + size
    }

    /// Appends `payload` at the back of the queue.
    ///
    /// When the last chunk has no room for the record and a jump marker after it, a jump
    /// marker is written instead and a chunk of `max(typical_chunk_size, 16 + payload.len())`
    /// bytes is appended, named after the global offset where it begins.
    pub fn enqueue<S: ChunkStorage>(&mut self, payload: &[u8], storage: &S) -> (r: Result<(), StorageError>)
        requires
            old(self).wf(),
        ensures
            final(self).wf(),
            r is Ok ==> final(self)@ == old(self)@.push(payload@),
            r is Err ==> final(self)@ == old(self)@,
            final(self).spec_pending_drops() == old(self).spec_pending_drops(),
            old(self)@.len() == usize::MAX ==> r == Err::<(), StorageError>(StorageError::Overflow),
            old(self)@.len() < usize::MAX && old(self).spec_fits_in_tail(payload@.len() as int) ==> r is Ok,
            payload@.len() > usize::MAX - 2 * HEADER_SIZE ==> r == Err::<(), StorageError>(StorageError::Overflow),
            final(self).spec_first_chunk_at() == old(self).spec_first_chunk_at(),
            final(self).spec_read_at() == old(self).spec_read_at(),
            final(self).spec_typical_chunk_size() == old(self).spec_typical_chunk_size(),
            r is Err ==> final(self).spec_write_at() == old(self).spec_write_at() && final(self).spec_last_chunk_at()
                == old(self).spec_last_chunk_at() && final(self).spec_len() == old(self).spec_len()
                && final(self).spec_chunk_count() == old(self).spec_chunk_count(),
            r is Ok && old(self).spec_fits_in_tail(payload@.len() as int) ==> final(self).spec_chunk_count()
                == old(self).spec_chunk_count() && final(self).spec_last_chunk_at() == old(self).spec_last_chunk_at()
                && final(self).spec_write_at() == old(self).spec_write_at() + HEADER_SIZE + payload@.len(),
            r is Ok && !old(self).spec_fits_in_tail(payload@.len() as int) ==> final(self).spec_last_chunk_at()
                == old(self).spec_next_chunk_at() && final(self).spec_write_at() == final(self).spec_last_chunk_at()
                + HEADER_SIZE + payload@.len() && final(self).spec_last_chunk_ident() == sub_name(
                old(self).spec_ident(),
                decimal(old(self).spec_next_chunk_at() as nat),
            ),
            old(self)@.len() < usize::MAX && payload@.len() <= usize::MAX - 2 * HEADER_SIZE && storage.spec_volatile()
                && (old(self).spec_fits_in_tail(payload@.len() as int) || old(self).spec_next_chunk_at() + bigger(
                old(self).spec_typical_chunk_size(),
                2 * HEADER_SIZE + payload@.len(),
            ) <= usize::MAX) ==> r is Ok,
            final(self).spec_ident() == old(self).spec_ident(),
            r is Ok && !old(self).spec_fits_in_tail(payload@.len() as int) ==> final(self).spec_chunk_count()
                == old(self).spec_chunk_count() + 1 && final(self).spec_last_chunk_len() >= bigger(
                old(self).spec_typical_chunk_size(),
                2 * HEADER_SIZE + payload@.len(),
            ),
    {
        if self.len == usize::MAX || payload.len() > usize::MAX - 2 * HEADER_SIZE {
            return Err(StorageError::Overflow);
        }
        let min_space = 2 * HEADER_SIZE + payload.len();
        let n = self.chunks.len();
        let fits = if n == 0 {
            false
        } else {
            let off = self.write_at - self.last_chunk_at;
            proof {
                assert(self.chunk_ok(n - 1));
            }
            min_space <= self.chunks[n - 1].len() - off
        };
        if !fits {
            match self.add_chunk(min_space, storage) {
                Ok(()) => {},
                Err(e) => {
                    return Err(e);
                },
            }
        }
        self.write_record(payload);
        Ok(())
    }

    /// Opens the queue named `ident`, reloading the chunks from the first to the last one
    /// that its persisted state refers to, or creates it empty.
    ///
    /// The loaded state and chunks are checked by [`Queue::from_parts`].
    pub fn new<S: ChunkStorage>(ident: &Ident, typical_chunk_size: usize, storage: &S) -> (r: Result<
        Queue,
        StorageError,
    >)
        ensures
            r matches Ok(q) ==> q.wf() && q.spec_pending_drops() == 0 && q.spec_typical_chunk_size()
                == typical_chunk_size && q.spec_ident() == ident@,
            r matches Ok(q) ==> queue_layout(q.spec_persisted(), q.spec_chunks(), q.spec_segs()) && q@ == concat(
                q.spec_segs(),
            ),
            r matches Ok(q) ==> forall|j: int| 0 <= j < q.spec_chunk_count() ==> #[trigger] q.spec_chunks()[j].ident@
                == sub_name(ident@, decimal((q.spec_first_chunk_at() + lens_before(q.spec_chunks(), j)) as nat)),
            r matches Ok(q) ==> (q.spec_state_is_new() ==> q@.len() == 0 && q.spec_chunk_count() == 0
                && q.spec_first_chunk_at() == 0 && q.spec_last_chunk_at() == 0 && q.spec_read_at() == 0
                && q.spec_write_at() == 0),
            storage.spec_volatile() ==> (r matches Ok(q) && q@.len() == 0 && q.spec_chunk_count() == 0
                && q.spec_first_chunk_at() == 0 && q.spec_last_chunk_at() == 0 && q.spec_read_at() == 0
                && q.spec_write_at() == 0),
    {
        let state = match Value::load_or_default(ident.sub("q_state"), &[0u64, 0u64, 0u64, 0u64, 0u64], storage) {
            Ok(v) => v,
            Err(e) => {
                return Err(e);
            },
        };
        let w0 = state.get(0);
        let w1 = state.get(1);
        let w2 = state.get(2);
        let w3 = state.get(3);
        let mut chunks: Vec<Chunk> = Vec::new();
        if w3 != 0 && w0 <= w1 && w1 <= w3 && w0 <= w2 && w2 <= w3 && w3 <= usize::MAX as u64 {
            let first = w0 as usize;
            let last = w1 as usize;
            let mut offset: usize = first;
            loop
                invariant_except_break
                    first <= offset <= last,
                    offset == first + lens_before(chunks@, chunks@.len() as int),
                invariant
                    first <= last,
                    !storage.spec_volatile(),
                    forall|j: int| 0 <= j < chunks@.len() ==> #[trigger] chunks@[j].ident@ == sub_name(
                        ident@,
                        decimal((first + lens_before(chunks@, j)) as nat),
                    ),
                decreases last - offset,
            {
                let chunk = match storage.load_chunk(ident.sub_index(offset)) {
                    Ok(c) => c,
                    Err(e) => {
                        return Err(e);
                    },
                };
                let chunk_len = chunk.len();
                let ghost before = chunks@;
                chunks.push(chunk);
                proof {
                    assert forall|j: int| 0 <= j < chunks@.len() implies #[trigger] chunks@[j].ident@ == sub_name(
                        ident@,
                        decimal((first + lens_before(chunks@, j)) as nat),
                    ) by {
                        lemma_lens_push(before, chunk, j);
                    }
                    lemma_lens_push(before, chunk, before.len() as int);
                }
                if offset == last {
                    break;
                }
                if chunk_len == 0 || chunk_len > last - offset {
                    return Err(StorageError::Corrupt);
                }
                offset = offset + chunk_len;
                assert(lens_before(chunks@, chunks@.len() as int) == lens_before(chunks@, before.len() as int)
                    + chunk_len);
            }
        }
        let ghost cs = chunks@;
        let ghost is_new = state.is_new();
        let ghost sw = state@;
        proof {
            if is_new {
                assert(cs.len() == 0);
                let empty = Seq::<Seq<Seq<u8>>>::empty();
                assert(concat(empty) =~= Seq::<Seq<u8>>::empty());
                assert(queue_layout(sw, cs, empty));
            }
        }
        let r = Queue::from_parts(ident, typical_chunk_size, state, chunks);
        proof {
            if is_new {
                assert(cs.len() == 0);
            }
            if r is Ok {
                let q = r->Ok_0;
                assert(q.spec_chunks() == cs);
                q.lemma_cursors();
            }
        }
        r
    }

    /// Builds the queue held by the loaded persisted `state` and the `chunks` loaded from the
    /// first chunk to the last: the cursors and count are the state's words, and the contents
    /// are the records from the read cursor to the write cursor. State and chunks that hold no
    /// such records are reported as corrupt.
    pub fn from_parts(ident: &Ident, typical_chunk_size: usize, state: Value, chunks: Vec<Chunk>) -> (r: Result<
        Queue,
        StorageError,
    >)
        requires
            state.wf(),
            state@.len() == 5,
        ensures
            r is Err <==> !queue_layout_exists(state@, chunks@),
            r is Err ==> r == Err::<Queue, StorageError>(StorageError::Corrupt),
            r matches Ok(q) ==> q.wf() && q.spec_persisted() == state@ && q.spec_chunks() == chunks@
                && q.spec_pending_drops() == 0 && q.spec_typical_chunk_size() == typical_chunk_size
                && q.spec_ident() == ident@ && q.spec_state_is_new() == state.is_new(),
            r matches Ok(q) ==> queue_layout(state@, chunks@, q.spec_segs()) && q@ == concat(q.spec_segs()),
    {
        let ghost w = state@;
        let ghost owed = queue_layout_exists(w, chunks@);
        let ghost wit: Seq<Seq<Seq<u8>>> = choose|segs: Seq<Seq<Seq<u8>>>| queue_layout(w, chunks@, segs);
        let w0 = state.get(0);
        let w1 = state.get(1);
        let w2 = state.get(2);
        let w3 = state.get(3);
        let w4 = state.get(4);
        let max = usize::MAX as u64;
        if w0 > max || w1 > max || w2 > max || w3 > max || w4 > max {
            return Err(StorageError::Corrupt);
        }
        let first = w0 as usize;
        let last = w1 as usize;
        let read = w2 as usize;
        let write = w3 as usize;
        let len = w4 as usize;
        if !(first <= read && read <= write && first <= last && last <= write) {
            return Err(StorageError::Corrupt);
        }
        if write == 0 {
            if len != 0 || chunks.len() != 0 {
                proof {
                    if owed {
                        assert(wit =~= Seq::<Seq<Seq<u8>>>::empty());
                        assert(concat(wit) =~= Seq::<Seq<u8>>::empty());
                    }
                }
                return Err(StorageError::Corrupt);
            }
            let q = Queue {
                ident: Ident(ident.0.clone()),
                typical_chunk_size,
                chunks,
                chunks_to_drop: Vec::new(),
                state,
                first_chunk_at: first,
                last_chunk_at: last,
                read_at: read,
                write_at: write,
                len,
                segs: Ghost(Seq::empty()),
            };
            assert(concat(q.segs@) =~= Seq::<Seq<u8>>::empty());
            assert(q.state@ =~= seq![first as u64, last as u64, read as u64, write as u64, len as u64]);
            assert(queue_layout(w, q.chunks@, q.segs@));
            return Ok(q);
        }
        let n = chunks.len();
        if n == 0 {
            return Err(StorageError::Corrupt);
        }
        let s0 = read - first;
        let mut offset: usize = first;
        let mut total: usize = 0;
        let ghost mut got: Seq<Seq<Seq<u8>>> = Seq::empty();
        let mut j: usize = 0;
        while j < n
            invariant
                n == chunks@.len(),
                n > 0,
                j <= n,
                s0 == read - first,
                first <= last <= write,
                first <= read <= write,
                write != 0,
                w == state@,
                w[0] == first && w[1] == last && w[2] == read && w[3] == write && w[4] == len,
                owed ==> queue_layout(w, chunks@, wit),
                owed == queue_layout_exists(w, chunks@),
                got.len() == j,
                total == concat(got).len(),
                j < n ==> offset == first + lens_before(chunks@, j as int),
                offset <= last,
                j == n ==> last == first + lens_before(chunks@, n - 1) && last + chunks@[n - 1].bytes@.len()
                    <= usize::MAX && records_end(head_start(n - 1, s0 as int), got[n - 1]) == write - last,
                forall|i: int| 0 <= i < j ==> #[trigger] loaded_ok(chunks@[i].bytes@, head_start(i, s0 as int), got[i]),
                forall|i: int| 0 <= i < j && i < n - 1 ==> #[trigger] word_at(
                    chunks@[i].bytes@,
                    records_end(head_start(i, s0 as int), got[i]),
                ) == 0,
                owed ==> got == wit.subrange(0, j as int),
            decreases n - j,
        {
            let is_tail = j == n - 1;
            let ghost wj = wit[j as int];
            if is_tail {
                if offset != last {
                    return Err(StorageError::Corrupt);
                }
                if chunks[j].len() > usize::MAX - last {
                    return Err(StorageError::Corrupt);
                }
            }
            let start = if j == 0 {
                s0
            } else {
                0
            };
            let tail_end = if is_tail {
                Some(write - last)
            } else {
                None
            };
            proof {
                if owed {
                    assert(loaded_ok(chunks@[j as int].bytes@, head_start(j as int, s0 as int), wj));
                    assert(head_start(j as int, s0 as int) == start);
                    if !is_tail {
                        assert(word_at(chunks@[j as int].bytes@, records_end(head_start(j as int, s0 as int), wj)) == 0);
                    }
                    assert(scan_target(chunks@[j as int].bytes@, start as int, tail_end, wj));
                }
            }
            let count = match scan_records(chunks[j].bytes.as_slice(), start, tail_end) {
                Some((count, items)) => {
                    proof {
                        let b = chunks@[j as int].bytes@;
                        if owed {
                            if is_tail {
                                lemma_records_determined(b, start as int, items@, wj);
                            } else {
                                lemma_marker_determined(b, start as int, items@, wj);
                            }
                            assert(wit.subrange(0, j + 1) =~= wit.subrange(0, j as int).push(wj));
                            lemma_concat_push(got, items@);
                            lemma_concat_append(wit.subrange(0, j + 1), wit.subrange(j + 1, n as int));
                            assert(wit =~= wit.subrange(0, j + 1) + wit.subrange(j + 1, n as int));
                        }
                        lemma_concat_push(got, items@);
                        assert(head_start(j as int, s0 as int) == start);
                        got = got.push(items@);
                    }
                    count
                },
                None => {
                    return Err(StorageError::Corrupt);
                },
            };
            if count > usize::MAX - total {
                return Err(StorageError::Corrupt);
            }
            total = total + count;
            if !is_tail {
                let chunk_len = chunks[j].len();
                proof {
                    if owed {
                        lemma_lens_mono(chunks@, j + 1, n - 1);
                    }
                }
                if chunk_len > last - offset {
                    return Err(StorageError::Corrupt);
                }
                offset = offset + chunk_len;
            }
            j = j + 1;
        }
        if total != len {
            proof {
                if owed {
                    assert(got =~= wit);
                }
            }
            return Err(StorageError::Corrupt);
        }
        let q = Queue {
            ident: Ident(ident.0.clone()),
            typical_chunk_size,
            chunks,
            chunks_to_drop: Vec::new(),
            state,
            first_chunk_at: first,
            last_chunk_at: last,
            read_at: read,
            write_at: write,
            len,
            segs: Ghost(got),
        };
        proof {
            assert(q.state@ =~= seq![first as u64, last as u64, read as u64, write as u64, len as u64]);
            assert forall|i: int| 0 <= i < n implies #[trigger] q.chunk_ok(i) by {
                assert(loaded_ok(q.chunks@[i].bytes@, head_start(i, s0 as int), got[i]));
                assert(q.seg_start(i) == head_start(i, s0 as int));
            }
            assert forall|i: int| 0 <= i < n - 1 implies #[trigger] q.marker_ok(i) by {
                assert(q.seg_start(i) == head_start(i, s0 as int));
                assert(word_at(q.chunks@[i].bytes@, records_end(head_start(i, s0 as int), got[i])) == 0);
            }
            assert(q.seg_start(n - 1) == head_start(n - 1, s0 as int));
            assert(queue_layout(w, q.chunks@, got));
        }
        Ok(q)
    }

    /// In a well-formed queue `first_chunk_at <= read_at <= write_at <= ...`, the write cursor
    /// lies in the last chunk, and the stored count is the number of records walked from the
    /// read cursor to the write cursor.
    pub proof fn lemma_cursors(&self)
        requires
            self.wf(),
        ensures
            self.spec_first_chunk_at() <= self.spec_read_at() <= self.spec_write_at(),
            self.spec_last_chunk_at() <= self.spec_write_at(),
            self.spec_len() == self@.len(),
            self.spec_read_at() == self.spec_write_at() ==> self@.len() == 0,
            self.spec_chunk_count() > 0 ==> self.spec_write_at() + HEADER_SIZE <= self.spec_last_chunk_at()
                + self.spec_last_chunk_len(),
            self.spec_persisted() == seq![
                self.spec_first_chunk_at() as u64,
                self.spec_last_chunk_at() as u64,
                self.spec_read_at() as u64,
                self.spec_write_at() as u64,
                self.spec_len() as u64,
            ],
    {
        self.lemma_head();
        if self.chunks@.len() > 0 {
            assert(self.chunk_ok(self.chunks@.len() - 1));
        }
    }

    proof fn lemma_head(&self)
        requires
            self.wf(),
        ensures
            self.read_at == self.write_at ==> self@.len() == 0,
            self.read_at != self.write_at ==> self.chunks@.len() > 0,
            self.chunks@.len() > 0 ==> self.seg_start(0) + HEADER_SIZE <= self.chunks@[0].bytes@.len(),
            self.chunks@.len() > 0 && self.read_at != self.write_at ==> (
                self.segs@[0].len() == 0 <==> word_at(self.chunks@[0].bytes@, self.seg_start(0)) == 0),
            self.chunks@.len() > 0 && self.read_at != self.write_at && self.segs@[0].len() == 0 ==>
                self.chunks@.len() > 1,
    {
        let n = self.chunks@.len() as int;
        if n > 0 {
            assert(self.chunk_ok(0));
            let b = self.chunks@[0].bytes@;
            let start = self.seg_start(0);
            let items = self.segs@[0];
            lemma_records_end_bounds(b, start, items);
            if n > 1 {
                lemma_lens_drop_first(self.chunks@, n - 1);
                assert(self.read_at < self.write_at);
                assert(self.marker_ok(0));
            } else {
                assert(self.first_chunk_at == self.last_chunk_at);
                if self.read_at == self.write_at {
                    assert(items.len() == 0);
                    assert(self.segs@ =~= seq![items]);
                    assert(self.segs@.drop_first() =~= Seq::<Seq<Seq<u8>>>::empty());
                    assert(concat(self.segs@.drop_first()) =~= Seq::<Seq<u8>>::empty());
                    assert(concat(self.segs@) == items + concat(self.segs@.drop_first()));
                    assert(concat(self.segs@) =~= Seq::<Seq<u8>>::empty());
                }
            }
            if items.len() > 0 {
                assert(word_at(b, start) == (HEADER_SIZE + items[0].len()) as u64);
                assert(HEADER_SIZE + items[0].len() <= b.len());
            }
        } else {
            assert(self.segs@ =~= Seq::<Seq<Seq<u8>>>::empty());
        }
    }

    /// Moves the head chunk, whose records are all read, to the chunks to forget.
    fn rotate_head(&mut self)
        requires
            old(self).wf(),
            old(self).chunks@.len() > 1,
            old(self).segs@[0].len() == 0,
        ensures
            final(self).wf(),
            final(self)@ == old(self)@,
            final(self).chunks@.len() == old(self).chunks@.len() - 1,
            final(self).chunks_to_drop@.len() == old(self).chunks_to_drop@.len() + 1,
            final(self).chunks@ == old(self).chunks@.drop_first(),
            final(self).write_at == old(self).write_at,
            final(self).last_chunk_at == old(self).last_chunk_at,
            final(self).read_at >= old(self).read_at,
            final(self).first_chunk_at >= old(self).first_chunk_at,
            final(self).typical_chunk_size == old(self).typical_chunk_size,
    {
        let ghost cur = *self;
        let ghost n = self.chunks@.len() as int;
        proof {
            lemma_lens_drop_first(self.chunks@, n - 1);
            assert(self.chunk_ok(0));
            assert(concat(self.segs@) == self.segs@[0] + concat(self.segs@.drop_first()));
            assert(self.segs@[0] =~= Seq::<Seq<u8>>::empty());
            assert(concat(self.segs@.drop_first()) =~= concat(self.segs@));
        }
        let head_len = self.chunks[0].len();
        let head = self.chunks.remove(0);
        self.first_chunk_at = self.first_chunk_at + head_len;
        self.read_at = self.first_chunk_at;
        self.chunks_to_drop.push(head);
        self.segs = Ghost(self.segs@.drop_first());
        save_state(&mut self.state, self.first_chunk_at, self.last_chunk_at, self.read_at, self.write_at, self.len);
        proof {
            let n2 = n - 1;
            assert(self.chunks@ =~= cur.chunks@.drop_first());
            assert forall|j: int| 0 <= j < n2 implies #[trigger] self.chunk_ok(j) by {
                assert(cur.chunk_ok(j + 1));
                assert(self.chunks@[j] == cur.chunks@[j + 1]);
                assert(self.segs@[j] == cur.segs@[j + 1]);
                assert(self.seg_start(j) == cur.seg_start(j + 1));
            }
            assert forall|j: int| 0 <= j < n2 - 1 implies #[trigger] self.marker_ok(j) by {
                assert(cur.marker_ok(j + 1));
                assert(self.chunks@[j] == cur.chunks@[j + 1]);
                assert(self.segs@[j] == cur.segs@[j + 1]);
                assert(self.seg_start(j) == cur.seg_start(j + 1));
            }
            assert(self.seg_end(n2 - 1) == cur.seg_end(n - 1));
            assert(self.first_chunk_at <= self.read_at <= self.write_at);
        }
    }

    /// Reads the head record, whose chunk still has unread records, and moves past it.
    fn pop_record(&mut self) -> (r: Vec<u8>)
        requires
            old(self).wf(),
            old(self).chunks@.len() > 0,
            old(self).segs@[0].len() > 0,
        ensures
            final(self).wf(),
            old(self)@.len() > 0,
            r@ == old(self)@[0],
            final(self)@ == old(self)@.drop_first(),
            final(self).chunks_to_drop == old(self).chunks_to_drop,
            final(self).chunks == old(self).chunks,
            final(self).write_at == old(self).write_at,
            final(self).last_chunk_at == old(self).last_chunk_at,
            final(self).read_at >= old(self).read_at,
            final(self).first_chunk_at >= old(self).first_chunk_at,
            final(self).typical_chunk_size == old(self).typical_chunk_size,
    {
        let ghost cur = *self;
        let ghost n = self.chunks@.len() as int;
        let ghost p = self.segs@[0][0];
        let ghost start = self.seg_start(0);
        proof {
            assert(self.chunk_ok(0));
            lemma_records_end_bounds(self.chunks@[0].bytes@, start, self.segs@[0]);
            lemma_records_end_bounds(self.chunks@[0].bytes@, start + HEADER_SIZE + p.len(), self.segs@[0].drop_first());
            lemma_concat_pop_front(self.segs@);
            if n > 1 {
                lemma_lens_drop_first(self.chunks@, n - 1);
            }
        }
        let off = self.read_at - self.first_chunk_at;
        let h = read_word(self.chunks[0].bytes.as_slice(), off);
        let total = h as usize;
        assert(total == HEADER_SIZE + p.len());
        let payload = copy_bytes(&self.chunks[0].bytes.as_slice()[off + HEADER_SIZE..off + total]);
        self.read_at = self.read_at + total;
        self.len = self.len - 1;
        self.segs = Ghost(self.segs@.update(0, self.segs@[0].drop_first()));
        save_state(&mut self.state, self.first_chunk_at, self.last_chunk_at, self.read_at, self.write_at, self.len);
        proof {
            assert(self.seg_start(0) == start + HEADER_SIZE + p.len());
            assert(self.seg_end(0) == cur.seg_end(0));
            assert forall|j: int| 0 <= j < n implies #[trigger] self.chunk_ok(j) by {
                assert(cur.chunk_ok(j));
            }
            assert forall|j: int| 0 <= j < n - 1 implies #[trigger] self.marker_ok(j) by {
                assert(cur.marker_ok(j));
            }
            assert(self.read_at <= self.write_at);
        }
        payload
    }

    /// Removes the oldest item and returns a copy of its payload, or `None` when the queue is
    /// empty. Chunks read past on the way move to the list of chunks to forget.
    pub fn dequeue(&mut self) -> (r: Option<Vec<u8>>)
        requires
            old(self).wf(),
        ensures
            final(self).wf(),
            old(self)@.len() == 0 ==> r is None && final(self)@ == old(self)@,
            old(self)@.len() > 0 ==> (r matches Some(p) && p@ == old(self)@[0] && final(self)@
                == old(self)@.drop_first()),
            final(self).spec_pending_drops() >= old(self).spec_pending_drops(),
            final(self).spec_write_at() == old(self).spec_write_at(),
            final(self).spec_last_chunk_at() == old(self).spec_last_chunk_at(),
            final(self).spec_read_at() >= old(self).spec_read_at(),
            final(self).spec_first_chunk_at() >= old(self).spec_first_chunk_at(),
            final(self).spec_typical_chunk_size() == old(self).spec_typical_chunk_size(),
            final(self).spec_chunk_count() + final(self).spec_pending_drops() == old(self).spec_chunk_count()
                + old(self).spec_pending_drops(),
            final(self).spec_chunks() == old(self).spec_chunks().subrange(
                old(self).spec_chunk_count() - final(self).spec_chunk_count(),
                old(self).spec_chunk_count(),
            ),
    {
        let ghost old_view = self@;
        let ghost old_drops = self.chunks_to_drop@.len();
        loop
            invariant
                self.wf(),
                self@ == old_view,
                old_view == old(self)@,
                self.chunks_to_drop@.len() >= old_drops,
                old_drops == old(self).chunks_to_drop@.len(),
                self.write_at == old(self).write_at,
                self.last_chunk_at == old(self).last_chunk_at,
                self.read_at >= old(self).read_at,
                self.first_chunk_at >= old(self).first_chunk_at,
                self.typical_chunk_size == old(self).typical_chunk_size,
                self.chunks@.len() + self.chunks_to_drop@.len() == old(self).chunks@.len() + old(self).chunks_to_drop@.len(),
                self.chunks@.len() <= old(self).chunks@.len(),
                self.chunks@ == old(self).chunks@.subrange(old(self).chunks@.len() - self.chunks@.len(), old(self).chunks@.len() as int),
            decreases self.chunks@.len(),
        {
            proof {
                self.lemma_head();
            }
            if self.read_at == self.write_at {
                return None;
            }
            let off = self.read_at - self.first_chunk_at;
            let h = read_word(self.chunks[0].bytes.as_slice(), off);
            if h == 0 {
                self.rotate_head();
                assert(self.chunks@ =~= old(self).chunks@.subrange(
                    old(self).chunks@.len() - self.chunks@.len(),
                    old(self).chunks@.len() as int,
                ));
            } else {
                let payload = self.pop_record();
                return Some(payload);
            }
        }
    }

    /// Hands every chunk of the queue, including those waiting to be forgotten, and its
    /// persisted state to `storage` to be persisted.
    pub fn unload<S: ChunkStorage>(&self, storage: &S) -> (r: Result<(), StorageError>)
        ensures
            storage.spec_volatile() ==> r is Ok,
    {
        let mut k: usize = 0;
        while k < self.chunks.len()
            invariant
                k <= self.chunks@.len(),
            decreases self.chunks@.len() - k,
        {
            match storage.unload_chunk(&self.chunks[k]) {
                Ok(()) => {},
                Err(e) => {
                    return Err(e);
                },
            }
            k = k + 1;
        }
        let mut k: usize = 0;
        while k < self.chunks_to_drop.len()
            invariant
                k <= self.chunks_to_drop@.len(),
            decreases self.chunks_to_drop@.len() - k,
        {
            match storage.unload_chunk(&self.chunks_to_drop[k]) {
                Ok(()) => {},
                Err(e) => {
                    return Err(e);
                },
            }
            k = k + 1;
        }
        self.state.unload(storage)
    }

    /// Forgets every chunk that reading has moved past, oldest first, deleting its persisted
    /// representation. On an error the chunks not yet forgotten stay listed.
    pub fn drop_old_chunks<S: ChunkStorage>(&mut self, storage: &S) -> (r: Result<(), StorageError>)
        requires
            old(self).wf(),
        ensures
            final(self).wf(),
            final(self)@ == old(self)@,
            r is Ok ==> final(self).spec_pending_drops() == 0,
            old(self).spec_pending_drops() == 0 ==> r is Ok,
            final(self).spec_pending_drops() <= old(self).spec_pending_drops(),
            final(self).spec_first_chunk_at() == old(self).spec_first_chunk_at(),
            final(self).spec_last_chunk_at() == old(self).spec_last_chunk_at(),
            final(self).spec_read_at() == old(self).spec_read_at(),
            final(self).spec_write_at() == old(self).spec_write_at(),
            final(self).spec_len() == old(self).spec_len(),
            final(self).spec_chunk_count() == old(self).spec_chunk_count(),
    {
        while self.chunks_to_drop.len() > 0
            invariant
                self.wf(),
                self@ == old(self)@,
                self.chunks_to_drop@.len() <= old(self).chunks_to_drop@.len(),
                self.chunks == old(self).chunks,
                self.first_chunk_at == old(self).first_chunk_at,
                self.last_chunk_at == old(self).last_chunk_at,
                self.read_at == old(self).read_at,
                self.write_at == old(self).write_at,
                self.len == old(self).len,
            decreases self.chunks_to_drop@.len(),
        {
            let ghost cur = *self;
            match storage.forget_chunk(&self.chunks_to_drop[0]) {
                Ok(()) => {},
                Err(e) => {
                    return Err(e);
                },
            }
            self.chunks_to_drop.remove(0);
            proof {
                assert forall|j: int| 0 <= j < self.chunks@.len() implies #[trigger] self.chunk_ok(j) by {
                    assert(cur.chunk_ok(j));
                }
                assert forall|j: int| 0 <= j < self.chunks@.len() - 1 implies #[trigger] self.marker_ok(j) by {
                    assert(cur.marker_ok(j));
                }
            }
        }
        Ok(())
    }
}

} // verus!
