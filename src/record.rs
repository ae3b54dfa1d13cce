use vstd::prelude::*;
use crate::word::{read_word, word_at};

verus! {

/// Size of a record header: one word, `0` for a jump to the next chunk, otherwise the
/// record's total size (header plus payload).
pub const HEADER_SIZE: usize = 8;

/// `b` holds, from `off` on, one record per payload of `items`, back to back: a header word
/// holding `HEADER_SIZE + p.len()`, then the bytes of `p`.
pub open spec fn records_at(b: Seq<u8>, off: int, items: Seq<Seq<u8>>) -> bool
    decreases items.len(),
{
    if items.len() == 0 {
        0 <= off
    } else {
        let p = items[0];
        &&& 0 <= off
        &&& off + HEADER_SIZE + p.len() <= b.len()
        &&& word_at(b, off) == (HEADER_SIZE + p.len()) as u64
        &&& b.subrange(off + HEADER_SIZE, off + HEADER_SIZE + p.len()) == p
        &&& records_at(b, off + HEADER_SIZE + p.len(), items.drop_first())
    }
}

/// Where the records of `items` laid out from `off` end.
pub open spec fn records_end(off: int, items: Seq<Seq<u8>>) -> int
    decreases items.len(),
{
    if items.len() == 0 {
        off
    } else {
        records_end(off + HEADER_SIZE + items[0].len(), items.drop_first())
    }
}

/// All payloads of `segs`, in order.
pub open spec fn concat(segs: Seq<Seq<Seq<u8>>>) -> Seq<Seq<u8>>
    decreases segs.len(),
{
    if segs.len() == 0 {
        Seq::empty()
    } else {
        segs[0] + concat(segs.drop_first())
    }
}

pub proof fn lemma_records_end_bounds(b: Seq<u8>, off: int, items: Seq<Seq<u8>>)
    requires
        records_at(b, off, items),
    ensures
        records_end(off, items) >= off + HEADER_SIZE * items.len(),
        items.len() > 0 ==> records_end(off, items) <= b.len(),
    decreases items.len(),
{
    if items.len() > 0 {
        lemma_records_end_bounds(b, off + HEADER_SIZE + items[0].len(), items.drop_first());
    }
}

/// Records are unaffected by bytes outside `[off, records_end(off, items))`.
pub proof fn lemma_records_frame(b1: Seq<u8>, b2: Seq<u8>, off: int, items: Seq<Seq<u8>>)
    requires
        records_at(b1, off, items),
        b1.len() == b2.len(),
        forall|i: int| off <= i < records_end(off, items) ==> #[trigger] b2[i] == b1[i],
    ensures
        records_at(b2, off, items),
    decreases items.len(),
{
    if items.len() > 0 {
        let p = items[0];
        let next = off + HEADER_SIZE + p.len();
        lemma_records_end_bounds(b1, next, items.drop_first());
        assert(b2.subrange(off + HEADER_SIZE, next) =~= b1.subrange(off + HEADER_SIZE, next));
        assert(word_at(b2, off) == word_at(b1, off)) by {
            assert(b2[off] == b1[off] && b2[off + 1] == b1[off + 1] && b2[off + 2] == b1[off + 2]
                && b2[off + 3] == b1[off + 3] && b2[off + 4] == b1[off + 4] && b2[off + 5] == b1[off
                + 5] && b2[off + 6] == b1[off + 6] && b2[off + 7] == b1[off + 7]);
        }
        lemma_records_frame(b1, b2, next, items.drop_first());
    }
}

/// A record written at the end of the records of `items` extends them by one.
pub proof fn lemma_records_append(b: Seq<u8>, off: int, items: Seq<Seq<u8>>, p: Seq<u8>)
    requires
        records_at(b, off, items),
        records_end(off, items) + HEADER_SIZE + p.len() <= b.len(),
        word_at(b, records_end(off, items)) == (HEADER_SIZE + p.len()) as u64,
        b.subrange(records_end(off, items) + HEADER_SIZE, records_end(off, items) + HEADER_SIZE
            + p.len()) == p,
    ensures
        records_at(b, off, items.push(p)),
        records_end(off, items.push(p)) == records_end(off, items) + HEADER_SIZE + p.len(),
    decreases items.len(),
{
    if items.len() == 0 {
        let one = items.push(p);
        assert(one.drop_first() =~= Seq::<Seq<u8>>::empty());
        assert(one[0] == p);
        assert(records_at(b, off + HEADER_SIZE + p.len(), one.drop_first()));
        assert(records_end(off + HEADER_SIZE + p.len(), one.drop_first()) == off + HEADER_SIZE + p.len());
    } else {
        let next = off + HEADER_SIZE + items[0].len();
        lemma_records_append(b, next, items.drop_first(), p);
        assert(items.push(p).drop_first() =~= items.drop_first().push(p));
        assert(items.push(p)[0] == items[0]);
    }
}

/// The records laid out from `off` up to a given end are determined by the bytes: reading
/// the same bytes again, between the same positions, gives the same payloads.
pub proof fn lemma_records_determined(b: Seq<u8>, off: int, items1: Seq<Seq<u8>>, items2: Seq<Seq<u8>>)
    requires
        b.len() <= usize::MAX,
        records_at(b, off, items1),
        records_at(b, off, items2),
        records_end(off, items1) == records_end(off, items2),
    ensures
        items1 == items2,
    decreases items1.len(),
{
    lemma_records_end_bounds(b, off, items1);
    lemma_records_end_bounds(b, off, items2);
    if items1.len() == 0 || items2.len() == 0 {
        assert(items1 =~= items2);
    } else {
        let p1 = items1[0];
        let p2 = items2[0];
        assert(p1.len() == p2.len());
        assert(p1 =~= p2);
        lemma_records_determined(b, off + HEADER_SIZE + p1.len(), items1.drop_first(), items2.drop_first());
        assert(items1 =~= seq![p1] + items1.drop_first());
        assert(items2 =~= seq![p2] + items2.drop_first());
    }
}

/// Records laid out from `off` and ended by a jump marker are determined by the bytes.
pub proof fn lemma_marker_determined(b: Seq<u8>, off: int, items1: Seq<Seq<u8>>, items2: Seq<Seq<u8>>)
    requires
        b.len() <= usize::MAX,
        records_at(b, off, items1),
        records_at(b, off, items2),
        word_at(b, records_end(off, items1)) == 0,
        word_at(b, records_end(off, items2)) == 0,
    ensures
        items1 == items2,
    decreases items1.len(),
{
    lemma_records_end_bounds(b, off, items1);
    lemma_records_end_bounds(b, off, items2);
    if items1.len() == 0 || items2.len() == 0 {
        assert(items1 =~= items2);
    } else {
        let p1 = items1[0];
        let p2 = items2[0];
        assert(p1.len() == p2.len());
        assert(p1 =~= p2);
        lemma_marker_determined(b, off + HEADER_SIZE + p1.len(), items1.drop_first(), items2.drop_first());
        assert(items1 =~= seq![p1] + items1.drop_first());
        assert(items2 =~= seq![p2] + items2.drop_first());
    }
}

pub proof fn lemma_concat_append(a: Seq<Seq<Seq<u8>>>, b: Seq<Seq<Seq<u8>>>)
    ensures
        concat(a + b) == concat(a) + concat(b),
    decreases a.len(),
{
    if a.len() == 0 {
        assert(a + b =~= b);
        assert(concat(a) =~= Seq::<Seq<u8>>::empty());
        assert(concat(a) + concat(b) =~= concat(b));
    } else {
        lemma_concat_append(a.drop_first(), b);
        assert((a + b).drop_first() =~= a.drop_first() + b);
        assert(concat(a + b) =~= concat(a) + concat(b));
    }
}

pub proof fn lemma_concat_push_last(segs: Seq<Seq<Seq<u8>>>, p: Seq<u8>)
    requires
        segs.len() > 0,
    ensures
        concat(segs.update(segs.len() - 1, segs.last().push(p))) == concat(segs).push(p),
    decreases segs.len(),
{
    let s2 = segs.update(segs.len() - 1, segs.last().push(p));
    if segs.len() == 1 {
        assert(s2.drop_first() =~= Seq::<Seq<Seq<u8>>>::empty());
        assert(segs.drop_first() =~= Seq::<Seq<Seq<u8>>>::empty());
        assert(concat(s2.drop_first()) =~= Seq::<Seq<u8>>::empty());
        assert(concat(segs.drop_first()) =~= Seq::<Seq<u8>>::empty());
        assert(concat(s2) =~= concat(segs).push(p));
    } else {
        let rest = segs.drop_first();
        lemma_concat_push_last(rest, p);
        assert(s2.drop_first() =~= rest.update(rest.len() - 1, rest.last().push(p)));
        assert(concat(s2) =~= concat(segs).push(p));
    }
}

pub proof fn lemma_concat_push(segs: Seq<Seq<Seq<u8>>>, s: Seq<Seq<u8>>)
    ensures
        concat(segs.push(s)) == concat(segs) + s,
    decreases segs.len(),
{
    let s2 = segs.push(s);
    if segs.len() == 0 {
        assert(s2.drop_first() =~= Seq::<Seq<Seq<u8>>>::empty());
        assert(concat(s2.drop_first()) =~= Seq::<Seq<u8>>::empty());
        assert(concat(s2) =~= concat(segs) + s);
    } else {
        lemma_concat_push(segs.drop_first(), s);
        assert(s2.drop_first() =~= segs.drop_first().push(s));
        assert(concat(s2) =~= concat(segs) + s);
    }
}

/// `items` are records laid out in `b` from `start`, with room for a header after them,
/// ending at `tail_end` when it is given and at a jump marker otherwise.
pub open spec fn scan_target(b: Seq<u8>, start: int, tail_end: Option<usize>, items: Seq<Seq<u8>>) -> bool {
    &&& records_at(b, start, items)
    &&& records_end(start, items) + HEADER_SIZE <= b.len()
    &&& (tail_end matches Some(e) ==> records_end(start, items) == e)
    &&& (tail_end is None ==> word_at(b, records_end(start, items)) == 0)
}

/// Reads the records of `b` from `start`: up to `tail_end` when it is given, otherwise up to
/// a jump marker. Returns how many there are, or `None` when `b` does not hold well-formed
/// records there (with room for a header after the last).
pub fn scan_records(b: &[u8], start: usize, tail_end: Option<usize>) -> (r: Option<(usize, Ghost<Seq<Seq<u8>>>)>)
    ensures
        (exists|items: Seq<Seq<u8>>| #[trigger] scan_target(b@, start as int, tail_end, items)) ==> r is Some,
        r matches Some((count, items)) ==> (records_at(b@, start as int, items@) && count == items@.len()
            && records_end(start as int, items@) + HEADER_SIZE <= b@.len() && (tail_end matches Some(e)
            ==> records_end(start as int, items@) == e) && (tail_end is None ==> word_at(
            b@,
            records_end(start as int, items@),
        ) == 0)),
{
    let n = b.len();
    if n < HEADER_SIZE {
        return None;
    }
    let mut pos: usize = start;
    let mut count: usize = 0;
    let ghost mut items: Seq<Seq<u8>> = Seq::empty();
    loop
        invariant
            n == b@.len(),
            n >= HEADER_SIZE,
            start <= pos,
            records_at(b@, start as int, items),
            records_end(start as int, items) == pos,
            count == items.len(),
            count <= pos - start,
            (exists|items: Seq<Seq<u8>>| #[trigger] scan_target(b@, start as int, tail_end, items)) ==> exists|
                rest: Seq<Seq<u8>>,
            | #[trigger] scan_target(b@, pos as int, tail_end, rest),
        decreases n - pos,
    {
        let ghost owed = exists|items: Seq<Seq<u8>>| #[trigger] scan_target(b@, start as int, tail_end, items);
        let ghost rest: Seq<Seq<u8>> = choose|rest: Seq<Seq<u8>>| #[trigger] scan_target(b@, pos as int, tail_end, rest);
        proof {
            if owed {
                lemma_records_end_bounds(b@, pos as int, rest);
            }
        }
        if pos > n - HEADER_SIZE {
            return None;
        }
        if let Some(e) = tail_end {
            if pos == e {
                return Some((count, Ghost(items)));
            }
        }
        let h = read_word(b, pos);
        if h == 0 {
            if tail_end.is_none() {
                return Some((count, Ghost(items)));
            } else {
                return None;
            }
        }
        if h < HEADER_SIZE as u64 || h > (n - pos) as u64 {
            return None;
        }
        let total = h as usize;
        let ghost p = b@.subrange(pos + HEADER_SIZE, pos + total);
        proof {
            if owed {
                assert(rest.len() > 0);
                assert(scan_target(b@, pos + total, tail_end, rest.drop_first()));
            }
            lemma_records_append(b@, start as int, items, p);
            items = items.push(p);
        }
        pos = pos + total;
        count = count + 1;
    }
}

pub proof fn lemma_concat_push_empty(segs: Seq<Seq<Seq<u8>>>)
    ensures
        concat(segs.push(Seq::empty())) == concat(segs),
    decreases segs.len(),
{
    let s2 = segs.push(Seq::empty());
    if segs.len() == 0 {
        assert(s2.drop_first() =~= Seq::<Seq<Seq<u8>>>::empty());
        assert(concat(s2.drop_first()) =~= Seq::<Seq<u8>>::empty());
        assert(concat(s2) =~= concat(segs));
    } else {
        lemma_concat_push_empty(segs.drop_first());
        assert(s2.drop_first() =~= segs.drop_first().push(Seq::empty()));
        assert(concat(s2) =~= concat(segs));
    }
}

pub proof fn lemma_concat_pop_front(segs: Seq<Seq<Seq<u8>>>)
    requires
        segs.len() > 0,
        segs[0].len() > 0,
    ensures
        concat(segs.update(0, segs[0].drop_first())) == concat(segs).drop_first(),
        concat(segs).len() > 0,
        concat(segs)[0] == segs[0][0],
{
    let s2 = segs.update(0, segs[0].drop_first());
    assert(s2.drop_first() =~= segs.drop_first());
    assert(concat(s2) =~= concat(segs).drop_first());
}

} // verus!
