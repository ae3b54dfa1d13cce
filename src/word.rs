use vstd::prelude::*;

verus! {

/// Number of bytes in an encoded word.
pub const WORD_SIZE: usize = 8;

/// The little-endian `u64` held by the eight bytes of `b` starting at `at`.
pub open spec fn word_at(b: Seq<u8>, at: int) -> u64 {
    (b[at] as u64) | ((b[at + 1] as u64) << 8u64) | ((b[at + 2] as u64) << 16u64) | ((b[at + 3] as u64)
        << 24u64) | ((b[at + 4] as u64) << 32u64) | ((b[at + 5] as u64) << 40u64) | ((b[at + 6] as u64)
        << 48u64) | ((b[at + 7] as u64) << 56u64)
}

/// The byte of `x` that starts at bit `shift` (0 = least significant byte).
pub open spec fn byte_of(x: u64, shift: u64) -> u8 {
    #[verifier::truncate]
    (((x >> shift) & 0xffu64) as u8)
}

proof fn lemma_bytes_word(x: u64)
    ensures
        x == ((byte_of(x, 0) as u64) | ((byte_of(x, 8) as u64) << 8u64) | ((byte_of(x, 16) as u64)
            << 16u64) | ((byte_of(x, 24) as u64) << 24u64) | ((byte_of(x, 32) as u64) << 32u64) | ((
        byte_of(x, 40) as u64) << 40u64) | ((byte_of(x, 48) as u64) << 48u64) | ((byte_of(x, 56)
            as u64) << 56u64)),
{
    assert(x == ((#[verifier::truncate] (((x >> 0u64) & 0xffu64) as u8)) as u64) | (((
    #[verifier::truncate] (((x >> 8u64) & 0xffu64) as u8)) as u64) << 8u64) | (((
    #[verifier::truncate] (((x >> 16u64) & 0xffu64) as u8)) as u64) << 16u64) | (((
    #[verifier::truncate] (((x >> 24u64) & 0xffu64) as u8)) as u64) << 24u64) | (((
    #[verifier::truncate] (((x >> 32u64) & 0xffu64) as u8)) as u64) << 32u64) | (((
    #[verifier::truncate] (((x >> 40u64) & 0xffu64) as u8)) as u64) << 40u64) | (((
    #[verifier::truncate] (((x >> 48u64) & 0xffu64) as u8)) as u64) << 48u64) | (((
    #[verifier::truncate] (((x >> 56u64) & 0xffu64) as u8)) as u64) << 56u64)) by (bit_vector);
}

/// Reads the little-endian word stored at `at` in `b`.
pub fn read_word(b: &[u8], at: usize) -> (r: u64)
    requires
        at + WORD_SIZE <= b@.len(),
    ensures
        r == word_at(b@, at as int),
{
    (b[at] as u64) | ((b[at + 1] as u64) << 8u64) | ((b[at + 2] as u64) << 16u64) | ((b[at + 3] as u64)
        << 24u64) | ((b[at + 4] as u64) << 32u64) | ((b[at + 5] as u64) << 40u64) | ((b[at + 6] as u64)
        << 48u64) | ((b[at + 7] as u64) << 56u64)
}

/// Writes `x` little-endian into the eight bytes of `b` starting at `at`,
/// leaving every other byte as it was.
pub fn write_word(b: &mut Vec<u8>, at: usize, x: u64)
    requires
        at + WORD_SIZE <= old(b)@.len(),
    ensures
        final(b)@.len() == old(b)@.len(),
        word_at(final(b)@, at as int) == x,
        forall|i: int| 0 <= i < old(b)@.len() && !(at <= i < at + WORD_SIZE) ==> #[trigger] final(b)@[i] == old(b)@[i],
{
    let n = b.len();
    let mut k: usize = 0;
    while k < WORD_SIZE
        invariant
            k <= WORD_SIZE,
            at + WORD_SIZE <= b@.len(),
            b@.len() == old(b)@.len(),
            n == b@.len(),
            forall|j: int| 0 <= j < k ==> #[trigger] b@[at + j] == byte_of(x, (8 * j) as u64),
            forall|i: int| 0 <= i < old(b)@.len() && !(at <= i < at + k) ==> #[trigger] b@[i] == old(b)@[i],
        decreases WORD_SIZE - k,
    {
        let shift: u64 = 8 * (k as u64);
        let byte: u8 = #[verifier::truncate] (((x >> shift) & 0xffu64) as u8);
        b.set(at + k, byte);
        k = k + 1;
    }
    proof {
        lemma_bytes_word(x);
        assert(b@[at + 0] == byte_of(x, 0));
        assert(b@[at + 1] == byte_of(x, 8));
        assert(b@[at + 2] == byte_of(x, 16));
        assert(b@[at + 3] == byte_of(x, 24));
        assert(b@[at + 4] == byte_of(x, 32));
        assert(b@[at + 5] == byte_of(x, 40));
        assert(b@[at + 6] == byte_of(x, 48));
        assert(b@[at + 7] == byte_of(x, 56));
    }
}

} // verus!
