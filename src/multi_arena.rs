use vstd::prelude::*;
use vstd::arithmetic::power2::{pow2, lemma_pow2_pos, lemma_pow2_unfold, lemma_pow2_strictly_increases};
use vstd::arithmetic::div_mod::{lemma_fundamental_div_mod, lemma_mod_bound};
use vstd::pervasive::unreached;
use crate::arena::{Arena, ArenaIndex};
use crate::chunk::{ChunkStorage, StorageError};
use crate::ident::{Ident, sub_name, decimal};
use crate::vector::Vector;

verus! {

/// Refers to an item of a [`MultiArena`]: its bin, and its index within the bin.
#[derive(Clone, Copy, Debug, PartialEq, Eq, Structural)]
pub struct MultiArenaIndex(pub usize, pub ArenaIndex);

/// `s / b`, rounded up.
pub open spec fn ceil_div(s: int, b: int) -> int {
    (s + b - 1) / b
}

/// `k` is the smallest exponent with `m <= 2^k`.
pub open spec fn is_ceil_log2(m: int, k: nat) -> bool {
    &&& m <= pow2(k)
    &&& (k == 0 || pow2((k - 1) as nat) < m)
}

/// The slot size of bin `k` over base size `base`.
pub open spec fn bin_slot_size(base: int, k: nat) -> int {
    base * pow2(k)
}

/// The chunk size of a bin whose slots are `slot` bytes.
pub open spec fn bin_chunk_size(typical: int, slot: int) -> int {
    if typical > slot {
        typical
    } else {
        slot
    }
}

/// The bin of a size is unique, and its slots hold items of that size: for `m = ceil(s / base)`,
/// only one `k` is `ceil_log2(m)`, and `s <= base * 2^k`.
pub proof fn lemma_bucketing(s: int, base: int, k1: nat, k2: nat)
    requires
        base > 0,
        s >= 0,
        is_ceil_log2(ceil_div(s, base), k1),
        is_ceil_log2(ceil_div(s, base), k2),
    ensures
        k1 == k2,
        s <= bin_slot_size(base, k1),
{
    if k1 < k2 {
        lemma_pow2_strictly_increases(k1, (k2 - 1) as nat);
        if k1 < (k2 - 1) as nat {
        } else {
            assert(k1 == (k2 - 1) as nat);
        }
        assert(false);
    }
    if k2 < k1 {
        lemma_pow2_strictly_increases(k2, (k1 - 1) as nat);
        if k2 < (k1 - 1) as nat {
        } else {
            assert(k2 == (k1 - 1) as nat);
        }
        assert(false);
    }
    let m = ceil_div(s, base);
    lemma_fundamental_div_mod(s + base - 1, base);
    lemma_mod_bound(s + base - 1, base);
    assert(s <= base * m) by (nonlinear_arith)
        requires s + base - 1 == base * m + (s + base - 1) % base, (s + base - 1) % base < base;
    assert(base * m <= base * pow2(k1)) by (nonlinear_arith)
        requires m <= pow2(k1), base > 0;
}

/// The smallest bin for items of `size` bytes, and its slot size when that fits in a `usize`.
fn rounded_bin(base: usize, size: usize) -> (r: (usize, Option<usize>))
    requires
        base > 0,
    ensures
        is_ceil_log2(ceil_div(size as int, base as int), r.0 as nat),
        r.1 matches Some(s) ==> s == bin_slot_size(base as int, r.0 as nat),
        r.1 is None ==> bin_slot_size(base as int, r.0 as nat) > usize::MAX,
{
    let q0 = size / base;
    let r0 = size % base;
    proof {
        lemma_fundamental_div_mod(size as int, base as int);
        lemma_mod_bound(size as int, base as int);
        if r0 != 0 {
            assert(q0 < usize::MAX) by (nonlinear_arith)
                requires size == base * q0 + r0, r0 > 0, base >= 1, q0 >= 0, size <= usize::MAX;
        }
    }
    let m = if r0 != 0 {
        q0 + 1
    } else {
        q0
    };
    proof {
        let q = size as int / base as int;
        let r = size as int % base as int;
        if r == 0 {
            vstd::arithmetic::div_mod::lemma_div_multiples_vanish_fancy(q, base - 1, base as int);
            assert(size + base - 1 == base * q + (base - 1));
        } else {
            vstd::arithmetic::div_mod::lemma_div_multiples_vanish_fancy(q + 1, r - 1, base as int);
            assert(size + base - 1 == base * (q + 1) + (r - 1)) by (nonlinear_arith)
                requires size == base * q + r;
        }
        assert(m == ceil_div(size as int, base as int));
    }
    let mut k: usize = 0;
    let mut p: usize = 1;
    proof {
        vstd::arithmetic::power2::lemma2_to64();
    }
    while p < m
        invariant
            p == pow2(k as nat),
            p >= 1,
            k <= 64,
            k == 0 || pow2((k - 1) as nat) < m,
            m <= usize::MAX,
            m == ceil_div(size as int, base as int),
            base > 0,
        decreases usize::MAX - p,
    {
        proof {
            lemma_pow2_unfold((k + 1) as nat);
        }
        if p > usize::MAX / 2 {
            assert(pow2((k + 1) as nat) == 2 * p);
            assert(2 * p > usize::MAX);
            assert(base * pow2((k + 1) as nat) >= pow2((k + 1) as nat)) by (nonlinear_arith)
                requires base >= 1, pow2((k + 1) as nat) >= 0;
            return (k + 1, None);
        }
        p = p * 2;
        k = k + 1;
        proof {
            if k > 64 {
                vstd::arithmetic::power2::lemma2_to64();
                lemma_pow2_strictly_increases(64, k as nat);
            }
        }
    }
    proof {
        lemma_pow2_pos(k as nat);
    }
    if p > usize::MAX / base {
        assert(base * p > usize::MAX) by (nonlinear_arith)
            requires p > usize::MAX / base, base > 0;
        (k, None)
    } else {
        assert(base * p <= usize::MAX) by (nonlinear_arith)
            requires p <= usize::MAX / base, base > 0;
        (k, Some(base * p))
    }
}

/// `s` is the slot size of some bin over base size `base`.
pub open spec fn is_slot_size(s: int, base: int) -> bool {
    exists|k: nat| #[trigger] pow2(k) >= 0 && s == bin_slot_size(base, k)
}

/// `sizes` can be the recorded slot sizes of a multi-arena over `base`: each is a bin's slot
/// size that fits in a `usize`, and no size is recorded twice.
pub open spec fn valid_bin_sizes(sizes: Seq<u64>, base: int) -> bool {
    &&& forall|i: int| 0 <= i < sizes.len() ==> #[trigger] sizes[i] <= usize::MAX && is_slot_size(sizes[i] as int, base)
    &&& forall|i: int, j: int| 0 <= i < j < sizes.len() ==> sizes[i] != sizes[j]
}

/// The bin found for a size that is itself a slot size is the bin of that slot size.
proof fn lemma_slot_size_bin(base: int, k: nat, k2: nat)
    requires
        base > 0,
        is_ceil_log2(ceil_div(bin_slot_size(base, k), base), k2),
    ensures
        k2 == k,
{
    lemma_pow2_pos(k);
    let p = pow2(k);
    assert(bin_slot_size(base, k) + base - 1 == base * p + (base - 1));
    vstd::arithmetic::div_mod::lemma_div_multiples_vanish_fancy(p as int, base - 1, base);
    if k > 0 {
        lemma_pow2_strictly_increases((k - 1) as nat, k);
    }
    assert(is_ceil_log2(ceil_div(bin_slot_size(base, k), base), k));
    assert(bin_slot_size(base, k) >= 0) by (nonlinear_arith)
        requires base > 0, p > 0;
    lemma_bucketing(bin_slot_size(base, k), base, k, k2);
}

/// Whether `sizes` are valid recorded slot sizes over `base`.
pub fn check_bin_sizes(sizes: &Vector, base: usize) -> (r: bool)
    requires
        sizes.wf(),
        base > 0,
    ensures
        r == valid_bin_sizes(sizes@, base as int),
{
    let n = sizes.len();
    let mut i: usize = 0;
    while i < n
        invariant
            n == sizes@.len(),
            i <= n,
            sizes.wf(),
            base > 0,
            forall|a: int| 0 <= a < i ==> #[trigger] sizes@[a] <= usize::MAX && is_slot_size(sizes@[a] as int, base as int),
            forall|a: int, b: int| 0 <= a < b < i ==> sizes@[a] != sizes@[b],
        decreases n - i,
    {
        let x = match sizes.at(i) {
            Some(x) => x,
            None => {
                return unreached();
            },
        };
        if x > usize::MAX as u64 {
            return false;
        }
        let (k, slot) = rounded_bin(base, x as usize);
        let fits = match slot {
            Some(s) => s == x as usize,
            None => false,
        };
        if !fits {
            proof {
                if is_slot_size(x as int, base as int) {
                    let k2 = choose|k2: nat| #[trigger] pow2(k2) >= 0 && x as int == bin_slot_size(base as int, k2);
                    lemma_slot_size_bin(base as int, k2, k as nat);
                }
            }
            return false;
        }
        let mut j: usize = 0;
        while j < i
            invariant
                j <= i,
                i < n,
                n == sizes@.len(),
                sizes.wf(),
                x == sizes@[i as int],
                forall|b: int| 0 <= b < j ==> sizes@[b] != x,
            decreases i - j,
        {
            let y = match sizes.at(j) {
                Some(y) => y,
                None => {
                    return unreached();
                },
            };
            if y == x {
                return false;
            }
            j = j + 1;
        }
        proof {
            assert(pow2(k as nat) >= 0);
        }
        i = i + 1;
    }
    true
}

/// Stores items of varying size in bins of fixed-size slots: bin `k` is an [`Arena`] whose
/// slots are `base_size * 2^k` bytes, named `<ident>_<slot size>`. An item of `s` bytes goes
/// to the smallest bin whose slots hold it. The slot sizes of the bins used so far are
/// persisted in a [`Vector`] named `<ident>_bin_sizes`, so the bins can be reopened. Bins and
/// sizes reach the storage through [`MultiArena::unload`]; a multi-arena dropped without it
/// leaves the persisted data as it was.
pub struct MultiArena {
    ident: Ident,
    typical_chunk_size: usize,
    base_size: usize,
    bins: Vec<Option<Arena>>,
    used_bin_sizes: Vector,
    used_bins: Ghost<Seq<nat>>,
}

impl MultiArena {
    /// The items of bin `k`, if that bin has been opened.
    pub closed spec fn spec_bin(&self, k: int) -> Option<Seq<Seq<u8>>> {
        if 0 <= k < self.bins@.len() && self.bins@[k] is Some {
            Some(self.bins@[k]->Some_0@)
        } else {
            None
        }
    }

    /// Bin `k` is open and can take one more item without a new chunk.
    pub closed spec fn spec_bin_has_room(&self, k: int) -> bool {
        &&& 0 <= k < self.bins@.len()
        &&& self.bins@[k] is Some
        &&& self.bins@[k]->Some_0@.len() < usize::MAX
        &&& (self.bins@[k]->Some_0@.len() as int) % self.bins@[k]->Some_0.spec_items_per_chunk() != 0
    }

    /// How many items one chunk of bin `k` holds.
    pub closed spec fn spec_bin_items_per_chunk(&self, k: int) -> int {
        self.bins@[k]->Some_0.spec_items_per_chunk()
    }

    /// The multi-arena's name.
    pub closed spec fn spec_ident(&self) -> Seq<char> {
        self.ident@
    }

    /// The name of open bin `k`'s arena.
    pub closed spec fn spec_bin_ident(&self, k: int) -> Seq<char> {
        self.bins@[k]->Some_0.spec_ident()
    }

    /// The chunk size of open bin `k`.
    pub closed spec fn spec_bin_chunk_size(&self, k: int) -> int {
        self.bins@[k]->Some_0.spec_chunk_size()
    }

    /// The typical chunk size the bins are created with.
    pub closed spec fn spec_typical_chunk_size(&self) -> int {
        self.typical_chunk_size as int
    }

    /// Whether the recorded slot sizes were created new rather than loaded.
    pub closed spec fn spec_sizes_are_new(&self) -> bool {
        self.used_bin_sizes.spec_is_new()
    }

    /// The base size: the slot size of bin `0`.
    pub closed spec fn spec_base_size(&self) -> int {
        self.base_size as int
    }

    /// The recorded slot sizes of the bins opened so far, in the order they were first opened.
    pub closed spec fn spec_used_bin_sizes(&self) -> Seq<u64> {
        self.used_bin_sizes@
    }

    /// Bins `0..k` are consistent with the first `n` recorded slot sizes.
    closed spec fn wf_prefix(&self, n: int) -> bool {
        let used = self.used_bins@;
        &&& self.base_size > 0
        &&& self.used_bin_sizes.wf()
        &&& used.len() == n <= self.used_bin_sizes@.len()
        &&& forall|i: int, j: int| 0 <= i < n && 0 <= j < n && used[i] == used[j] ==> i == j
        &&& forall|i: int| 0 <= i < n ==> #[trigger] used[i] < self.bins@.len() && self.bins@[used[i] as int] is Some
            && self.used_bin_sizes@[i] == bin_slot_size(self.base_size as int, used[i])
        &&& forall|k: int| 0 <= k < self.bins@.len() && #[trigger] self.bins@[k] is Some ==> used.contains(k as nat)
            && self.bins@[k]->Some_0.wf() && self.bins@[k]->Some_0.spec_item_size() == bin_slot_size(
            self.base_size as int,
            k as nat,
        )
    }

    /// The multi-arena's well-formedness: every opened bin is recorded exactly once, and every
    /// recorded slot size belongs to an opened bin.
    pub closed spec fn wf(&self) -> bool {
        self.wf_prefix(self.used_bin_sizes@.len() as int)
    }

    /// A bin is open exactly when its slot size is recorded.
    pub proof fn lemma_open_iff_recorded(&self)
        requires
            self.wf(),
        ensures
            forall|k: nat| #[trigger] self.spec_bin(k as int) is Some <==> exists|i: int| 0 <= i < self.spec_used_bin_sizes().len()
                && self.spec_used_bin_sizes()[i] as int == bin_slot_size(self.spec_base_size(), k),
    {
        self.lemma_bins_recorded_once();
        let base = self.spec_base_size();
        assert forall|k: nat| (exists|i: int| 0 <= i < self.spec_used_bin_sizes().len()
            && self.spec_used_bin_sizes()[i] as int == bin_slot_size(base, k)) implies #[trigger] self.spec_bin(k as int) is Some by {
            let i = choose|i: int| 0 <= i < self.spec_used_bin_sizes().len()
                && self.spec_used_bin_sizes()[i] as int == bin_slot_size(base, k);
            assert(self.recorded_for_open_bin(i));
            let k2 = choose|k2: nat| #[trigger] self.spec_bin(k2 as int) is Some && self.spec_used_bin_sizes()[i] == bin_slot_size(base, k2);
            if k < k2 {
                lemma_pow2_strictly_increases(k, k2);
                assert(base * pow2(k) < base * pow2(k2)) by (nonlinear_arith)
                    requires pow2(k) < pow2(k2), base > 0;
            } else if k2 < k {
                lemma_pow2_strictly_increases(k2, k);
                assert(base * pow2(k2) < base * pow2(k)) by (nonlinear_arith)
                    requires pow2(k2) < pow2(k), base > 0;
            }
        }
    }

    /// Recorded size `i` is the slot size of an opened bin.
    pub open spec fn recorded_for_open_bin(&self, i: int) -> bool {
        exists|k: nat| #[trigger] self.spec_bin(k as int) is Some && self.spec_used_bin_sizes()[i] == bin_slot_size(
            self.spec_base_size(),
            k,
        )
    }

    /// Every opened bin's slot size is recorded exactly once, and every recorded size is the
    /// slot size of an opened bin.
    pub proof fn lemma_bins_recorded_once(&self)
        requires
            self.wf(),
        ensures
            forall|k: nat| #[trigger] self.spec_bin(k as int) is Some ==> exists|i: int| 0 <= i < self.spec_used_bin_sizes().len()
                && self.spec_used_bin_sizes()[i] == bin_slot_size(self.spec_base_size(), k),
            forall|i: int, j: int| 0 <= i < self.spec_used_bin_sizes().len() && 0 <= j < self.spec_used_bin_sizes().len()
                && self.spec_used_bin_sizes()[i] == self.spec_used_bin_sizes()[j] ==> i == j,
            forall|i: int| 0 <= i < self.spec_used_bin_sizes().len() ==> #[trigger] self.recorded_for_open_bin(i),
    {
        let used = self.used_bins@;
        let n = used.len() as int;
        let base = self.base_size as int;
        assert forall|k: nat| #[trigger] self.spec_bin(k as int) is Some implies exists|i: int| 0 <= i < self.spec_used_bin_sizes().len()
            && self.spec_used_bin_sizes()[i] == bin_slot_size(self.spec_base_size(), k) by {
            assert(self.bins@[k as int] is Some);
            let w = choose|w: int| 0 <= w < used.len() && used[w] == k;
            assert(used[w] < self.bins@.len());
            assert(0 <= w < self.spec_used_bin_sizes().len() && self.spec_used_bin_sizes()[w] == bin_slot_size(
                self.spec_base_size(),
                k,
            ));
        }
        assert forall|i: int, j: int| 0 <= i < n && 0 <= j < n && self.spec_used_bin_sizes()[i] == self.spec_used_bin_sizes()[j] implies i == j by {
            assert(used[i] < self.bins@.len());
            assert(used[j] < self.bins@.len());
            if used[i] < used[j] {
                lemma_pow2_strictly_increases(used[i], used[j]);
                assert(base * pow2(used[i]) < base * pow2(used[j])) by (nonlinear_arith)
                    requires pow2(used[i]) < pow2(used[j]), base > 0;
            } else if used[j] < used[i] {
                lemma_pow2_strictly_increases(used[j], used[i]);
                assert(base * pow2(used[j]) < base * pow2(used[i])) by (nonlinear_arith)
                    requires pow2(used[j]) < pow2(used[i]), base > 0;
            }
        }
        assert forall|i: int| 0 <= i < n implies #[trigger] self.recorded_for_open_bin(i) by {
            assert(used[i] < self.bins@.len());
            let k: nat = used[i];
            assert(self.spec_bin(k as int) is Some);
            assert(self.spec_used_bin_sizes()[i] == bin_slot_size(self.spec_base_size(), k));
        }
    }

    /// The index of the bin that stores items of `size` bytes: the smallest `k` with
    /// `ceil(size / base_size) <= 2^k`.
    pub fn size_to_index(&self, size: usize) -> (r: usize)
        requires
            self.wf(),
        ensures
            is_ceil_log2(ceil_div(size as int, self.spec_base_size()), r as nat),
    {
        rounded_bin(self.base_size, size).0
    }

    /// Puts `arena` in bin `k`, growing the bin list with unopened bins as needed.
    fn place_bin(&mut self, k: usize, arena: Arena)
        requires
            k >= old(self).bins@.len() || old(self).bins@[k as int] is None,
        ensures
            final(self).bins@.len() == if k < old(self).bins@.len() {
                old(self).bins@.len() as int
            } else {
                k + 1
            },
            final(self).bins@[k as int] == Some(arena),
            forall|j: int| 0 <= j < final(self).bins@.len() && j != k ==> #[trigger] final(self).bins@[j] == if j
                < old(self).bins@.len() {
                old(self).bins@[j]
            } else {
                None
            },
            final(self).used_bins == old(self).used_bins,
            final(self).used_bin_sizes == old(self).used_bin_sizes,
            final(self).base_size == old(self).base_size,
            final(self).typical_chunk_size == old(self).typical_chunk_size,
            final(self).ident == old(self).ident,
    {
        while self.bins.len() <= k
            invariant
                old(self).bins@.len() <= self.bins@.len() <= k + 1 || (k < old(self).bins@.len()
                    && self.bins@.len() == old(self).bins@.len()),
                forall|j: int| 0 <= j < self.bins@.len() ==> #[trigger] self.bins@[j] == if j < old(
                    self,
                ).bins@.len() {
                    old(self).bins@[j]
                } else {
                    None
                },
                self.used_bins == old(self).used_bins,
                self.used_bin_sizes == old(self).used_bin_sizes,
                self.base_size == old(self).base_size,
                self.typical_chunk_size == old(self).typical_chunk_size,
                self.ident == old(self).ident,
            decreases k + 1 - self.bins@.len(),
        {
            self.bins.push(None);
        }
        self.bins.set(k, Some(arena));
    }

    /// After a bin is placed at an unopened index `k` and recorded, the first `n + 1`
    /// recorded sizes are consistent with the bins.
    proof fn lemma_placed(old_m: &MultiArena, new_m: &MultiArena, k: nat, n: int)
        requires
            old_m.wf_prefix(n),
            k >= old_m.bins@.len() || old_m.bins@[k as int] is None,
            new_m.bins@.len() >= old_m.bins@.len(),
            new_m.bins@.len() > k,
            new_m.bins@[k as int] is Some,
            new_m.bins@[k as int]->Some_0.wf(),
            new_m.bins@[k as int]->Some_0.spec_item_size() == bin_slot_size(old_m.base_size as int, k),
            forall|j: int| 0 <= j < new_m.bins@.len() && j != k ==> #[trigger] new_m.bins@[j] == if j
                < old_m.bins@.len() {
                old_m.bins@[j]
            } else {
                None
            },
            new_m.used_bins@ == old_m.used_bins@.push(k),
            new_m.base_size == old_m.base_size,
            new_m.used_bin_sizes.wf(),
            new_m.used_bin_sizes@.len() >= n + 1,
            forall|i: int| 0 <= i < n ==> new_m.used_bin_sizes@[i] == old_m.used_bin_sizes@[i],
            new_m.used_bin_sizes@[n] == bin_slot_size(old_m.base_size as int, k),
        ensures
            new_m.wf_prefix(n + 1),
    {
        let used = new_m.used_bins@;
        assert forall|i: int| 0 <= i < n implies old_m.used_bins@[i] != k by {
            assert(old_m.used_bins@[i] < old_m.bins@.len());
        }
        assert forall|i: int, j: int| 0 <= i < n + 1 && 0 <= j < n + 1 && used[i] == used[j] implies i == j by {
            if i < n && j < n {
                assert(used[i] == old_m.used_bins@[i] && used[j] == old_m.used_bins@[j]);
            }
        }
        assert forall|i: int| 0 <= i < n + 1 implies #[trigger] used[i] < new_m.bins@.len() && new_m.bins@[used[i] as int] is Some
            && new_m.used_bin_sizes@[i] == bin_slot_size(new_m.base_size as int, used[i]) by {
            if i < n {
                assert(used[i] == old_m.used_bins@[i]);
                assert(old_m.used_bins@[i] < old_m.bins@.len());
            }
        }
        assert forall|j: int| 0 <= j < new_m.bins@.len() && #[trigger] new_m.bins@[j] is Some implies used.contains(j as nat)
            && new_m.bins@[j]->Some_0.wf() && new_m.bins@[j]->Some_0.spec_item_size() == bin_slot_size(
            new_m.base_size as int,
            j as nat,
        ) by {
            if j == k {
                assert(used[n] == k);
            } else {
                assert(old_m.bins@[j] is Some);
                let w = choose|w: int| 0 <= w < old_m.used_bins@.len() && old_m.used_bins@[w] == j as nat;
                assert(used[w] == j as nat);
            }
        }
    }

    /// Opens the bin for items of `size` bytes if it is not open yet, recording its slot size,
    /// and returns its index.
    fn get_or_insert_bin_for_size<S: ChunkStorage>(&mut self, size: usize, storage: &S) -> (r: Result<usize, StorageError>)
        requires
            old(self).wf(),
        ensures
            final(self).wf(),
            final(self).base_size == old(self).base_size,
            r matches Ok(k) ==> is_ceil_log2(ceil_div(size as int, old(self).base_size as int), k as nat)
                && final(self).spec_bin(k as int) is Some && (old(self).spec_bin(k as int) is Some
                ==> final(self).spec_bin(k as int) == old(self).spec_bin(k as int)),
            r matches Ok(k) ==> forall|j: int| j != k ==> #[trigger] final(self).spec_bin(j) == old(self).spec_bin(j),
            r is Err ==> forall|j: int| #[trigger] final(self).spec_bin(j) == old(self).spec_bin(j),
            forall|k: nat| is_ceil_log2(ceil_div(size as int, old(self).base_size as int), k) && (#[trigger] old(
                self,
            ).spec_bin(k as int)) is Some ==> (r matches Ok(j) && j == k) && *final(self) == *old(self),
            final(self).typical_chunk_size == old(self).typical_chunk_size,
            r is Err ==> final(self).spec_used_bin_sizes() == old(self).spec_used_bin_sizes(),
            forall|j: int| #[trigger] old(self).spec_bin(j) is Some ==> final(self).spec_bin_chunk_size(j)
                == old(self).spec_bin_chunk_size(j),
            r matches Ok(k) ==> (old(self).spec_bin(k as int) is None ==> final(self).spec_bin_chunk_size(k as int)
                == bin_chunk_size(old(self).typical_chunk_size as int, bin_slot_size(old(self).base_size as int, k as nat))
                && final(self).spec_used_bin_sizes() == old(self).spec_used_bin_sizes().push(
                bin_slot_size(old(self).base_size as int, k as nat) as u64,
            ) && final(self).spec_bin_ident(k as int) == sub_name(
                old(self).ident@,
                decimal(bin_slot_size(old(self).base_size as int, k as nat) as nat),
            ) && (storage.spec_volatile() ==> final(self).spec_bin(k as int) == Some(Seq::<Seq<u8>>::empty()))),
            forall|k: nat| #[trigger] is_ceil_log2(ceil_div(size as int, old(self).base_size as int), k) && storage.spec_volatile()
                && bin_slot_size(old(self).base_size as int, k) <= usize::MAX && old(self).spec_used_bin_sizes().len()
                < usize::MAX ==> r is Ok,
            final(self).ident == old(self).ident,
    {
        let (k, slot) = rounded_bin(self.base_size, size);
        proof {
            assert forall|k2: nat| #[trigger] is_ceil_log2(ceil_div(size as int, self.base_size as int), k2) implies k2 == k by {
                lemma_bucketing(size as int, self.base_size as int, k2, k as nat);
            }
        }
        proof {
            assert forall|k2: nat| is_ceil_log2(ceil_div(size as int, self.base_size as int), k2) implies k2 == k by {
                lemma_bucketing(size as int, self.base_size as int, k2, k as nat);
            }
        }
        if k < self.bins.len() && self.bins[k].is_some() {
            return Ok(k);
        }
        let slot = match slot {
            Some(s) => s,
            None => {
                return Err(StorageError::Overflow);
            },
        };
        proof {
            lemma_pow2_pos(k as nat);
            assert(slot >= 1) by (nonlinear_arith)
                requires slot == self.base_size * pow2(k as nat), self.base_size >= 1, pow2(k as nat) >= 1;
        }
        let chunk_size = if self.typical_chunk_size > slot {
            self.typical_chunk_size
        } else {
            slot
        };
        let arena = match Arena::new(self.ident.sub_index(slot), chunk_size, slot, storage) {
            Ok(a) => a,
            Err(e) => {
                return Err(e);
            },
        };
        let ghost old_m = *self;
        match self.used_bin_sizes.push(slot as u64, storage) {
            Ok(()) => {},
            Err(e) => {
                assert forall|j: int| #[trigger] self.spec_bin(j) == old_m.spec_bin(j) by {}
                return Err(e);
            },
        }
        self.place_bin(k, arena);
        self.used_bins = Ghost(self.used_bins@.push(k as nat));
        proof {
            let n = old_m.used_bin_sizes@.len() as int;
            assert forall|i: int| 0 <= i < n implies self.used_bin_sizes@[i] == old_m.used_bin_sizes@[i] by {}
            MultiArena::lemma_placed(&old_m, self, k as nat, n);
            assert forall|j: int| #[trigger] old_m.spec_bin(j) is Some implies self.spec_bin_chunk_size(j)
                == old_m.spec_bin_chunk_size(j) by {
                assert(j != k);
                assert(self.bins@[j] == old_m.bins@[j]);
            }
            assert forall|j: int| j != k implies #[trigger] self.spec_bin(j) == old_m.spec_bin(j) by {
                if 0 <= j < self.bins@.len() {
                    assert(self.bins@[j] == if j < old_m.bins@.len() { old_m.bins@[j] } else { None });
                }
            }
        }
        Ok(k)
    }

    /// Opens the multi-arena named `ident`, reopening every bin whose slot size is recorded,
    /// or creates it empty.
    ///
    /// A recorded size that is not a bin's slot size, or is recorded twice, is reported as
    /// corrupt.
    pub fn new<S: ChunkStorage>(ident: Ident, typical_chunk_size: usize, base_size: usize, storage: &S) -> (r:
        Result<MultiArena, StorageError>)
        requires
            base_size > 0,
        ensures
            r matches Ok(m) ==> m.wf() && m.spec_base_size() == base_size && m.spec_typical_chunk_size()
                == typical_chunk_size,
            r matches Ok(m) ==> valid_bin_sizes(m.spec_used_bin_sizes(), base_size as int),
            r matches Ok(m) ==> forall|k: nat| #[trigger] m.spec_bin(k as int) is Some <==> exists|i: int| 0 <= i
                < m.spec_used_bin_sizes().len() && m.spec_used_bin_sizes()[i] as int == bin_slot_size(base_size as int, k),
            r matches Ok(m) ==> (m.spec_sizes_are_new() ==> m.spec_used_bin_sizes().len() == 0 && forall|k: int|
                #[trigger] m.spec_bin(k) is None),
            r matches Ok(m) ==> m.spec_ident() == ident@,
            storage.spec_volatile() ==> (r matches Ok(m) && m.spec_used_bin_sizes().len() == 0 && forall|k: int|
                #[trigger] m.spec_bin(k) is None),
    {
        let ghost id = ident@;
        let used = match Vector::new(ident.sub("bin_sizes"), 1024, storage) {
            Ok(v) => v,
            Err(e) => {
                return Err(e);
            },
        };
        if !check_bin_sizes(&used, base_size) {
            return Err(StorageError::Corrupt);
        }
        let n = used.len();
        let mut m = MultiArena {
            ident,
            typical_chunk_size,
            base_size,
            bins: Vec::new(),
            used_bin_sizes: used,
            used_bins: Ghost(Seq::empty()),
        };
        let mut i: usize = 0;
        while i < n
            invariant
                i <= n,
                n == m.used_bin_sizes@.len(),
                m.base_size == base_size,
                m.typical_chunk_size == typical_chunk_size,
                valid_bin_sizes(m.used_bin_sizes@, base_size as int),
                m.used_bin_sizes.spec_is_new() ==> n == 0,
                storage.spec_volatile() ==> n == 0,
                m.ident@ == id,
                m.wf_prefix(i as int),
            decreases n - i,
        {
            let size64 = match m.used_bin_sizes.at(i) {
                Some(x) => x,
                None => {
                    return unreached();
                },
            };
            let size = size64 as usize;
            let (k, slot) = rounded_bin(m.base_size, size);
            proof {
                let k2 = choose|k2: nat| #[trigger] pow2(k2) >= 0 && size as int == bin_slot_size(base_size as int, k2);
                lemma_slot_size_bin(base_size as int, k2, k as nat);
                if k < m.bins@.len() && m.bins@[k as int] is Some {
                    let w = choose|w: int| 0 <= w < m.used_bins@.len() && m.used_bins@[w] == k as nat;
                    assert(m.used_bin_sizes@[w] == m.used_bin_sizes@[i as int]);
                }
            }
            let slot = match slot {
                Some(s) => s,
                None => {
                    return unreached();
                },
            };
            if k < m.bins.len() && m.bins[k].is_some() {
                return unreached();
            }
            proof {
                lemma_pow2_pos(k as nat);
                assert(slot >= 1) by (nonlinear_arith)
                    requires slot == base_size * pow2(k as nat), base_size >= 1, pow2(k as nat) >= 1;
            }
            let chunk_size = if typical_chunk_size > slot {
                typical_chunk_size
            } else {
                slot
            };
            let arena = match Arena::new(m.ident.sub_index(slot), chunk_size, slot, storage) {
                Ok(a) => a,
                Err(e) => {
                    return Err(e);
                },
            };
            let ghost old_m = m;
            m.place_bin(k, arena);
            m.used_bins = Ghost(m.used_bins@.push(k as nat));
            proof {
                MultiArena::lemma_placed(&old_m, &m, k as nat, i as int);
            }
            i = i + 1;
        }
        proof {
            m.lemma_open_iff_recorded();
            if m.used_bin_sizes.spec_is_new() {
                assert forall|k: int| #[trigger] m.spec_bin(k) is None by {
                    if m.spec_bin(k) is Some {
                        assert(m.bins@[k] is Some);
                        assert(m.used_bins@.contains(k as nat));
                    }
                }
            }
        }
        Ok(m)
    }

    /// Allocates a slot for an item of `size` bytes at the end of the smallest bin whose slots
    /// hold it, opening that bin first if needed; returns the bin and the index within it.
    pub fn push<S: ChunkStorage>(&mut self, size: usize, storage: &S) -> (r: Result<MultiArenaIndex, StorageError>)
        requires
            old(self).wf(),
        ensures
            final(self).wf(),
            final(self).spec_base_size() == old(self).spec_base_size(),
            r matches Ok(ix) ==> is_ceil_log2(ceil_div(size as int, old(self).spec_base_size()), ix.0 as nat)
                && final(self).spec_bin(ix.0 as int) is Some && ix.1.0 + 1 == final(self).spec_bin(
                ix.0 as int,
            )->Some_0.len() && (old(self).spec_bin(ix.0 as int) matches Some(items) ==> final(self).spec_bin(
                ix.0 as int,
            )->Some_0.subrange(0, items.len() as int) == items),
            r matches Ok(ix) ==> forall|j: int| j != ix.0 ==> #[trigger] final(self).spec_bin(j) == old(
                self,
            ).spec_bin(j),
            r is Err ==> forall|j: int| #[trigger] old(self).spec_bin(j) is Some ==> final(self).spec_bin(j)
                == old(self).spec_bin(j),
            forall|k: nat| is_ceil_log2(ceil_div(size as int, old(self).spec_base_size()), k) && #[trigger] old(
                self,
            ).spec_bin_has_room(k as int) ==> r is Ok,
            r matches Ok(ix) ==> (old(self).spec_bin(ix.0 as int) matches Some(items) ==> ix.1.0 == items.len()
                && final(self).spec_used_bin_sizes() == old(self).spec_used_bin_sizes()),
            r matches Ok(ix) ==> (old(self).spec_bin(ix.0 as int) is None ==> final(self).spec_bin_chunk_size(ix.0 as int)
                == bin_chunk_size(old(self).spec_typical_chunk_size(), bin_slot_size(old(self).spec_base_size(), ix.0 as nat))
                && final(self).spec_used_bin_sizes() == old(self).spec_used_bin_sizes().push(
                bin_slot_size(old(self).spec_base_size(), ix.0 as nat) as u64,
            ) && final(self).spec_bin_ident(ix.0 as int) == sub_name(
                old(self).spec_ident(),
                decimal(bin_slot_size(old(self).spec_base_size(), ix.0 as nat) as nat),
            ) && (storage.spec_volatile() ==> ix.1.0 == 0)),
            forall|k: nat| #[trigger] is_ceil_log2(ceil_div(size as int, old(self).spec_base_size()), k) && storage.spec_volatile()
                && bin_slot_size(old(self).spec_base_size(), k) <= usize::MAX && old(self).spec_used_bin_sizes().len()
                < usize::MAX && (old(self).spec_bin(k as int) matches Some(items) ==> items.len() < usize::MAX)
                ==> r is Ok,
    {
        let ghost old_m = *self;
        let ghost owed = exists|k2: nat| is_ceil_log2(ceil_div(size as int, old_m.spec_base_size()), k2)
            && #[trigger] old_m.spec_bin_has_room(k2 as int);
        let ghost k2: nat = choose|k2: nat| is_ceil_log2(ceil_div(size as int, old_m.spec_base_size()), k2)
            && #[trigger] old_m.spec_bin_has_room(k2 as int);
        proof {
            if owed {
                assert(old_m.spec_bin(k2 as int) is Some);
            }
        }
        let ghost vowed = exists|k3: nat| #[trigger] is_ceil_log2(ceil_div(size as int, old_m.spec_base_size()), k3)
            && storage.spec_volatile() && bin_slot_size(old_m.spec_base_size(), k3) <= usize::MAX
            && old_m.spec_used_bin_sizes().len() < usize::MAX && (old_m.spec_bin(k3 as int) matches Some(items)
            ==> items.len() < usize::MAX);
        let ghost k3: nat = choose|k3: nat| #[trigger] is_ceil_log2(ceil_div(size as int, old_m.spec_base_size()), k3)
            && storage.spec_volatile() && bin_slot_size(old_m.spec_base_size(), k3) <= usize::MAX
            && old_m.spec_used_bin_sizes().len() < usize::MAX && (old_m.spec_bin(k3 as int) matches Some(items)
            ==> items.len() < usize::MAX);
        let k = match self.get_or_insert_bin_for_size(size, storage) {
            Ok(k) => k,
            Err(e) => {
                return Err(e);
            },
        };
        proof {
            if vowed {
                lemma_bucketing(size as int, old_m.base_size as int, k3, k as nat);
            }
        }
        let ghost mid = *self;
        let mut arena = match self.bins[k].take() {
            Some(a) => a,
            None => {
                return unreached();
            },
        };
        proof {
            if owed {
                assert(is_ceil_log2(ceil_div(size as int, old_m.base_size as int), k2));
                assert(old_m.spec_bin(k2 as int) is Some);
                assert(k == k2);
                assert(arena == old_m.bins@[k as int]->Some_0);
            }
        }
        let r = arena.push(storage);
        self.bins.set(k, Some(arena));
        proof {
            assert(self.bins@ == mid.bins@.update(k as int, Some(arena)));
            assert forall|j: int| j != k implies #[trigger] self.spec_bin(j) == mid.spec_bin(j) by {}
            assert forall|j: int| 0 <= j < self.bins@.len() && #[trigger] self.bins@[j] is Some implies self.used_bins@.contains(j as nat)
                && self.bins@[j]->Some_0.wf() && self.bins@[j]->Some_0.spec_item_size() == bin_slot_size(
                self.base_size as int,
                j as nat,
            ) by {
                assert(mid.bins@[j] is Some);
            }
        }
        match r {
            Ok(i) => Ok(MultiArenaIndex(k, i)),
            Err(e) => Err(e),
        }
    }

    /// The bytes of the slot at `index`.
    pub fn at(&self, index: MultiArenaIndex) -> (r: &[u8])
        requires
            self.wf(),
            self.spec_bin(index.0 as int) matches Some(items) && index.1.0 < items.len(),
        ensures
            r@ == self.spec_bin(index.0 as int)->Some_0[index.1.0 as int],
    {
        match &self.bins[index.0] {
            Some(a) => a.at(index.1),
            None => unreached(),
        }
    }

    /// Writes `data` over the first bytes of the slot at `index`; the rest of the slot keeps
    /// its bytes.
    pub fn at_mut(&mut self, index: MultiArenaIndex, data: &[u8])
        requires
            old(self).wf(),
            old(self).spec_bin(index.0 as int) matches Some(items) && index.1.0 < items.len(),
            data@.len() <= bin_slot_size(old(self).spec_base_size(), index.0 as nat),
        ensures
            final(self).wf(),
            final(self).spec_base_size() == old(self).spec_base_size(),
            final(self).spec_bin(index.0 as int) == Some(
                old(self).spec_bin(index.0 as int)->Some_0.update(
                    index.1.0 as int,
                    data@ + old(self).spec_bin(index.0 as int)->Some_0[index.1.0 as int].subrange(
                        data@.len() as int,
                        bin_slot_size(old(self).spec_base_size(), index.0 as nat),
                    ),
                ),
            ),
            forall|j: int| j != index.0 ==> #[trigger] final(self).spec_bin(j) == old(self).spec_bin(j),
    {
        let k = index.0;
        let ghost mid = *self;
        let mut arena = match self.bins[k].take() {
            Some(a) => a,
            None => {
                return unreached();
            },
        };
        arena.at_mut(index.1, data);
        self.bins.set(k, Some(arena));
        proof {
            assert(self.bins@ == mid.bins@.update(k as int, Some(arena)));
            assert forall|j: int| j != k implies #[trigger] self.spec_bin(j) == mid.spec_bin(j) by {}
            assert forall|j: int| 0 <= j < self.bins@.len() && #[trigger] self.bins@[j] is Some implies self.used_bins@.contains(j as nat)
                && self.bins@[j]->Some_0.wf() && self.bins@[j]->Some_0.spec_item_size() == bin_slot_size(
                self.base_size as int,
                j as nat,
            ) by {
                assert(mid.bins@[j] is Some);
            }
        }
    }

    /// Removes the item at `index` from its bin by moving the bin's last item into its slot;
    /// returns the index an item was moved to, as [`Arena::swap_remove`] does.
    pub fn swap_remove_within_bin<S: ChunkStorage>(&mut self, index: MultiArenaIndex, storage: &S) -> (r:
        Result<Option<ArenaIndex>, StorageError>)
        requires
            old(self).wf(),
            old(self).spec_bin(index.0 as int) matches Some(items) && index.1.0 < items.len(),
        ensures
            final(self).wf(),
            final(self).spec_base_size() == old(self).spec_base_size(),
            final(self).spec_bin(index.0 as int) is Some,
            r matches Ok(None) ==> index.1.0 == old(self).spec_bin(index.0 as int)->Some_0.len() - 1
                && final(self).spec_bin(index.0 as int)->Some_0 == old(self).spec_bin(
                index.0 as int,
            )->Some_0.drop_last(),
            final(self).spec_used_bin_sizes() == old(self).spec_used_bin_sizes(),
            r matches Ok(Some(i)) ==> index.1.0 < old(self).spec_bin(index.0 as int)->Some_0.len() - 1,
            r matches Ok(Some(i)) ==> i == index.1 && final(self).spec_bin(index.0 as int)->Some_0 == old(
                self,
            ).spec_bin(index.0 as int)->Some_0.update(
                index.1.0 as int,
                old(self).spec_bin(index.0 as int)->Some_0.last(),
            ).drop_last(),
            r is Err ==> final(self).spec_bin(index.0 as int) == old(self).spec_bin(index.0 as int),
            forall|j: int| j != index.0 ==> #[trigger] final(self).spec_bin(j) == old(self).spec_bin(j),
            (old(self).spec_bin(index.0 as int)->Some_0.len() - 1) % old(self).spec_bin_items_per_chunk(
                index.0 as int,
            ) != 0 ==> r is Ok,
    {
        let k = index.0;
        let ghost mid = *self;
        let mut arena = match self.bins[k].take() {
            Some(a) => a,
            None => {
                return unreached();
            },
        };
        let r = arena.swap_remove(index.1, storage);
        self.bins.set(k, Some(arena));
        proof {
            assert(self.bins@ == mid.bins@.update(k as int, Some(arena)));
            assert forall|j: int| j != k implies #[trigger] self.spec_bin(j) == mid.spec_bin(j) by {}
            assert forall|j: int| 0 <= j < self.bins@.len() && #[trigger] self.bins@[j] is Some implies self.used_bins@.contains(j as nat)
                && self.bins@[j]->Some_0.wf() && self.bins@[j]->Some_0.spec_item_size() == bin_slot_size(
                self.base_size as int,
                j as nat,
            ) by {
                assert(mid.bins@[j] is Some);
            }
        }
        r
    }

    /// Every opened bin's index and number of items, in ascending bin order.
    pub fn populated_bin_indices_and_lens(&self) -> (r: Vec<(usize, usize)>)
        requires
            self.wf(),
        ensures
            forall|i: int| 0 <= i < r@.len() ==> (#[trigger] self.spec_bin(r@[i].0 as int)) is Some
                && r@[i].1 == self.spec_bin(r@[i].0 as int)->Some_0.len(),
            forall|i: int, j: int| 0 <= i < j < r@.len() ==> r@[i].0 < r@[j].0,
            forall|k: int| #[trigger] self.spec_bin(k) is Some ==> exists|i: int| 0 <= i < r@.len() && r@[i].0 == k,
    {
        let mut r: Vec<(usize, usize)> = Vec::new();
        let mut k: usize = 0;
        while k < self.bins.len()
            invariant
                self.wf(),
                k <= self.bins@.len(),
                forall|i: int| 0 <= i < r@.len() ==> (#[trigger] self.spec_bin(r@[i].0 as int)) is Some
                    && r@[i].1 == self.spec_bin(r@[i].0 as int)->Some_0.len() && r@[i].0 < k,
                forall|i: int, j: int| 0 <= i < j < r@.len() ==> r@[i].0 < r@[j].0,
                forall|b: int| 0 <= b < k && #[trigger] self.spec_bin(b) is Some ==> exists|i: int| 0 <= i < r@.len() && r@[i].0 == b,
            decreases self.bins@.len() - k,
        {
            match &self.bins[k] {
                Some(a) => {
                    let ghost before = r@;
                    r.push((k, a.len()));
                    assert forall|i: int, j: int| 0 <= i < j < r@.len() implies r@[i].0 < r@[j].0 by {
                        if j == before.len() {
                            assert(self.spec_bin(before[i].0 as int) is Some);
                        }
                    }
                    assert forall|b: int| 0 <= b < k + 1 && #[trigger] self.spec_bin(b) is Some implies exists|i: int| 0 <= i < r@.len() && r@[i].0 == b by {
                        if b == k {
                            assert(r@[before.len() as int].0 == b);
                        } else {
                            let w = choose|i: int| 0 <= i < before.len() && before[i].0 == b;
                            assert(r@[w].0 == b);
                        }
                    }
                },
                None => {
                    assert forall|b: int| 0 <= b < k + 1 && #[trigger] self.spec_bin(b) is Some implies exists|i: int| 0 <= i < r@.len() && r@[i].0 == b by {
                        if b == k {
                            assert(self.spec_bin(b) is None);
                        }
                    }
                },
            }
            k = k + 1;
        }
        r
    }

    /// Number of items in bin `bin_index`, which must be open.
    pub fn bin_len(&self, bin_index: usize) -> (r: usize)
        requires
            self.wf(),
            self.spec_bin(bin_index as int) is Some,
        ensures
            r == self.spec_bin(bin_index as int)->Some_0.len(),
    {
        match &self.bins[bin_index] {
            Some(a) => a.len(),
            None => unreached(),
        }
    }

    /// Hands every opened bin and the recorded slot sizes to `storage` to be persisted.
    pub fn unload<S: ChunkStorage>(&self, storage: &S) -> (r: Result<(), StorageError>)
        ensures
            storage.spec_volatile() ==> r is Ok,
    {
        let mut k: usize = 0;
        while k < self.bins.len()
            invariant
                k <= self.bins@.len(),
            decreases self.bins@.len() - k,
        {
            match &self.bins[k] {
                Some(a) => {
                    match a.unload(storage) {
                        Ok(()) => {},
                        Err(e) => {
                            return Err(e);
                        },
                    }
                },
                None => {},
            }
            k = k + 1;
        }
        self.used_bin_sizes.unload(storage)
    }
}

} // verus!
