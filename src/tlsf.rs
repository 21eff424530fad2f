//! Two-level segregated-fit index over free chunks.
//!
//! Free chunk sizes fall into first-level buckets `[2^f, 2^(f+1))` for
//! `f` in `4..27`, and each bucket into eight second-level bins of equal
//! width. Bins are numbered `(f - 4) * 8 + s`, so that a larger bin number
//! always holds larger sizes. A bitmap over buckets and one bitmap per
//! bucket over its bins mark the non-empty lists.

use vstd::arithmetic::power2::{lemma_pow2_unfold, lemma_pow2_strictly_increases, lemma2_to64, pow2};
use vstd::prelude::*;
use vstd::std_specs::bits::{axiom_u32_trailing_zeros, axiom_u8_trailing_zeros};

verus! {

/// Number of first-level buckets, for sizes from 2^4 up to 2^27.
pub const FL_BIN_COUNT: usize = 23;

/// Number of second-level bins in each first-level bucket.
pub const SL_BIN_COUNT: usize = 8;

/// Number of bins over both levels.
pub const BIN_COUNT: usize = 184;

/// The smallest size the index holds.
pub const MIN_INDEXED_SIZE: u64 = 16;

/// The first size past the index's range.
pub const MAX_INDEXED_SIZE: u64 = 134217728;

/// A free chunk as the index records it.
#[derive(Clone, Copy, Debug, PartialEq, Eq, Structural)]
pub struct ChunkInfo {
    /// Size of the chunk in bytes.
    pub size: u64,
    /// Offset of the chunk within its memory block.
    pub offset: u64,
    /// Index of the block the chunk belongs to.
    pub block: usize,
}

/// Sizes that the index can hold.
pub open spec fn indexable(size: int) -> bool {
    MIN_INDEXED_SIZE <= size < MAX_INDEXED_SIZE
}

/// `floor(log2(n))`, taken as 0 below 2.
pub open spec fn log2_floor(n: nat) -> nat
    decreases n,
{
    if n < 2 {
        0
    } else {
        1 + log2_floor(n / 2)
    }
}

/// Second-level bin of `size` within its first-level bucket.
pub open spec fn sl_index(size: int) -> int {
    let p = pow2(log2_floor(size as nat)) as int;
    (size - p) * 8 / p
}

/// Bin number of `size` over both levels.
pub open spec fn bin_of(size: int) -> int {
    (log2_floor(size as nat) - 4) * 8 + sl_index(size)
}

/// The smallest size that falls into bin `b`.
pub open spec fn bin_start(b: int) -> int {
    pow2((b / 8 + 1) as nat) * (8 + b % 8)
}

/// A size rounded up to the start of the bin after its own.
pub open spec fn next_block_size_spec(size: int) -> int {
    bin_start(bin_of(size) + 1)
}

/// Bit `i` of a bucket's bin bitmap.
pub open spec fn bit8(x: u8, i: u8) -> bool {
    (x >> i) & 1u8 == 1u8
}

/// Bit `i` of the bucket bitmap.
pub open spec fn bit32(x: u32, i: u32) -> bool {
    (x >> i) & 1u32 == 1u32
}

proof fn lemma_log2_floor(n: nat, k: nat)
    requires
        pow2(k) <= n < pow2(k + 1),
    ensures
        log2_floor(n) == k,
    decreases k,
{
    lemma_pow2_unfold(k + 1);
    if k == 0 {
        lemma2_to64();
    } else {
        lemma_pow2_unfold(k);
        lemma_log2_floor(n / 2, (k - 1) as nat);
    }
}

proof fn lemma_log2_bounds(n: nat)
    requires
        n >= 1,
    ensures
        pow2(log2_floor(n)) <= n < pow2(log2_floor(n) + 1),
    decreases n,
{
    if n < 2 {
        lemma2_to64();
    } else {
        lemma_log2_bounds(n / 2);
        lemma_pow2_unfold(log2_floor(n / 2) + 1);
        lemma_pow2_unfold(log2_floor(n / 2) + 2);
    }
}

/// Where a size falls: its bucket and bin, and the bounds of that bin.
proof fn lemma_bin_of(size: int)
    requires
        indexable(size),
    ensures
        4 <= log2_floor(size as nat) < 27,
        0 <= sl_index(size) < 8,
        0 <= bin_of(size) < BIN_COUNT,
        bin_of(size) / 8 == log2_floor(size as nat) - 4,
        bin_of(size) % 8 == sl_index(size),
        bin_start(bin_of(size)) <= size < bin_start(bin_of(size) + 1),
{
    let k = log2_floor(size as nat);
    lemma2_to64();
    lemma_log2_bounds(size as nat);
    if k < 4 {
        if k + 1 < 4 {
            lemma_pow2_strictly_increases(k + 1, 4);
        }
    }
    if k >= 27 {
        if k > 27 {
            lemma_pow2_strictly_increases(27, k);
        }
    }
    let p = pow2(k) as int;
    let q = pow2((k - 3) as nat) as int;
    lemma_pow2_unfold(k + 1);
    assert(p == 8 * q) by {
        lemma_pow2_unfold(k);
        lemma_pow2_unfold((k - 1) as nat);
        lemma_pow2_unfold((k - 2) as nat);
    }
    let sl = sl_index(size);
    assert(sl == (size - p) / q) by {
        vstd::arithmetic::power2::lemma_pow2_pos((k - 3) as nat);
        vstd::arithmetic::div_mod::lemma_div_multiples_vanish_quotient(8, size - p, q);
        vstd::arithmetic::mul::lemma_mul_is_commutative(size - p, 8);
    }
    vstd::arithmetic::div_mod::lemma_fundamental_div_mod(size - p, q);
    vstd::arithmetic::div_mod::lemma_mod_bound(size - p, q);
    assert(0 <= sl < 8) by (nonlinear_arith)
        requires
            sl == (size - p) / q,
            0 <= size - p < 8 * q,
            q > 0,
    {
        vstd::arithmetic::div_mod::lemma_div_is_ordered(0, size - p, q);
    }
    let b = bin_of(size);
    assert(b / 8 == k - 4 && b % 8 == sl);
    assert(bin_start(b) == q * (8 + sl));
    assert(q * (8 + sl) == p + q * sl) by (nonlinear_arith)
        requires
            p == 8 * q,
    ;
    assert(size < p + q * (sl + 1)) by (nonlinear_arith)
        requires
            size - p == q * sl + (size - p) % q,
            (size - p) % q < q,
    ;
    if sl < 7 {
        assert((b + 1) / 8 == k - 4 && (b + 1) % 8 == sl + 1);
        assert(bin_start(b + 1) == q * (9 + sl));
        assert(q * (9 + sl) == p + q * (sl + 1)) by (nonlinear_arith)
            requires
                p == 8 * q,
        ;
    } else {
        assert((b + 1) / 8 == k - 3 && (b + 1) % 8 == 0);
        lemma_pow2_unfold((k - 2) as nat);
        assert(bin_start(b + 1) == pow2((k - 2) as nat) * 8);
        assert(p + q * (sl + 1) == 2 * p) by (nonlinear_arith)
            requires
                p == 8 * q,
                sl == 7,
        ;
    }
}

proof fn lemma_next_bin_start(size: int, q: int)
    requires
        indexable(size),
        4 <= log2_floor(size as nat) < 27,
        0 <= sl_index(size) < 8,
        bin_of(size) / 8 == log2_floor(size as nat) - 4,
        bin_of(size) % 8 == sl_index(size),
        q == pow2((log2_floor(size as nat) - 3) as nat),
        pow2(log2_floor(size as nat)) == 8 * q,
    ensures
        next_block_size_spec(size) == pow2(log2_floor(size as nat)) + q * (sl_index(size) + 1),
{
    let k = log2_floor(size as nat);
    let p = pow2(k) as int;
    let sl = sl_index(size);
    let b = bin_of(size);
    if sl < 7 {
        assert((b + 1) / 8 == k - 4 && (b + 1) % 8 == sl + 1);
        assert(bin_start(b + 1) == q * (9 + sl));
        assert(q * (9 + sl) == p + q * (sl + 1)) by (nonlinear_arith)
            requires
                p == 8 * q,
        ;
    } else {
        assert((b + 1) / 8 == k - 3 && (b + 1) % 8 == 0);
        lemma_pow2_unfold((k - 2) as nat);
        assert(bin_start(b + 1) == pow2((k - 2) as nat) * 8);
        assert(p + q * (sl + 1) == 2 * p) by (nonlinear_arith)
            requires
                p == 8 * q,
                sl == 7,
        ;
    }
}

proof fn lemma_bin_start_step(b: int)
    requires
        0 <= b,
    ensures
        bin_start(b) < bin_start(b + 1),
{
    let q = pow2((b / 8 + 1) as nat) as int;
    vstd::arithmetic::power2::lemma_pow2_pos((b / 8 + 1) as nat);
    if b % 8 < 7 {
        assert((b + 1) / 8 == b / 8 && (b + 1) % 8 == b % 8 + 1);
        assert(q * (8 + b % 8) < q * (9 + b % 8)) by (nonlinear_arith)
            requires
                q > 0,
        ;
    } else {
        assert((b + 1) / 8 == b / 8 + 1 && (b + 1) % 8 == 0);
        lemma_pow2_unfold((b / 8 + 2) as nat);
        assert(q * (8 + b % 8) < 2 * q * 8) by (nonlinear_arith)
            requires
                q > 0,
                b % 8 == 7,
        ;
    }
}

/// Bins hold strictly increasing sizes.
pub proof fn lemma_bin_start_increasing(b1: int, b2: int)
    requires
        0 <= b1 < b2,
    ensures
        bin_start(b1) < bin_start(b2),
    decreases b2 - b1,
{
    lemma_bin_start_step(b1);
    if b1 + 1 < b2 {
        lemma_bin_start_increasing(b1 + 1, b2);
    }
}

proof fn lemma_bits8(x: u8, s: u8, t: u8)
    requires
        s < 8,
        t < 8,
    ensures
        bit8(x & (0xffu8 << s), t) <==> (s <= t && bit8(x, t)),
        bit8(x | (1u8 << s), t) <==> (s == t || bit8(x, t)),
        bit8(x & !(1u8 << s), t) <==> (s != t && bit8(x, t)),
{
    assert(((x & (0xffu8 << s)) >> t) & 1u8 == 1u8 <==> (s <= t && (x >> t) & 1u8 == 1u8)) by (bit_vector)
        requires
            s < 8,
            t < 8,
    ;
    assert(((x | (1u8 << s)) >> t) & 1u8 == 1u8 <==> (s == t || (x >> t) & 1u8 == 1u8)) by (bit_vector)
        requires
            s < 8,
            t < 8,
    ;
    assert(((x & !(1u8 << s)) >> t) & 1u8 == 1u8 <==> (s != t && (x >> t) & 1u8 == 1u8)) by (bit_vector)
        requires
            s < 8,
            t < 8,
    ;
}

proof fn lemma_bits32(x: u32, s: u32, t: u32)
    requires
        s < 32,
        t < 32,
    ensures
        bit32(x & (0xffff_ffffu32 << s), t) <==> (s <= t && bit32(x, t)),
        bit32(x | (1u32 << s), t) <==> (s == t || bit32(x, t)),
        bit32(x & !(1u32 << s), t) <==> (s != t && bit32(x, t)),
{
    assert(((x & (0xffff_ffffu32 << s)) >> t) & 1u32 == 1u32 <==> (s <= t && (x >> t) & 1u32 == 1u32)) by (bit_vector)
        requires
            s < 32,
            t < 32,
    ;
    assert(((x | (1u32 << s)) >> t) & 1u32 == 1u32 <==> (s == t || (x >> t) & 1u32 == 1u32)) by (bit_vector)
        requires
            s < 32,
            t < 32,
    ;
    assert(((x & !(1u32 << s)) >> t) & 1u32 == 1u32 <==> (s != t && (x >> t) & 1u32 == 1u32)) by (bit_vector)
        requires
            s < 32,
            t < 32,
    ;
}

proof fn lemma_trailing_zeros8(x: u8)
    ensures
        x == 0 <==> x.trailing_zeros() == 8,
        x != 0 ==> x.trailing_zeros() < 8 && bit8(x, x.trailing_zeros() as u8),
        forall|t: u8| t < x.trailing_zeros() ==> !#[trigger] bit8(x, t),
{
    axiom_u8_trailing_zeros(x);
    assert(forall|t: u8| (x >> t) & 1u8 == 0u8 ==> !((x >> t) & 1u8 == 1u8)) by (bit_vector);
}

proof fn lemma_trailing_zeros32(x: u32)
    ensures
        x == 0 <==> x.trailing_zeros() == 32,
        x != 0 ==> x.trailing_zeros() < 32 && bit32(x, x.trailing_zeros()),
        forall|t: u32| t < x.trailing_zeros() ==> !#[trigger] bit32(x, t),
{
    axiom_u32_trailing_zeros(x);
    assert(forall|t: u32| (x >> t) & 1u32 == 0u32 ==> !((x >> t) & 1u32 == 1u32)) by (bit_vector);
}

proof fn lemma_zero_bits()
    ensures
        forall|t: u8| !#[trigger] bit8(0u8, t),
        forall|t: u32| !#[trigger] bit32(0u32, t),
{
    assert(forall|t: u8| !((0u8 >> t) & 1u8 == 1u8)) by (bit_vector);
    assert(forall|t: u32| !((0u32 >> t) & 1u32 == 1u32)) by (bit_vector);
}

/// The free-space index: one free list per bin, and the two bitmaps.
pub struct Tlsf {
    first_level: u32,
    second_level: Vec<u8>,
    free_lists: Vec<Vec<ChunkInfo>>,
}

impl Tlsf {
    /// The free list of each bin, by bin number.
    pub closed spec fn bins(&self) -> Seq<Seq<ChunkInfo>> {
        Seq::new(self.free_lists@.len(), |b: int| self.free_lists@[b]@)
    }

    /// Each bin's list holds only sizes of that bin, and the bitmaps mark
    /// exactly the non-empty lists.
    pub closed spec fn wf(&self) -> bool {
        &&& self.second_level@.len() == FL_BIN_COUNT
        &&& self.free_lists@.len() == BIN_COUNT
        &&& forall|fl: u32| fl < 32 ==> (#[trigger] bit32(self.first_level, fl) <==> (fl < FL_BIN_COUNT
            && self.second_level@[fl as int] != 0))
        &&& forall|fl: int, sl: u8|
            0 <= fl < FL_BIN_COUNT && sl < 8 ==> (#[trigger] bit8(self.second_level@[fl], sl) <==> self.free_lists@[fl * 8 + sl]@.len() > 0)
        &&& forall|b: int, i: int|
            0 <= b < BIN_COUNT && 0 <= i < self.free_lists@[b]@.len() ==> indexable(
                #[trigger] self.free_lists@[b]@[i].size as int,
            ) && bin_of(self.free_lists@[b]@[i].size as int) == b
    }

    /// Every recorded chunk lies in the bin of its size.
    pub proof fn lemma_binned(&self, b: int, i: int)
        requires
            self.wf(),
            0 <= b < BIN_COUNT,
            0 <= i < self.bins()[b].len(),
        ensures
            indexable(self.bins()[b][i].size as int),
            bin_of(self.bins()[b][i].size as int) == b,
            self.bins().len() == BIN_COUNT,
    {
    }

    /// An empty index.
    pub fn new() -> (r: Self)
        ensures
            r.wf(),
            r.bins() == Seq::new(BIN_COUNT as nat, |b: int| Seq::<ChunkInfo>::empty()),
    {
        let mut second_level: Vec<u8> = Vec::new();
        let mut i: usize = 0;
        while i < FL_BIN_COUNT
            invariant
                i <= FL_BIN_COUNT,
                second_level@ == Seq::new(i as nat, |j: int| 0u8),
            decreases FL_BIN_COUNT - i,
        {
            second_level.push(0);
            i += 1;
        }
        let mut free_lists: Vec<Vec<ChunkInfo>> = Vec::new();
        let mut b: usize = 0;
        while b < BIN_COUNT
            invariant
                b <= BIN_COUNT,
                free_lists@.len() == b,
                forall|j: int| 0 <= j < b ==> (#[trigger] free_lists@[j])@.len() == 0,
            decreases BIN_COUNT - b,
        {
            free_lists.push(Vec::new());
            b += 1;
        }
        let r = Tlsf { first_level: 0, second_level, free_lists };
        proof {
            lemma_zero_bits();
            assert(r.bins() =~~= Seq::new(BIN_COUNT as nat, |b: int| Seq::<ChunkInfo>::empty()));
        }
        r
    }

    /// Records a free chunk in the list of the bin its size falls into.
    pub fn insert_chunk(&mut self, size: u64, offset: u64, block: usize)
        requires
            old(self).wf(),
            indexable(size as int),
        ensures
            final(self).wf(),
            final(self).bins() == old(self).bins().update(
                bin_of(size as int),
                old(self).bins()[bin_of(size as int)].push(ChunkInfo { size, offset, block }),
            ),
    {
        let (fl, sl) = self.get_indices(size);
        let ghost old_self = *self;
        let new_sl: u8 = self.second_level[fl] | (1u8 << (sl as u8));
        self.first_level = self.first_level | (1u32 << (fl as u32));
        self.second_level.set(fl, new_sl);
        self.free_lists[fl * 8 + sl].push(ChunkInfo { size, offset, block });
        proof {
            lemma_zero_bits();
            lemma_bits8(old_self.second_level@[fl as int], sl as u8, sl as u8);
            assert forall|f: u32| f < 32 implies (#[trigger] bit32(self.first_level, f) <==> (f < FL_BIN_COUNT
                && self.second_level@[f as int] != 0)) by {
                lemma_bits32(old_self.first_level, fl as u32, f);
            }
            assert forall|f: int, t: u8| 0 <= f < FL_BIN_COUNT && t < 8 implies (#[trigger] bit8(self.second_level@[f], t)
                <==> self.free_lists@[f * 8 + t]@.len() > 0) by {
                lemma_bits8(old_self.second_level@[fl as int], sl as u8, t);
                if f != fl {
                    assert(f * 8 + t != fl * 8 + sl);
                }
            }
            assert(self.bins() =~~= old_self.bins().update(
                bin_of(size as int),
                old_self.bins()[bin_of(size as int)].push(ChunkInfo { size, offset, block }),
            ));
        }
    }

    /// Takes a free chunk of at least the start of the bin after the one
    /// `size` falls into: the last one recorded in the lowest non-empty bin
    /// past that of `size`. `None` when every such bin is empty.
    pub fn get_free_chunk(&mut self, size: u64) -> (r: Option<ChunkInfo>)
        requires
            old(self).wf(),
            indexable(size as int),
        ensures
            final(self).wf(),
            r is None <==> forall|b: int| bin_of(size as int) < b < BIN_COUNT ==> old(self).bins()[b].len() == 0,
            r is None ==> final(self).bins() == old(self).bins(),
            r matches Some(c) ==> {
                let b = bin_of(c.size as int);
                &&& c.size >= next_block_size_spec(size as int)
                &&& c.size > size
                &&& bin_of(size as int) < b < BIN_COUNT
                &&& old(self).bins()[b].len() > 0
                &&& c == old(self).bins()[b].last()
                &&& forall|b2: int| bin_of(size as int) < b2 < b ==> old(self).bins()[b2].len() == 0
                &&& final(self).bins() == old(self).bins().update(b, old(self).bins()[b].drop_last())
            },
    {
        let (fl, sl) = match self.find_available(size) {
            Some(idx) => idx,
            None => return None,
        };
        let ghost old_self = *self;
        let b = fl * 8 + sl;
        proof {
            self.lemma_binned(b as int, self.bins()[b as int].len() - 1);
        }
        let chunk = match self.free_lists[b].pop() {
            Some(c) => c,
            None => return None,
        };
        if self.free_lists[b].len() == 0 {
            let new_sl: u8 = self.second_level[fl] & !(1u8 << (sl as u8));
            self.second_level.set(fl, new_sl);
            if new_sl == 0 {
                self.first_level = self.first_level & !(1u32 << (fl as u32));
            }
            proof {
                lemma_zero_bits();
                assert forall|t: u8| t < 8 implies (#[trigger] bit8(new_sl, t) <==> (sl != t && bit8(old_self.second_level@[fl as int], t))) by {
                    lemma_bits8(old_self.second_level@[fl as int], sl as u8, t);
                }
                assert(new_sl != 0 ==> exists|t: u8| t < 8 && bit8(new_sl, t)) by {
                    if new_sl != 0 {
                        lemma_trailing_zeros8(new_sl);
                        let t = new_sl.trailing_zeros() as u8;
                        assert(bit8(new_sl, t));
                    }
                }
                assert forall|f: u32| f < 32 implies (#[trigger] bit32(self.first_level, f) <==> (f < FL_BIN_COUNT
                    && self.second_level@[f as int] != 0)) by {
                    lemma_bits32(old_self.first_level, fl as u32, f);
                }
                assert forall|f: int, t: u8| 0 <= f < FL_BIN_COUNT && t < 8 implies (#[trigger] bit8(self.second_level@[f], t)
                    <==> self.free_lists@[f * 8 + t]@.len() > 0) by {
                    if f != fl {
                        assert(f * 8 + t != fl * 8 + sl);
                    }
                }
            }
        }
        proof {
            assert forall|f: int, t: u8| 0 <= f < FL_BIN_COUNT && t < 8 implies (#[trigger] bit8(self.second_level@[f], t)
                <==> self.free_lists@[f * 8 + t]@.len() > 0) by {
                if f != fl || t != sl {
                    assert(f * 8 + t != fl * 8 + sl);
                }
            }
            assert(self.bins() =~~= old_self.bins().update(b as int, old_self.bins()[b as int].drop_last()));
            lemma_bin_of(chunk.size as int);
            lemma_bin_of(size as int);
            if bin_of(size as int) + 1 < b {
                lemma_bin_start_increasing(bin_of(size as int) + 1, b as int);
            }
        }
        Some(chunk)
    }

    /// The bucket and bin of `size`: `floor(log2(size)) - 4` and
    /// `floor((size - 2^f) * 8 / 2^f)`.
    fn get_indices(&self, size: u64) -> (r: (usize, usize))
        requires
            indexable(size as int),
        ensures
            r.0 == log2_floor(size as nat) - 4,
            r.1 == sl_index(size as int),
            r.0 * 8 + r.1 == bin_of(size as int),
            r.0 < FL_BIN_COUNT,
            r.1 < SL_BIN_COUNT,
    {
        proof {
            lemma2_to64();
        }
        let mut fl: usize = 4;
        let mut p: u64 = 16;
        while p <= size / 2
            invariant
                4 <= fl <= 26,
                p == pow2(fl as nat),
                p <= size < MAX_INDEXED_SIZE,
            decreases 27 - fl,
        {
            proof {
                lemma2_to64();
                lemma_pow2_unfold((fl + 1) as nat);
            }
            p = p * 2;
            fl += 1;
        }
        proof {
            lemma_pow2_unfold((fl + 1) as nat);
            lemma_log2_floor(size as nat, fl as nat);
            lemma_bin_of(size as int);
        }
        let sl = ((size - p) * 8 / p) as usize;
        (fl - 4, sl)
    }

    /// The start of the bin after the one `size` falls into:
    /// `2^f * (1 + (s + 1) / 8)`.
    fn next_block_size(&self, size: u64) -> (r: u64)
        requires
            indexable(size as int),
        ensures
            r == next_block_size_spec(size as int),
            r > size,
    {
        let (fl, sl) = self.get_indices(size);
        let fl = fl + 4;
        proof {
            lemma_bin_of(size as int);
            lemma2_to64();
            if fl >= 27 {
                lemma_pow2_strictly_increases(27, fl as nat);
            }
            vstd::bits::lemma_u64_shl_is_mul(1, fl as u64);
        }
        let p: u64 = 1u64 << (fl as u64);
        let ghost q = pow2((fl - 3) as nat) as int;
        proof {
            let k = fl as nat;
            lemma_pow2_strictly_increases(k, 27);
            vstd::arithmetic::power2::lemma_pow2_pos((k - 3) as nat);
            assert(p == 8 * q) by {
                lemma_pow2_unfold(k);
                lemma_pow2_unfold((k - 1) as nat);
                lemma_pow2_unfold((k - 2) as nat);
            }
            assert(q * (sl as int + 1) <= p) by (nonlinear_arith)
                requires
                    p == 8 * q,
                    sl < 8,
                    q > 0,
            ;
            lemma_next_bin_start(size as int, q);
        }
        let r = p + (p / 8) * (sl as u64 + 1);
        assert(r == p + q * (sl + 1));
        r
    }

    /// The lowest non-empty bin after the bin of `size`, as a bucket and
    /// a bin within it.
    fn find_available(&self, size: u64) -> (r: Option<(usize, usize)>)
        requires
            self.wf(),
            indexable(size as int),
        ensures
            match r {
                Some((fl, sl)) => {
                    &&& fl < FL_BIN_COUNT
                    &&& sl < SL_BIN_COUNT
                    &&& bin_of(size as int) < fl * 8 + sl
                    &&& self.bins()[fl * 8 + sl].len() > 0
                    &&& forall|b: int| bin_of(size as int) < b < fl * 8 + sl ==> self.bins()[b].len() == 0
                },
                None => forall|b: int| bin_of(size as int) < b < BIN_COUNT ==> self.bins()[b].len() == 0,
            },
    {
        let (start_fl, start_sl) = self.get_indices(size);
        let b0 = Ghost(bin_of(size as int));
        proof {
            lemma_zero_bits();
        }
        let sl_map: u8 = if start_sl < 7 {
            self.second_level[start_fl] & (0xffu8 << ((start_sl + 1) as u8))
        } else {
            0
        };
        assert forall|t: u8| t < 8 implies (#[trigger] bit8(sl_map, t) <==> (start_sl < t && bit8(self.second_level@[start_fl as int], t))) by {
            if start_sl < 7 {
                lemma_bits8(self.second_level@[start_fl as int], (start_sl + 1) as u8, t);
            }
        }
        proof {
            lemma_trailing_zeros8(sl_map);
        }
        if sl_map != 0 {
            let sl = sl_map.trailing_zeros() as usize;
            proof {
                let t = sl_map.trailing_zeros() as u8;
                assert(bit8(sl_map, t));
                assert(self.bins()[start_fl * 8 + sl].len() > 0);
                assert forall|b: int| b0@ < b < start_fl * 8 + sl implies self.bins()[b].len() == 0 by {
                    let u = (b - start_fl * 8) as u8;
                    assert(b == start_fl * 8 + u);
                    assert(!bit8(sl_map, u));
                    assert(!bit8(self.second_level@[start_fl as int], u));
                }
            }
            return Some((start_fl, sl));
        }
        assert forall|b: int| b0@ < b < start_fl * 8 + 8 implies self.bins()[b].len() == 0 by {
            let u = (b - start_fl * 8) as u8;
            assert(b == start_fl * 8 + u);
            assert(!bit8(sl_map, u));
        }
        if start_fl + 1 >= FL_BIN_COUNT {
            return None;
        }
        let fl_map: u32 = self.first_level & (0xffff_ffffu32 << ((start_fl + 1) as u32));
        assert forall|t: u32| t < 32 implies (#[trigger] bit32(fl_map, t) <==> (start_fl < t && bit32(self.first_level, t))) by {
            lemma_bits32(self.first_level, (start_fl + 1) as u32, t);
        }
        proof {
            lemma_trailing_zeros32(fl_map);
        }
        if fl_map == 0 {
            proof {
                assert forall|b: int| b0@ < b < BIN_COUNT implies self.bins()[b].len() == 0 by {
                    if b >= start_fl * 8 + 8 {
                        let f = (b / 8) as u32;
                        let u = (b % 8) as u8;
                        assert(b == f * 8 + u);
                        assert(!bit32(fl_map, f));
                        assert(!bit32(self.first_level, f));
                        assert(self.second_level@[f as int] == 0);
                        assert(!bit8(self.second_level@[f as int], u));
                    }
                }
            }
            return None;
        }
        let fl = fl_map.trailing_zeros() as usize;
        proof {
            assert(bit32(fl_map, fl as u32));
            assert(bit32(self.first_level, fl as u32));
            lemma_trailing_zeros8(self.second_level@[fl as int]);
        }
        let sl = self.second_level[fl].trailing_zeros() as usize;
        proof {
            assert(bit8(self.second_level@[fl as int], sl as u8));
            assert forall|b: int| b0@ < b < fl * 8 + sl implies self.bins()[b].len() == 0 by {
                if b >= start_fl * 8 + 8 {
                    let f = (b / 8) as u32;
                    let u = (b % 8) as u8;
                    assert(b == f * 8 + u);
                    if f < fl {
                        assert(!bit32(fl_map, f));
                        assert(!bit32(self.first_level, f));
                        assert(!bit8(self.second_level@[f as int], u));
                    } else {
                        assert(!bit8(self.second_level@[fl as int], u));
                    }
                }
            }
        }
        Some((fl, sl))
    }
}

} // verus!
