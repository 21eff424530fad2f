//! Alignment and granularity-page arithmetic on byte offsets.

use vstd::arithmetic::power2::pow2;
use vstd::bits::lemma_u64_low_bits_mask_is_mod;
use vstd::prelude::*;

verus! {

/// A power of two, as the device reports alignments and page sizes.
pub open spec fn is_pow2(n: u64) -> bool {
    exists|k: nat| k < 64 && n == pow2(k)
}

/// The largest multiple of `alignment` that is at most `value`.
#[verifier::opaque]
pub open spec fn align_down_spec(value: int, alignment: int) -> int {
    value - value % alignment
}

/// The smallest multiple of `alignment` that is at least `value`.
pub open spec fn align_up_spec(value: int, alignment: int) -> int {
    align_down_spec(value + alignment - 1, alignment)
}

/// Whether the last byte of the range `[offset_a, offset_a + size_a)` and the
/// byte at `offset_b` lie on the same page of `granularity` bytes, or the
/// first range's page comes after the second's.
pub open spec fn same_page_spec(offset_a: int, size_a: int, offset_b: int, granularity: int) -> bool {
    align_down_spec(offset_a + size_a - 1, granularity) >= align_down_spec(offset_b, granularity)
}

/// Rounding down lands on a multiple of the alignment, less than one
/// alignment below the value.
pub proof fn lemma_align_down(value: int, alignment: int)
    requires
        alignment > 0,
    ensures
        align_down_spec(value, alignment) % alignment == 0,
        align_down_spec(value, alignment) <= value < align_down_spec(value, alignment) + alignment,
        align_down_spec(value, alignment) == (value / alignment) * alignment,
{
    reveal(align_down_spec);
    vstd::arithmetic::div_mod::lemma_fundamental_div_mod(value, alignment);
    vstd::arithmetic::div_mod::lemma_mod_multiples_basic(value / alignment, alignment);
    vstd::arithmetic::div_mod::lemma_mod_bound(value, alignment);
    vstd::arithmetic::mul::lemma_mul_is_commutative(alignment, value / alignment);
}

/// Rounding up lands on a multiple of the alignment, less than one alignment
/// above the value.
pub proof fn lemma_align_up(value: int, alignment: int)
    requires
        alignment > 0,
    ensures
        align_up_spec(value, alignment) % alignment == 0,
        value <= align_up_spec(value, alignment) < value + alignment,
        value % alignment == 0 ==> align_up_spec(value, alignment) == value,
{
    reveal(align_down_spec);
    lemma_align_down(value + alignment - 1, alignment);
    if value % alignment == 0 {
        vstd::arithmetic::div_mod::lemma_fundamental_div_mod(value, alignment);
        vstd::arithmetic::div_mod::lemma_fundamental_div_mod(value + alignment - 1, alignment);
        vstd::arithmetic::div_mod::lemma_mod_multiples_vanish(value / alignment, alignment - 1, alignment);
        vstd::arithmetic::mul::lemma_mul_is_commutative(alignment, value / alignment);
        vstd::arithmetic::div_mod::lemma_small_mod((alignment - 1) as nat, alignment as nat);
    }
}

/// Two multiples of the alignment in order differ by at least the alignment.
pub proof fn lemma_multiples_apart(a: int, b: int, alignment: int)
    requires
        alignment > 0,
        a % alignment == 0,
        b % alignment == 0,
        a < b,
    ensures
        a + alignment <= b,
{
    vstd::arithmetic::div_mod::lemma_fundamental_div_mod(a, alignment);
    vstd::arithmetic::div_mod::lemma_fundamental_div_mod(b, alignment);
    vstd::arithmetic::mul::lemma_mul_is_commutative(alignment, a / alignment);
    vstd::arithmetic::mul::lemma_mul_is_commutative(alignment, b / alignment);
    vstd::arithmetic::mul::lemma_mul_strict_inequality_converse(a / alignment, b / alignment, alignment);
    vstd::arithmetic::mul::lemma_mul_is_distributive_add_other_way(alignment, a / alignment, 1);
    vstd::arithmetic::mul::lemma_mul_inequality(a / alignment + 1, b / alignment, alignment);
}

/// A power of two is positive.
pub proof fn lemma_pow2_positive(n: u64)
    requires
        is_pow2(n),
    ensures
        n > 0,
{
    let k = choose|k: nat| k < 64 && n == pow2(k);
    vstd::arithmetic::power2::lemma_pow2_pos(k);
}

/// Past the top of the 64-bit range, rounding up leaves it too.
pub proof fn lemma_align_up_past_max(value: u64, alignment: u64)
    requires
        is_pow2(alignment),
        value + alignment - 1 > u64::MAX,
    ensures
        align_up_spec(value as int, alignment as int) > u64::MAX,
{
    let k = choose|k: nat| k < 64 && alignment == pow2(k);
    lemma_pow2_positive(alignment);
    vstd::arithmetic::power2::lemma_pow2_adds(k, (64 - k) as nat);
    vstd::arithmetic::power2::lemma2_to64();
    vstd::arithmetic::power2::lemma_pow2_pos((64 - k) as nat);
    let top = pow2(64) as int;
    assert(top % (alignment as int) == 0) by {
        vstd::arithmetic::div_mod::lemma_mod_multiples_basic(pow2((64 - k) as nat) as int, alignment as int);
        vstd::arithmetic::mul::lemma_mul_is_commutative(alignment as int, pow2((64 - k) as nat) as int);
    }
    assert((top - alignment) % (alignment as int) == 0) by {
        vstd::arithmetic::div_mod::lemma_mod_sub_multiples_vanish(top, alignment as int);
    }
    lemma_align_up(value as int, alignment as int);
    let r = align_up_spec(value as int, alignment as int);
    if r < top {
        if r > top - alignment {
            lemma_multiples_apart(top - alignment, r, alignment as int);
        }
    }
}

/// Of two powers of two, the smaller divides the larger.
pub proof fn lemma_pow2_divides(a: u64, b: u64)
    requires
        is_pow2(a),
        is_pow2(b),
        a <= b,
    ensures
        b % a == 0,
{
    let i = choose|k: nat| k < 64 && a == pow2(k);
    let j = choose|k: nat| k < 64 && b == pow2(k);
    if i > j {
        vstd::arithmetic::power2::lemma_pow2_strictly_increases(j, i);
    }
    vstd::arithmetic::power2::lemma_pow2_adds(i, (j - i) as nat);
    vstd::arithmetic::power2::lemma_pow2_pos(i);
    vstd::arithmetic::div_mod::lemma_mod_multiples_basic(pow2((j - i) as nat) as int, a as int);
    vstd::arithmetic::mul::lemma_mul_is_commutative(a as int, pow2((j - i) as nat) as int);
}

/// A multiple of a multiple of `a` is a multiple of `a`.
pub proof fn lemma_mod_trans(x: int, b: int, a: int)
    requires
        a > 0,
        b > 0,
        x % b == 0,
        b % a == 0,
    ensures
        x % a == 0,
{
    vstd::arithmetic::div_mod::lemma_fundamental_div_mod(x, b);
    vstd::arithmetic::div_mod::lemma_fundamental_div_mod(b, a);
    vstd::arithmetic::mul::lemma_mul_is_associative(a, b / a, x / b);
    vstd::arithmetic::div_mod::lemma_mod_multiples_basic((b / a) * (x / b), a);
    vstd::arithmetic::mul::lemma_mul_is_commutative(a, (b / a) * (x / b));
}

proof fn lemma_mask_is_mod(value: u64, alignment: u64)
    requires
        is_pow2(alignment),
    ensures
        value & !((alignment - 1) as u64) == value - value % alignment,
{
    let k = choose|k: nat| k < 64 && alignment == pow2(k);
    lemma_pow2_positive(alignment);
    let m = (alignment - 1) as u64;
    lemma_u64_low_bits_mask_is_mod(value, k);
    assert(value & !m == value - (value & m)) by (bit_vector);
}

/// Rounds `value` down to a multiple of `alignment`.
pub fn align_down(value: u64, alignment: u64) -> (r: u64)
    requires
        is_pow2(alignment),
    ensures
        r == align_down_spec(value as int, alignment as int),
        r <= value,
        r % alignment == 0,
{
    proof {
        reveal(align_down_spec);
        lemma_pow2_positive(alignment);
        lemma_mask_is_mod(value, alignment);
        lemma_align_down(value as int, alignment as int);
    }
    value & !(alignment - 1)
}

/// Rounds `value` up to a multiple of `alignment`.
pub fn align_up(value: u64, alignment: u64) -> (r: u64)
    requires
        is_pow2(alignment),
        value + alignment - 1 <= u64::MAX,
    ensures
        r == align_up_spec(value as int, alignment as int),
        value <= r < value + alignment,
        r % alignment == 0,
{
    proof {
        lemma_pow2_positive(alignment);
        lemma_align_up(value as int, alignment as int);
    }
    align_down(value + (alignment - 1), alignment)
}

/// Whether the last byte of `[offset_a, offset_a + size_a)` lies on the same
/// page of `granularity` bytes as the byte at `offset_b`, or on a later one.
pub fn is_on_same_page(offset_a: u64, size_a: u64, offset_b: u64, granularity: u64) -> (r: bool)
    requires
        is_pow2(granularity),
        size_a > 0,
        offset_a + size_a <= u64::MAX + 1,
    ensures
        r == same_page_spec(offset_a as int, size_a as int, offset_b as int, granularity as int),
{
    let end_a = offset_a + (size_a - 1);
    let end_page_a = align_down(end_a, granularity);
    let start_page_b = align_down(offset_b, granularity);
    end_page_a >= start_page_b
}

} // verus!
