use vstd::prelude::*;

verus! {

/// Whether bit `i` of `x` is set. Bits outside 0..64 are not set.
pub open spec fn bit(x: u64, i: int) -> bool {
    0 <= i < 64 && (x >> (i as u64)) & 1 == 1
}

/// The number of bits set in `x`.
pub open spec fn ones_in(x: u64) -> nat
    decreases x,
{
    if x == 0 {
        0
    } else {
        (x % 2) as nat + ones_in(x / 2)
    }
}

/// `u64::count_ones` returns the number of bits set in its argument.
pub assume_specification[ u64::count_ones ](x: u64) -> (r: u32)
    ensures
        r == ones_in(x),
;

pub proof fn lemma_count_ones_bound(x: u64, k: nat)
    requires
        k <= 64,
        x < vstd::arithmetic::power2::pow2(k),
    ensures
        ones_in(x) <= k,
    decreases x,
{
    vstd::arithmetic::power2::lemma2_to64();
    if x == 0 {
    } else {
        assert(k > 0) by {
            if k == 0 {
                assert(vstd::arithmetic::power2::pow2(0) == 1);
            }
        }
        vstd::arithmetic::power2::lemma_pow2_unfold(k);
        lemma_count_ones_bound(x / 2, (k - 1) as nat);
    }
}

pub proof fn lemma_count_ones_le_64(x: u64)
    ensures
        ones_in(x) <= 64,
{
    vstd::arithmetic::power2::lemma2_to64();
    lemma_count_ones_bound(x, 64);
}

pub proof fn lemma_bit_and_or_xor(a: u64, b: u64, j: u64)
    by (bit_vector)
    requires
        j < 64,
    ensures
        ((a & b) >> j) & 1 == 1 <==> ((a >> j) & 1 == 1 && (b >> j) & 1 == 1),
        ((a | b) >> j) & 1 == 1 <==> ((a >> j) & 1 == 1 || (b >> j) & 1 == 1),
        ((a ^ b) >> j) & 1 == 1 <==> (((a >> j) & 1 == 1) != ((b >> j) & 1 == 1)),
        ((!a) >> j) & 1 == 1 <==> !((a >> j) & 1 == 1),
{
}

pub proof fn lemma_bit_single(a: u64, s: u64, j: u64)
    by (bit_vector)
    requires
        j < 64,
        s < 64,
    ensures
        ((1u64 << s) >> j) & 1 == 1 <==> j == s,
        ((a | (1u64 << s)) >> j) & 1 == 1 <==> (j == s || (a >> j) & 1 == 1),
        ((a & !(1u64 << s)) >> j) & 1 == 1 <==> (j != s && (a >> j) & 1 == 1),
        ((a ^ (1u64 << s)) >> j) & 1 == 1 <==> ((j == s) != ((a >> j) & 1 == 1)),
        (a & (1u64 << s)) != 0 <==> (a >> s) & 1 == 1,
{
}

pub proof fn lemma_bit_shifts(a: u64, s: u64, j: u64)
    by (bit_vector)
    requires
        j < 64,
        s < 64,
    ensures
        ((a >> s) >> j) & 1 == 1 <==> (j + s < 64 && (a >> ((j + s) as u64)) & 1 == 1),
        ((a << s) >> j) & 1 == 1 <==> (j >= s && (a >> ((j - s) as u64)) & 1 == 1),
{
}

pub proof fn lemma_low_mask(a: u64, m: u64, j: u64)
    by (bit_vector)
    requires
        j < 64,
        m < 64,
    ensures
        ((a & (((1u64 << m) - 1) as u64)) >> j) & 1 == 1 <==> (j < m && (a >> j) & 1 == 1),
        a & (((1u64 << m) - 1) as u64) < (1u64 << m),
{
}

pub proof fn lemma_clear_lowest(a: u64, t: u64)
    by (bit_vector)
    requires
        t < 64,
        (a >> t) & 1 == 1,
        t > 0 ==> a << ((64 - t) as u64) == 0,
    ensures
        a != 0,
        a & ((a - 1) as u64) == a & !(1u64 << t),
        a & ((a - 1) as u64) < a,
{
}

pub proof fn lemma_zero_has_no_bit(j: u64)
    by (bit_vector)
    requires
        j < 64,
    ensures
        (0u64 >> j) & 1 == 0,
{
}

/// Cutting a word with no bit at or above `h` at bit `m`.
pub proof fn lemma_split(a: u64, h: u64, m: u64, j: u64)
    by (bit_vector)
    requires
        h < 64,
        m <= h,
        j < 64,
        a >> h == 0,
    ensures
        (a >> m) >> ((h - m) as u64) == 0,
        (a & (((1u64 << m) - 1) as u64)) >> m == 0,
        j >= h ==> (a >> j) & 1 == 0,
        m == 0 ==> a & (((1u64 << m) - 1) as u64) == 0,
{
}

/// Setting `b` on top of a word `a` that has no bit at or above `h`.
pub proof fn lemma_join(a: u64, b: u64, h: u64, n: u64, j: u64)
    by (bit_vector)
    requires
        h < 64,
        n < 64,
        h + n < 64,
        j < 64,
        a >> h == 0,
        b >> n == 0,
    ensures
        (a | (b << h)) >> ((h + n) as u64) == 0,
        j < h ==> (((a | (b << h)) >> j) & 1 == 1 <==> (a >> j) & 1 == 1),
        j >= h ==> (((a | (b << h)) >> j) & 1 == 1 <==> (b >> ((j - h) as u64)) & 1 == 1),
{
}

/// The lowest bit of a word, and a word of one bit.
pub proof fn lemma_low_bit(a: u64, j: u64)
    by (bit_vector)
    requires
        j < 64,
    ensures
        a & 1 == 0 || a & 1 == 1,
        (a >> j) & 1 == 0 || (a >> j) & 1 == 1,
        (a & 1) >> 1 == 0,
        (a >> 0) & 1 == a & 1,
        0u64 >> j == 0,
        1u64 >> 1 == 0,
        (0u64 >> 0) & 1 == 0,
        (1u64 >> 0) & 1 == 1,
        (1u64 << j) >= 1,
{
}

} // verus!
