use vstd::prelude::*;

verus! {

pub proof fn lemma_xor_laws(x: u64, a: u64, b: u64, t: u64)
    by (bit_vector)
    ensures
        x ^ 0 == x,
        0 ^ x == x,
        x ^ x == 0,
        x ^ a == a ^ x,
        (x ^ a) ^ a == x,
        ((x ^ a) ^ a) ^ b == x ^ b,
        ((x ^ a) ^ b) ^ t == ((x ^ t) ^ a) ^ b,
        (x ^ a) ^ b == x ^ (a ^ b),
        (x ^ a) ^ (b ^ t) == ((x ^ a) ^ b) ^ t,
        (x ^ a) ^ (a ^ b) == x ^ b,
{
}

/// The words `f(0)`, ..., `f(n - 1)` combined by exclusive or.
pub open spec fn xor_upto(f: spec_fn(int) -> u64, n: int) -> u64
    decreases n,
{
    if n <= 0 {
        0
    } else {
        xor_upto(f, n - 1) ^ f(n - 1)
    }
}

pub proof fn lemma_xor_upto_same(f: spec_fn(int) -> u64, g: spec_fn(int) -> u64, n: int)
    requires
        forall|j: int| 0 <= j < n ==> #[trigger] f(j) == g(j),
    ensures
        xor_upto(f, n) == xor_upto(g, n),
    decreases n,
{
    if n > 0 {
        lemma_xor_upto_same(f, g, n - 1);
    }
}

/// Changing one word of the combination takes the old word out and puts the new one in.
pub proof fn lemma_xor_upto_change(
    f: spec_fn(int) -> u64,
    g: spec_fn(int) -> u64,
    n: int,
    i: int,
)
    requires
        0 <= i < n,
        forall|j: int| 0 <= j < n && j != i ==> #[trigger] f(j) == g(j),
    ensures
        xor_upto(g, n) == (xor_upto(f, n) ^ f(i)) ^ g(i),
    decreases n,
{
    if i == n - 1 {
        lemma_xor_upto_same(f, g, n - 1);
        lemma_xor_laws(xor_upto(f, n - 1), f(i), g(i), 0);
    } else {
        lemma_xor_upto_change(f, g, n - 1, i);
        lemma_xor_laws(xor_upto(f, n - 1), f(i), g(i), f(n - 1));
    }
}

/// The sum of `f(0)`, ..., `f(n - 1)`.
pub open spec fn sum_upto(f: spec_fn(int) -> int, n: int) -> int
    decreases n,
{
    if n <= 0 {
        0
    } else {
        sum_upto(f, n - 1) + f(n - 1)
    }
}

pub proof fn lemma_sum_upto_same(f: spec_fn(int) -> int, g: spec_fn(int) -> int, n: int)
    requires
        forall|j: int| 0 <= j < n ==> #[trigger] f(j) == g(j),
    ensures
        sum_upto(f, n) == sum_upto(g, n),
    decreases n,
{
    if n > 0 {
        lemma_sum_upto_same(f, g, n - 1);
    }
}

pub proof fn lemma_sum_upto_change(
    f: spec_fn(int) -> int,
    g: spec_fn(int) -> int,
    n: int,
    i: int,
)
    requires
        0 <= i < n,
        forall|j: int| 0 <= j < n && j != i ==> #[trigger] f(j) == g(j),
    ensures
        sum_upto(g, n) == sum_upto(f, n) - f(i) + g(i),
    decreases n,
{
    if i == n - 1 {
        lemma_sum_upto_same(f, g, n - 1);
    } else {
        lemma_sum_upto_change(f, g, n - 1, i);
    }
}

/// A sum of terms that are not negative is at least as large as each of them.
pub proof fn lemma_sum_upto_bounds(f: spec_fn(int) -> int, n: int, i: int)
    requires
        0 <= i < n,
        forall|j: int| 0 <= j < n ==> #[trigger] f(j) >= 0,
    ensures
        f(i) <= sum_upto(f, n),
        0 <= sum_upto(f, n),
    decreases n,
{
    if n > 0 {
        assert(f(n - 1) >= 0);
        if i < n - 1 {
            lemma_sum_upto_bounds(f, n - 1, i);
        } else if n - 1 > 0 {
            lemma_sum_upto_bounds(f, n - 1, 0);
        }
    }
}

pub proof fn lemma_xor_upto_zero(f: spec_fn(int) -> u64, n: int)
    requires
        forall|j: int| 0 <= j < n ==> #[trigger] f(j) == 0,
    ensures
        xor_upto(f, n) == 0,
    decreases n,
{
    if n > 0 {
        lemma_xor_upto_zero(f, n - 1);
        assert(f(n - 1) == 0);
        lemma_xor_laws(0, 0, 0, 0);
    }
}

pub proof fn lemma_sum_upto_zero(f: spec_fn(int) -> int, n: int)
    requires
        forall|j: int| 0 <= j < n ==> #[trigger] f(j) == 0,
    ensures
        sum_upto(f, n) == 0,
    decreases n,
{
    if n > 0 {
        lemma_sum_upto_zero(f, n - 1);
        assert(f(n - 1) == 0);
    }
}

/// A sum can be taken from its first term on as well as from its last.
pub proof fn lemma_sum_upto_front(f: spec_fn(int) -> int, g: spec_fn(int) -> int, n: int)
    requires
        n >= 1,
        forall|j: int| 0 <= j < n - 1 ==> #[trigger] g(j) == f(j + 1),
    ensures
        sum_upto(f, n) == f(0) + sum_upto(g, n - 1),
    decreases n,
{
    if n > 1 {
        lemma_sum_upto_front(f, g, n - 1);
        assert(g(n - 2) == f(n - 1));
    } else {
        assert(sum_upto(f, 0) == 0);
        assert(sum_upto(g, 0) == 0);
    }
}

/// A sum is no larger than a sum of terms that are each no smaller.
pub proof fn lemma_sum_le(f: spec_fn(int) -> int, g: spec_fn(int) -> int, n: int)
    requires
        forall|j: int| 0 <= j < n ==> #[trigger] f(j) <= g(j),
    ensures
        sum_upto(f, n) <= sum_upto(g, n),
    decreases n,
{
    if n > 0 {
        lemma_sum_le(f, g, n - 1);
        assert(f(n - 1) <= g(n - 1));
    }
}


} // verus!
