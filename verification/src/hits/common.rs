use vstd::prelude::*;
use crate::bitboard::Bitboard;
use crate::bits::bit;
use crate::position::{lemma_ray_step, ray_len, step_to};
use crate::types::{can_step, Direction, Square};

verus! {

/// The lowest set bit of a word, as a word.
pub open spec fn lowest_bit(m: u64) -> u64 {
    m & ((!m).wrapping_add(1))
}

/// A word without its lowest set bit.
pub open spec fn without_lowest(m: u64) -> u64 {
    m & (m.wrapping_sub(1))
}

pub proof fn lemma_lowest(m: u64, v: u64)
    by (bit_vector)
    requires
        m != 0,
    ensures
        m & (m.wrapping_sub(1)) < m,
        m & (m.wrapping_sub(1)) == m & ((m - 1) as u64),
        m & ((!m).wrapping_add(1)) != 0,
        (m & (m.wrapping_sub(1))) + (m & ((!m).wrapping_add(1))) == m,
        (v & m) == (v & (m & ((!m).wrapping_add(1)))) + (v & (m & (m.wrapping_sub(1)))),
        (v & (m & ((!m).wrapping_add(1)))) == 0 || (v & (m & ((!m).wrapping_add(1)))) == (m & ((
        !m).wrapping_add(1))),
        (m & (m.wrapping_sub(1))) != 0 ==> (m & (m.wrapping_sub(1))) & ((!(m & (m.wrapping_sub(
            1,
        )))).wrapping_add(1)) >= 2 * (m & ((!m).wrapping_add(1))),
        m & ((!m).wrapping_add(1)) <= 0x8000_0000_0000_0000,
{
}

proof fn lemma_halves(m: u64)
    by (bit_vector)
    requires
        m != 0,
    ensures
        m % 2 == 1 ==> m & (m.wrapping_sub(1)) == m - 1,
        m % 2 == 0 ==> (m & (m.wrapping_sub(1))) % 2 == 0 && (m & (m.wrapping_sub(1))) / 2 == (m
            / 2) & ((m / 2).wrapping_sub(1)),
        m % 2 == 0 ==> m / 2 != 0,
{
}

/// A mask has as many subsets as its half, and twice as many if it is odd.
proof fn lemma_subsets_half(mask: u64)
    ensures
        mask % 2 == 0 ==> subsets(mask) == subsets(mask / 2),
        mask % 2 == 1 ==> subsets(mask) == 2 * subsets(mask / 2),
    decreases mask,
{
    if mask != 0 {
        lemma_lowest(mask, 0);
        lemma_halves(mask);
        let rest = without_lowest(mask);
        lemma_subsets_half(rest);
        if mask % 2 == 0 {
            lemma_lowest(mask / 2, 0);
            assert(rest / 2 == without_lowest(mask / 2));
            assert(subsets(mask / 2) == 2 * subsets(without_lowest(mask / 2)));
        } else {
            assert(rest / 2 == mask / 2);
        }
    }
}

/// A mask has no more subsets than it is large as a number, and one.
pub proof fn lemma_subsets_bound(mask: u64)
    ensures
        1 <= subsets(mask) <= mask + 1,
    decreases mask,
{
    if mask != 0 {
        lemma_subsets_half(mask);
        lemma_subsets_bound(mask / 2);
    }
}

/// The word that has, in the places of the set bits of `mask` from the
/// lowest up, the bits of `v` from the lowest up, and no other bit.
pub open spec fn deposit(v: u64, mask: u64) -> int
    decreases mask,
    via deposit_decreases
{
    if mask == 0 {
        0
    } else {
        (if v % 2 == 1 {
            lowest_bit(mask) as int
        } else {
            0int
        }) + deposit(v / 2, without_lowest(mask))
    }
}

#[via_fn]
proof fn deposit_decreases(v: u64, mask: u64) {
    if mask != 0 {
        lemma_lowest(mask, 0);
    }
}

/// The number that has as its bits, from the lowest up, the bits that `v`
/// has in the places of the set bits of `mask`, from the lowest up.
pub open spec fn extract(v: u64, mask: u64) -> int
    decreases mask,
    via extract_decreases
{
    if mask == 0 {
        0
    } else {
        (if v & lowest_bit(mask) != 0 {
            1int
        } else {
            0int
        }) + 2 * extract(v, without_lowest(mask))
    }
}

#[via_fn]
proof fn extract_decreases(v: u64, mask: u64) {
    if mask != 0 {
        lemma_lowest(mask, 0);
    }
}

/// The number of words that have no bit outside `mask`.
pub open spec fn subsets(mask: u64) -> int
    decreases mask,
    via subsets_decreases
{
    if mask == 0 {
        1
    } else {
        2 * subsets(without_lowest(mask))
    }
}

#[via_fn]
proof fn subsets_decreases(mask: u64) {
    if mask != 0 {
        lemma_lowest(mask, 0);
    }
}

/// What is extracted is a number below the number of subsets, and
/// depositing it gives the bits of the word under the mask back.
pub proof fn lemma_extract_deposit(v: u64, mask: u64)
    ensures
        0 <= extract(v, mask) < subsets(mask),
        0 <= deposit(v, mask) <= mask,
        extract(v, mask) <= u64::MAX ==> deposit(extract(v, mask) as u64, mask) == (v & mask) as int,
    decreases mask,
{
    if mask == 0 {
        assert(v & 0 == 0) by (bit_vector);
    } else {
        lemma_lowest(mask, v);
        let rest = without_lowest(mask);
        lemma_extract_deposit(v, rest);
        lemma_extract_deposit(v / 2, rest);
        let e = extract(v, mask);
        if e <= u64::MAX {
            let r = extract(v, rest);
            assert(e as u64 / 2 == r);
            assert((e as u64 % 2 == 1) == (v & lowest_bit(mask) != 0));
        }
    }
}

/// Depositing any number gives a word with no bit outside the mask.
pub proof fn lemma_deposit_bound(v: u64, mask: u64)
    ensures
        0 <= deposit(v, mask) <= mask,
    decreases mask,
{
    if mask != 0 {
        lemma_lowest(mask, v);
        lemma_deposit_bound(v / 2, without_lowest(mask));
    }
}

/// The bits of `v`, from the lowest up, set down in the places of the
/// set bits of `mask`, from the lowest up.
pub fn pdep(v: u64, mask: u64) -> (r: u64)
    ensures
        r == deposit(v, mask),
{
    let mut m = mask;
    let mut w = v;
    let mut x: u64 = 0;
    while m != 0
        invariant
            deposit(v, mask) == x + deposit(w, m),
            x + m <= mask,
        decreases m,
    {
        proof {
            lemma_lowest(m, 0);
        }
        if w % 2 == 1 {
            x = x + (m & (!m).wrapping_add(1));
        }
        w = w / 2;
        m = m & (m - 1);
    }
    x
}

/// The bits that `v` has in the places of the set bits of `mask`, from
/// the lowest up, as the bits of a number, from the lowest up.
pub fn pext(v: u64, mask: u64) -> (r: u64)
    ensures
        r == extract(v, mask),
{
    let mut m = mask;
    let mut res: u64 = 0;
    let mut scale: u64 = 1;
    proof {
        if m != 0 {
            lemma_lowest(m, 0);
            assert(lowest_bit(m) >= 1);
        }
        assert(1 * extract(v, m) == extract(v, m));
    }
    while m != 0
        invariant
            extract(v, mask) == res + scale * extract(v, m),
            m != 0 ==> scale <= lowest_bit(m),
            m != 0 ==> res < scale,
        decreases m,
    {
        let ghost e = extract(v, m);
        let ghost rest = extract(v, without_lowest(m));
        let ghost old_scale = scale as int;
        let ghost old_res = res as int;
        proof {
            lemma_lowest(m, v);
        }
        let low = m & (!m).wrapping_add(1);
        let hit = v & low != 0;
        if hit {
            res = res + scale;
        }
        m = m & (m - 1);
        if m != 0 {
            scale = scale * 2;
        }
        proof {
            let b = if hit {
                1int
            } else {
                0int
            };
            assert(e == b + 2 * rest);
            assert(old_scale * (b + 2 * rest) == old_scale * b + (2 * old_scale) * rest)
                by (nonlinear_arith);
            if m == 0 {
                assert(rest == 0);
                assert(scale * rest == 0);
            }
        }
    }
    res
}

/// Whether square `j` lies on a ray from square `i`, before the last square of the ray.
pub open spec fn on_inner_ray(i: int, j: int) -> bool {
    exists|dir: Direction, k: int| 1 <= k < ray_len(i, dir) && j == #[trigger] step_to(i, dir, k)
}

/// The squares that the end of a ray from `sq` may depend on: those of
/// the four rays from `sq` but the last of each, where the ray ends whether
/// the square is a blocker or not.
pub fn generate_mask(sq: Square) -> (r: u64)
    requires
        sq.wf(),
    ensures
        r <= crate::bitboard::BOARD_MASK,
        forall|j: int| 0 <= j < 36 ==> (bit(r, j) <==> on_inner_ray(sq.index(), j)),
{
    let mut mask = Bitboard::empty();
    let mut d: u8 = 0;
    while d < 4
        invariant
            d <= 4,
            sq.wf(),
            mask.wf(),
            forall|j: int|
                mask.contains(j) <==> exists|dir: Direction, k: int|
                    dir.index() < d && 1 <= k < ray_len(sq.index(), dir) && j == #[trigger] step_to(
                        sq.index(),
                        dir,
                        k,
                    ),
        decreases 4 - d,
    {
        let dir = Direction::from_raw(d).unwrap();
        let inner = ray_inner(sq, dir);
        let ghost before = mask;
        mask = mask.or(inner);
        proof {
            assert forall|j: int| mask.contains(j) <==> exists|dir2: Direction, k: int|
                dir2.index() < d + 1 && 1 <= k < ray_len(sq.index(), dir2) && j == #[trigger] step_to(
                    sq.index(),
                    dir2,
                    k,
                ) by {
                if inner.contains(j) {
                    let k = choose|k: int|
                        1 <= k < ray_len(sq.index(), dir) && j == step_to(sq.index(), dir, k);
                    assert(dir.index() < d + 1 && j == step_to(sq.index(), dir, k));
                }
                if before.contains(j) {
                    let (dir2, k) = choose|dir2: Direction, k: int|
                        dir2.index() < d && 1 <= k < ray_len(sq.index(), dir2) && j
                            == #[trigger] step_to(sq.index(), dir2, k);
                    assert(dir2.index() < d + 1 && j == step_to(sq.index(), dir2, k));
                }
                if exists|dir2: Direction, k: int|
                    dir2.index() < d + 1 && 1 <= k < ray_len(sq.index(), dir2) && j
                        == #[trigger] step_to(sq.index(), dir2, k) {
                    let (dir2, k) = choose|dir2: Direction, k: int|
                        dir2.index() < d + 1 && 1 <= k < ray_len(sq.index(), dir2) && j
                            == #[trigger] step_to(sq.index(), dir2, k);
                    if dir2.index() < d {
                        assert(before.contains(j));
                    } else {
                        assert(dir2 == dir);
                        assert(inner.contains(j));
                    }
                }
            }
        }
        d += 1;
    }
    proof {
        assert forall|j: int| 0 <= j < 36 implies (bit(mask.raw, j) <==> on_inner_ray(
            sq.index(),
            j,
        )) by {
            if on_inner_ray(sq.index(), j) {
                let (dir, k) = choose|dir: Direction, k: int|
                    1 <= k < ray_len(sq.index(), dir) && j == #[trigger] step_to(sq.index(), dir, k);
                assert(dir.index() < 4 && j == step_to(sq.index(), dir, k));
            }
            if mask.contains(j) {
                let (dir, k) = choose|dir: Direction, k: int|
                    dir.index() < 4 && 1 <= k < ray_len(sq.index(), dir) && j == #[trigger] step_to(
                        sq.index(),
                        dir,
                        k,
                    );
                assert(1 <= k < ray_len(sq.index(), dir) && j == step_to(sq.index(), dir, k));
            }
        }
    }
    mask.raw()
}

/// The squares of the ray from `sq` in direction `dir` but the last.
fn ray_inner(sq: Square, dir: Direction) -> (r: Bitboard)
    requires
        sq.wf(),
    ensures
        r.wf(),
        forall|j: int|
            r.contains(j) <==> exists|k: int|
                1 <= k < ray_len(sq.index(), dir) && j == #[trigger] step_to(sq.index(), dir, k),
{
    let mut dir_bb = Bitboard::empty();
    let mut cur = sq;
    let ghost mut n: int = 0;
    loop
        invariant_except_break
            sq.wf(),
            cur.wf(),
            dir_bb.wf(),
            0 <= n <= ray_len(sq.index(), dir),
            cur.index() == step_to(sq.index(), dir, n),
            forall|j: int|
                dir_bb.contains(j) <==> exists|k: int|
                    1 <= k <= n && j == #[trigger] step_to(sq.index(), dir, k),
        ensures
            dir_bb.wf(),
            n == ray_len(sq.index(), dir),
            cur.index() == step_to(sq.index(), dir, n),
            forall|j: int|
                dir_bb.contains(j) <==> exists|k: int|
                    1 <= k <= n && j == #[trigger] step_to(sq.index(), dir, k),
        decreases ray_len(sq.index(), dir) - n,
    {
        proof {
            if n < ray_len(sq.index(), dir) {
                lemma_ray_step(sq.index(), dir, n);
            }
            lemma_ray_end(sq.index(), dir, n);
        }
        match cur.shift_checked(dir) {
            None => {
                break ;
            },
            Some(shifted) => {
                let ghost before = dir_bb;
                dir_bb.set_sq(shifted);
                proof {
                    assert forall|j: int| dir_bb.contains(j) <==> exists|k: int|
                        1 <= k <= n + 1 && j == #[trigger] step_to(sq.index(), dir, k) by {
                        if before.contains(j) {
                            let k = choose|k: int|
                                1 <= k <= n && j == #[trigger] step_to(sq.index(), dir, k);
                            assert(1 <= k <= n + 1 && j == step_to(sq.index(), dir, k));
                        }
                        if j == shifted.index() {
                            assert(j == step_to(sq.index(), dir, n + 1));
                        }
                        if exists|k: int|
                            1 <= k <= n + 1 && j == #[trigger] step_to(sq.index(), dir, k) {
                            let k = choose|k: int|
                                1 <= k <= n + 1 && j == #[trigger] step_to(sq.index(), dir, k);
                            if k <= n {
                                assert(before.contains(j));
                            }
                        }
                    }
                    n = n + 1;
                }
                cur = shifted;
            },
        }
    }
    let edge = Bitboard::edge(dir);
    let r = without(dir_bb, edge);
    proof {
        assert forall|j: int| r.contains(j) <==> exists|k: int|
            1 <= k < ray_len(sq.index(), dir) && j == #[trigger] step_to(sq.index(), dir, k) by {
            if r.contains(j) {
                let k = choose|k: int| 1 <= k <= n && j == #[trigger] step_to(sq.index(), dir, k);
                lemma_ray_end(sq.index(), dir, k);
                assert(1 <= k < ray_len(sq.index(), dir) && j == step_to(sq.index(), dir, k));
            }
            if exists|k: int|
                1 <= k < ray_len(sq.index(), dir) && j == #[trigger] step_to(sq.index(), dir, k) {
                let k = choose|k: int|
                    1 <= k < ray_len(sq.index(), dir) && j == #[trigger] step_to(sq.index(), dir, k);
                lemma_ray_step(sq.index(), dir, k);
                lemma_ray_end(sq.index(), dir, k);
                assert(1 <= k <= n && j == step_to(sq.index(), dir, k));
                assert(dir_bb.contains(j));
            }
        }
    }
    r
}

/// The squares of `a` that are not in `b`.
fn without(a: Bitboard, b: Bitboard) -> (r: Bitboard)
    requires
        a.wf(),
    ensures
        r.wf(),
        forall|j: int| r.contains(j) <==> (a.contains(j) && !b.contains(j)),
{
    a.and(b.cmpl())
}

/// The last square of a ray is the one from which no step can be made.
pub proof fn lemma_ray_end(i: int, dir: Direction, k: int)
    requires
        0 <= i < 36,
        0 <= k <= ray_len(i, dir),
    ensures
        0 <= step_to(i, dir, k) < 36,
        can_step(step_to(i, dir, k), dir) <==> k < ray_len(i, dir),
{
}

} // verus!
