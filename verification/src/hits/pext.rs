use vstd::prelude::*;
use crate::bitboard::{Bitboard, BOARD_MASK};
use crate::bits::{bit, lemma_bit_and_or_xor};
use crate::hits::common::{
    deposit,
    extract,
    generate_mask,
    lemma_deposit_bound,
    lemma_extract_deposit,
    lemma_lowest,
    lemma_subsets_bound,
    on_inner_ray,
    pdep,
    pext,
    subsets,
    without_lowest,
};
use crate::hits::naive::find_hits_naive;
use crate::hits::{hits_match, ray_walk, Hit};
use crate::position::{lemma_ray_step, ray_len, step_to};
use crate::types::{can_step, Direction, Square};

verus! {

/// Where the ends of the rays from one square are kept: the squares that
/// they depend on, and the place of the square's first entry in the table.
#[derive(Clone, Copy, Debug)]
pub struct SquareData {
    pub mask: u64,
    pub offset: usize,
}

impl SquareData {
    pub fn new() -> (r: SquareData)
        ensures
            r.mask == 0,
            r.offset == 0,
    {
        SquareData { mask: 0, offset: 0 }
    }
}

/// The ends of the rays from every square for every set of blockers on
/// the squares that they depend on.
pub struct HitTable {
    pub squares: Vec<SquareData>,
    pub hits: Vec<[Hit; 4]>,
}

/// Two sets of blockers that agree on the squares of a ray but the last end the ray alike.
pub proof fn lemma_walk_same(a: Bitboard, b: Bitboard, start: int, dir: Direction)
    requires
        0 <= start < 36,
        forall|k: int|
            1 <= k < ray_len(start, dir) ==> (a.contains(#[trigger] step_to(start, dir, k))
                <==> b.contains(step_to(start, dir, k))),
    ensures
        ray_walk(a, start, dir) == ray_walk(b, start, dir),
    decreases ray_len(start, dir),
{
    if can_step(start, dir) {
        lemma_ray_step(start, dir, 0);
        let next = start + dir.delta();
        assert(next == step_to(start, dir, 1));
        if ray_len(start, dir) == 1 {
            assert(!can_step(next, dir));
            assert(ray_walk(a, next, dir) == (0int, next));
            assert(ray_walk(b, next, dir) == (0int, next));
        } else {
            assert(a.contains(step_to(start, dir, 1)) <==> b.contains(step_to(start, dir, 1)));
            assert forall|k: int| 1 <= k < ray_len(next, dir) implies (a.contains(
                #[trigger] step_to(next, dir, k),
            ) <==> b.contains(step_to(next, dir, k))) by {
                assert(step_to(next, dir, k) == step_to(start, dir, k + 1));
            }
            lemma_walk_same(a, b, next, dir);
        }
    }
}

impl HitTable {
    /// The entry of square `i` numbered `idx` holds the ends of the rays
    /// from `i` for the blockers that `idx` stands for.
    pub open spec fn entry_ok(&self, i: int, idx: int) -> bool {
        hits_match(
            self.hits@[self.squares@[i].offset + idx],
            Bitboard { raw: deposit(idx as u64, self.squares@[i].mask) as u64 },
            i,
        )
    }

    /// The table knows of square `i` the squares that its rays depend on
    /// and has an entry for each set of them.
    pub open spec fn square_ok(&self, i: int) -> bool {
        let data = self.squares@[i];
        &&& data.mask <= BOARD_MASK
        &&& forall|j: int| 0 <= j < 36 ==> (bit(data.mask, j) <==> on_inner_ray(i, j))
        &&& data.offset + subsets(data.mask) <= self.hits@.len()
        &&& forall|idx: int| 0 <= idx < subsets(data.mask) ==> #[trigger] self.entry_ok(i, idx)
    }

    pub open spec fn wf(&self) -> bool {
        &&& self.squares@.len() == 36
        &&& forall|i: int| 0 <= i < 36 ==> #[trigger] self.square_ok(i)
    }

    /// Fills the table by walking every ray for every set of blockers.
    pub fn new() -> (r: HitTable)
        ensures
            r.wf(),
    {
        let mut table = HitTable { squares: Vec::new(), hits: Vec::new() };
        let mut i: u8 = 0;
        while i < 36
            invariant
                i <= 36,
                table.squares@.len() == i,
                forall|k: int| 0 <= k < i ==> #[trigger] table.square_ok(k),
            decreases 36 - i,
        {
            let sq = Square { raw: i };
            let mask = generate_mask(sq);
            let offset = table.hits.len();
            let ghost before = table;
            table.squares.push(SquareData { mask, offset });
            let entries = count_subsets(mask);
            let mut idx: u64 = 0;
            while idx < entries
                invariant
                    idx <= entries,
                    entries == subsets(mask),
                    sq.wf(),
                    sq.raw == i,
                    mask <= BOARD_MASK,
                    table.squares@ == before.squares@.push(SquareData { mask, offset }),
                    before.squares@.len() == i,
                    table.hits@.len() == offset + idx,
                    offset == before.hits@.len(),
                    forall|k: int| 0 <= k < offset ==> table.hits@[k] == before.hits@[k],
                    forall|k: int| 0 <= k < idx ==> #[trigger] table.entry_ok(i as int, k),
                decreases entries - idx,
            {
                proof {
                    lemma_deposit_bound(idx, mask);
                }
                let blockers = Bitboard { raw: pdep(idx, mask) };
                let ghost t0 = table;
                table.hits.push(find_hits_naive(blockers, sq));
                proof {
                    assert forall|k: int| 0 <= k < idx + 1 implies #[trigger] table.entry_ok(
                        i as int,
                        k,
                    ) by {
                        assert(table.squares@[i as int] == SquareData { mask, offset });
                        if k < idx {
                            assert(t0.entry_ok(i as int, k));
                            assert(table.hits@[offset + k] == t0.hits@[offset + k]);
                        }
                    }
                }
                idx += 1;
            }
            proof {
                assert forall|k: int| 0 <= k < i + 1 implies #[trigger] table.square_ok(k) by {
                    if k < i {
                        assert(before.square_ok(k));
                        assert(table.squares@[k] == before.squares@[k]);
                        let data = table.squares@[k];
                        assert forall|idx: int| 0 <= idx < subsets(data.mask) implies #[trigger] table.entry_ok(
                            k,
                            idx,
                        ) by {
                            assert(before.entry_ok(k, idx));
                            assert(table.hits@[data.offset + idx] == before.hits@[data.offset + idx]);
                        }
                    }
                }
            }
            i += 1;
        }
        table
    }
}

/// The number of words that have no bit outside `mask`, the set of some squares.
fn count_subsets(mask: u64) -> (r: u64)
    requires
        mask <= BOARD_MASK,
    ensures
        r == subsets(mask),
{
    let mut m = mask;
    let mut n: u64 = 1;
    proof {
        lemma_subsets_bound(mask);
        assert(1 * subsets(m) == subsets(m));
    }
    while m != 0
        invariant
            subsets(mask) == n * subsets(m),
            subsets(mask) <= BOARD_MASK + 1,
            n >= 1,
        decreases m,
    {
        let ghost rest = subsets(without_lowest(m));
        let ghost old_n = n as int;
        proof {
            lemma_subsets_bound(without_lowest(m));
            assert(subsets(m) == 2 * rest);
            assert(old_n * (2 * rest) == (2 * old_n) * rest) by (nonlinear_arith);
            assert(2 * old_n <= (2 * old_n) * rest) by (nonlinear_arith)
                requires
                    rest >= 1,
                    old_n >= 1,
            ;
            lemma_lowest(m, 0);
        }
        n = n * 2;
        m = m & (m - 1);
    }
    proof {
        assert(subsets(0) == 1);
    }
    n
}

/// The ends of the four rays from `start`, looked up in the table.
pub fn find_hits_pext(table: &HitTable, blockers: Bitboard, start: Square) -> (r: [Hit; 4])
    requires
        table.wf(),
        start.wf(),
    ensures
        hits_match(r, blockers, start.index()),
{
    let data = table.squares[start.idx()];
    let idx = pext(blockers.raw(), data.mask);
    let total = table.hits.len();
    proof {
        let i = start.index();
        assert(table.square_ok(i));
        lemma_extract_deposit(blockers.raw, data.mask);
        assert(data == table.squares@[i]);
        assert(idx < subsets(data.mask));
        assert(data.offset + subsets(data.mask) <= total);
        assert(table.entry_ok(i, idx as int));
        assert(deposit(idx, data.mask) as u64 == blockers.raw & data.mask);
        let under = Bitboard { raw: blockers.raw & data.mask };
        assert forall|d: int| 0 <= d < 4 implies ray_walk(under, i, Direction::of_index(d))
            == ray_walk(blockers, i, Direction::of_index(d)) by {
            let dir = Direction::of_index(d);
            assert forall|k: int| 1 <= k < ray_len(i, dir) implies (under.contains(
                #[trigger] step_to(i, dir, k),
            ) <==> blockers.contains(step_to(i, dir, k))) by {
                let j = step_to(i, dir, k);
                lemma_ray_step(i, dir, k);
                lemma_ray_step(i, dir, k - 1);
                assert(on_inner_ray(i, j));
                lemma_bit_and_or_xor(blockers.raw, data.mask, j as u64);
            }
            lemma_walk_same(under, blockers, i, dir);
        }
    }
    let place = data.offset + idx as usize;
    let r = table.hits[place];
    proof {
        let under = Bitboard { raw: blockers.raw & data.mask };
        assert(hits_match(r, under, start.index()));
        assert forall|d: int| 0 <= d < 4 implies {
            &&& (#[trigger] r[d]).1.wf()
            &&& (r[d].0 as int, r[d].1.index()) == ray_walk(
                blockers,
                start.index(),
                Direction::of_index(d),
            )
        } by {
            assert(ray_walk(under, start.index(), Direction::of_index(d)) == ray_walk(
                blockers,
                start.index(),
                Direction::of_index(d),
            ));
        }
    }
    r
}

/// The end of the ray from `start` in direction `dir`, looked up in the table.
pub fn find_hit_for_dir_pext(table: &HitTable, blockers: Bitboard, start: Square, dir: Direction) -> (r:
    Hit)
    requires
        table.wf(),
        start.wf(),
    ensures
        r.1.wf(),
        (r.0 as int, r.1.index()) == ray_walk(blockers, start.index(), dir),
{
    let hits = find_hits_pext(table, blockers, start);
    let r = hits[dir.idx()];
    proof {
        assert(hits[dir.index()].1.wf());
        assert(Direction::of_index(dir.index()) == dir);
    }
    r
}

} // verus!
