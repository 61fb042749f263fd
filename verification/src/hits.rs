use vstd::prelude::*;

pub mod common;
pub mod naive;
pub mod pext;

use crate::bitboard::Bitboard;
use crate::position::{lemma_ray_step, ray_len, step_to};
use crate::hits::naive::{find_hit_for_dir_naive, find_hits_naive};
use crate::types::{can_step, Direction, Square};

verus! {

/// Where a ray ends: the number of steps made and the last square reached.
pub type Hit = (u8, Square);

/// The ends of the four rays from a square, in the order of the directions' numbers.
pub type Hits = [Hit; 4];

/// Walks from square `start` in direction `dir` until a square of
/// `blockers` is entered or the next step would leave the board. Gives
/// the number of steps made and the square reached.
pub open spec fn ray_walk(blockers: Bitboard, start: int, dir: Direction) -> (int, int)
    decreases ray_len(start, dir),
{
    if !can_step(start, dir) {
        (0, start)
    } else {
        let next = start + dir.delta();
        if blockers.contains(next) {
            (1, next)
        } else {
            let rest = ray_walk(blockers, next, dir);
            (rest.0 + 1, rest.1)
        }
    }
}

/// What a ray's end says of the squares along it: the ray has made at least
/// one step unless it starts at the edge; no square before its end is a
/// blocker; and it ends before the edge only on a blocker.
pub proof fn lemma_ray_walk(blockers: Bitboard, start: int, dir: Direction)
    requires
        0 <= start < 36,
    ensures
        0 <= ray_walk(blockers, start, dir).0 <= ray_len(start, dir),
        ray_walk(blockers, start, dir).0 == 0 <==> ray_len(start, dir) == 0,
        ray_walk(blockers, start, dir).1 == step_to(start, dir, ray_walk(blockers, start, dir).0),
        forall|j: int|
            1 <= j < ray_walk(blockers, start, dir).0 ==> !blockers.contains(
                #[trigger] step_to(start, dir, j),
            ),
        ray_walk(blockers, start, dir).0 < ray_len(start, dir) ==> blockers.contains(
            ray_walk(blockers, start, dir).1,
        ),
    decreases ray_len(start, dir),
{
    if can_step(start, dir) {
        lemma_ray_step(start, dir, 0);
        let next = start + dir.delta();
        assert(next == step_to(start, dir, 1));
        if !blockers.contains(next) {
            lemma_ray_walk(blockers, next, dir);
            let rest = ray_walk(blockers, next, dir);
            assert(ray_len(next, dir) == ray_len(start, dir) - 1);
            assert forall|j: int| 1 <= j < rest.0 + 1 implies !blockers.contains(
                #[trigger] step_to(start, dir, j),
            ) by {
                if j > 1 {
                    assert(step_to(start, dir, j) == step_to(next, dir, j - 1));
                }
            }
            assert(step_to(start, dir, rest.0 + 1) == step_to(next, dir, rest.0));
        }
    }
}

/// Whether `hits` holds the ends of the four rays from square `start`.
pub open spec fn hits_match(hits: [Hit; 4], blockers: Bitboard, start: int) -> bool {
    forall|d: int|
        0 <= d < 4 ==> {
            &&& (#[trigger] hits[d]).1.wf()
            &&& (hits[d].0 as int, hits[d].1.index()) == ray_walk(
                blockers,
                start,
                Direction::of_index(d),
            )
        }
}

/// The end of the ray from `start` in direction `dir`: the number of steps
/// to the first square of `blockers`, or to the edge if there is none on
/// the way, and that square.
pub fn find_hit_for_dir(blockers: Bitboard, start: Square, dir: Direction) -> (r: Hit)
    requires
        start.wf(),
    ensures
        r.1.wf(),
        (r.0 as int, r.1.index()) == ray_walk(blockers, start.index(), dir),
{
    find_hit_for_dir_naive(blockers, start, dir)
}

/// The ends of the four rays from `start`, in the order of the directions' numbers.
pub fn find_hits(blockers: Bitboard, start: Square) -> (r: [Hit; 4])
    requires
        start.wf(),
    ensures
        hits_match(r, blockers, start.index()),
{
    find_hits_naive(blockers, start)
}

} // verus!
