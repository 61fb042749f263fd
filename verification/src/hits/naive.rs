use vstd::prelude::*;
use crate::bitboard::Bitboard;
use crate::hits::{hits_match, ray_walk, Hit};
use crate::position::{lemma_ray_step, ray_len};
use crate::types::{Direction, Square};

verus! {

/// The end of the ray from `start` in direction `dir`, found by walking it.
pub fn find_hit_for_dir_naive(blockers: Bitboard, start: Square, dir: Direction) -> (r: Hit)
    requires
        start.wf(),
    ensures
        r.1.wf(),
        (r.0 as int, r.1.index()) == ray_walk(blockers, start.index(), dir),
{
    let mut sq = start;
    let mut dist: u8 = 0;
    loop
        invariant_except_break
            sq.wf(),
            start.wf(),
            dist + ray_len(sq.index(), dir) == ray_len(start.index(), dir),
            ray_walk(blockers, start.index(), dir) == (
                dist + ray_walk(blockers, sq.index(), dir).0,
                ray_walk(blockers, sq.index(), dir).1,
            ),
        ensures
            sq.wf(),
            (dist as int, sq.index()) == ray_walk(blockers, start.index(), dir),
        decreases ray_len(sq.index(), dir),
    {
        match sq.shift_checked(dir) {
            None => {
                break ;
            },
            Some(next) => {
                proof {
                    lemma_ray_step(sq.index(), dir, 0);
                }
                sq = next;
                dist += 1;
                if blockers.has_sq(sq) {
                    break ;
                }
            },
        }
    }
    (dist, sq)
}

/// The ends of the four rays from `start`, in the order of the directions' numbers.
pub fn find_hits_naive(blockers: Bitboard, start: Square) -> (r: [Hit; 4])
    requires
        start.wf(),
    ensures
        hits_match(r, blockers, start.index()),
{
    [
        find_hit_for_dir_naive(blockers, start, Direction::Up),
        find_hit_for_dir_naive(blockers, start, Direction::Down),
        find_hit_for_dir_naive(blockers, start, Direction::Left),
        find_hit_for_dir_naive(blockers, start, Direction::Right),
    ]
}

} // verus!
