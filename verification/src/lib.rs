//! An engine for the game of Tak on the 6x6 board: the position with its
//! stacks, sets of squares and keys; the generation of legal moves; the
//! static evaluation; the search with its move picker, history and
//! transposition table; and what the generation of training games needs.
//! Every function is verified against its contract.

pub mod bitboard;
pub mod bits;
pub mod board;
pub mod datagen;
pub mod eval;
pub mod fold;
pub mod history;
pub mod hits;
pub mod keys;
pub mod limit;
pub mod movegen;
pub mod movepick;
pub mod position;
pub mod prng;
pub mod ptn;
pub mod road;
pub mod search;
pub mod takmove;
pub mod tps;
pub mod tps_round_trip;
pub mod tt;
pub mod types;
