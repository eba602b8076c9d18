//! Bounded exploration of a 3x3 placement-and-merge board puzzle.
//!
//! A board is packed into a `u64`, four bits per cell. The search walks every
//! path of successor moves up to a depth bound and sums a per-board
//! fingerprint over the leaves, modulo 2^30, caching each subtree's share.
pub mod board;
pub mod moves;
pub mod search;
pub mod input;
