//! The packed board word: nine cells of four bits each, in row-major order.
use vstd::prelude::*;

verus! {

/// Number of cells on the board.
pub const CELLS: usize = 9;

/// Fingerprints and sums are taken modulo this value (2^30).
pub const MODULUS: u64 = 0x4000_0000;

/// The value held by cell `i` of the word `s` (bits `[4i, 4i + 4)`).
pub open spec fn cell(s: u64, i: u64) -> u64 {
    (s >> (i * 4)) & 0xFu64
}

/// The word `s` with the bits of cell `i` replaced by the low four bits of `v`.
pub open spec fn with_cell(s: u64, i: u64, v: u64) -> u64 {
    (s & !(0xFu64 << (i * 4))) | ((v & 0xFu64) << (i * 4))
}

/// The word carries no bits beyond the nine cells.
pub open spec fn well_formed(s: u64) -> bool {
    s >> 36u64 == 0
}

/// Every cell of a well-formed word holds a value in `[0, 6]`.
pub open spec fn capped(s: u64) -> bool {
    &&& well_formed(s)
    &&& forall|i: u64| i < 9 ==> #[trigger] cell(s, i) <= 6
}

/// Every cell is non-empty.
pub open spec fn full(s: u64) -> bool {
    forall|i: u64| i < 9 ==> #[trigger] cell(s, i) != 0
}

/// Base-10 fold of the first `n` cells, reduced modulo 2^30 after each step.
pub open spec fn fingerprint_prefix(s: u64, n: nat) -> nat
    decreases n,
{
    if n == 0 {
        0
    } else {
        ((fingerprint_prefix(s, (n - 1) as nat) * 10 + cell(s, (n - 1) as u64)) % (MODULUS as int)) as nat
    }
}

/// The fingerprint of a board: the fold over all nine cells.
pub open spec fn fingerprint(s: u64) -> nat {
    fingerprint_prefix(s, 9)
}

/// Replacing a cell changes that cell alone and keeps the bits past the board.
pub proof fn lemma_with_cell(s: u64, i: u64, v: u64, j: u64)
    requires
        i < 9,
        j < 9,
    ensures
        cell(with_cell(s, i, v), j) == if i == j { v & 0xF } else { cell(s, j) },
        with_cell(s, i, v) >> 36u64 == s >> 36u64,
{
    assert(cell(with_cell(s, i, v), j) == if i == j { v & 0xF } else { cell(s, j) }
        && with_cell(s, i, v) >> 36u64 == s >> 36u64) by (bit_vector)
        requires
            i < 9,
            j < 9,
    ;
}

/// Replacing a cell by a value in `[0, 6]` keeps a capped board capped.
pub proof fn lemma_with_cell_capped(s: u64, i: u64, v: u64)
    requires
        capped(s),
        i < 9,
        v <= 6,
    ensures
        capped(with_cell(s, i, v)),
{
    assert forall|j: u64| j < 9 implies #[trigger] cell(with_cell(s, i, v), j) <= 6 by {
        lemma_with_cell(s, i, v, j);
        assert(v & 0xF == v) by (bit_vector)
            requires
                v <= 6,
        ;
    }
    lemma_with_cell(s, i, v, 0);
}

/// Reads cell `idx` of `state`.
pub fn get_cell(state: u64, idx: usize) -> (r: u64)
    requires
        idx < CELLS,
    ensures
        r == cell(state, idx as u64),
        r < 16,
{
    let i = idx as u64;
    assert((state >> (i * 4)) & 0xFu64 < 16) by (bit_vector);
    (state >> (i * 4)) & 0xF
}

/// Writes the low four bits of `value` into cell `idx` of `state`.
pub fn set_cell(state: u64, idx: usize, value: u64) -> (r: u64)
    requires
        idx < CELLS,
    ensures
        r == with_cell(state, idx as u64, value),
        forall|j: u64|
            j < 9 ==> #[trigger] cell(r, j) == if j == idx as u64 {
                value & 0xF
            } else {
                cell(state, j)
            },
        well_formed(state) ==> well_formed(r),
{
    let i = idx as u64;
    let shift = i * 4;
    proof {
        assert forall|j: u64| j < 9 implies #[trigger] cell(with_cell(state, i, value), j) == if j
            == i {
            value & 0xF
        } else {
            cell(state, j)
        } by {
            lemma_with_cell(state, i, value, j);
        }
        lemma_with_cell(state, i, value, 0);
    }
    (state & !(0xFu64 << shift)) | ((value & 0xF) << shift)
}

/// Tests that every cell is non-empty by folding the four bit planes of each
/// nibble onto its low bit.
pub fn is_full(state: u64) -> (r: bool)
    ensures
        r == full(state),
{
    let any_bit_set = state | (state >> 1u64) | (state >> 2u64) | (state >> 3u64);
    let r = (any_bit_set & 0x1_1111_1111u64) == 0x1_1111_1111u64;
    proof {
        let s = state;
        assert(r == (cell(s, 0) != 0 && cell(s, 1) != 0 && cell(s, 2) != 0 && cell(s, 3) != 0
            && cell(s, 4) != 0 && cell(s, 5) != 0 && cell(s, 6) != 0 && cell(s, 7) != 0 && cell(
            s,
            8,
        ) != 0)) by (bit_vector)
            requires
                r == (((s | (s >> 1u64) | (s >> 2u64) | (s >> 3u64)) & 0x1_1111_1111u64)
                    == 0x1_1111_1111u64),
        ;
        if r {
            assert forall|i: u64| i < 9 implies #[trigger] cell(s, i) != 0 by {
                if i == 0 {} else if i == 1 {} else if i == 2 {} else if i == 3 {} else if i
                    == 4 {} else if i == 5 {} else if i == 6 {} else if i == 7 {} else {}
            }
        }
    }
    r
}

/// The fingerprint of `state`: `h <- (h * 10 + cell) mod 2^30` over the cells
/// in ascending order, from `h = 0`.
pub fn compute_hash(state: u64) -> (r: u64)
    ensures
        r == fingerprint(state),
        r < MODULUS,
{
    let mut hash: u64 = 0;
    let mut i: usize = 0;
    while i < CELLS
        invariant
            i <= CELLS,
            hash == fingerprint_prefix(state, i as nat),
            hash < MODULUS,
        decreases CELLS - i,
    {
        let v = get_cell(state, i);
        hash = (hash * 10 + v) % MODULUS;
        i += 1;
    }
    hash
}

} // verus!
