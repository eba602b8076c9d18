//! Checking a depth bound and nine cell values before a search.
use vstd::prelude::*;
use crate::board::{cell, capped, well_formed, set_cell, CELLS};
use crate::moves::CAP;
use crate::search::{search, search_value, DEPTH_LIMIT};

verus! {

/// Why a depth and a list of cell values do not describe a search.
#[derive(Debug, Clone, Copy, PartialEq, Eq, Structural)]
pub enum InputError {
    /// The depth bound is 64 or more.
    DepthOutOfRange,
    /// There are not exactly nine cell values.
    WrongCellCount,
    /// A cell value is above 6.
    CellOutOfRange,
}

/// The word whose nine cells hold `cells`, in row-major order, or the first
/// reason (a wrong count, then a value above 6) that they do not form a board.
pub fn encode_board(cells: &Vec<u64>) -> (r: Result<u64, InputError>)
    ensures
        match r {
            Ok(s) => cells@.len() == CELLS && capped(s) && forall|i: u64|
                i < 9 ==> #[trigger] cell(s, i) == cells@[i as int],
            Err(e) => e == if cells@.len() != CELLS {
                InputError::WrongCellCount
            } else {
                InputError::CellOutOfRange
            },
        },
        r is Err <==> cells@.len() != CELLS || exists|i: int|
            0 <= i < cells@.len() && #[trigger] cells@[i] > CAP,
{
    if cells.len() != CELLS {
        return Err(InputError::WrongCellCount);
    }
    let mut state: u64 = 0;
    let mut i: usize = 0;
    proof {
        assert forall|j: u64| true implies #[trigger] cell(0, j) == 0 by {
            assert((0u64 >> (j * 4)) & 0xFu64 == 0) by (bit_vector);
        }
        assert(0u64 >> 36u64 == 0) by (bit_vector);
    }
    while i < CELLS
        invariant
            cells@.len() == CELLS,
            i <= CELLS,
            well_formed(state),
            forall|j: u64| j < 9 ==> #[trigger] cell(state, j) == if j < i {
                cells@[j as int]
            } else {
                0
            },
            forall|j: int| 0 <= j < i ==> #[trigger] cells@[j] <= CAP,
        decreases CELLS - i,
    {
        let v = cells[i];
        if v > CAP {
            return Err(InputError::CellOutOfRange);
        }
        proof {
            assert(v & 0xF == v) by (bit_vector)
                requires
                    v <= 6,
            ;
        }
        state = set_cell(state, i, v);
        i += 1;
    }
    proof {
        assert forall|j: u64| j < 9 implies #[trigger] cell(state, j) <= 6 by {
            assert(cells@[j as int] <= CAP);
        }
    }
    Ok(state)
}

/// Validates a depth bound and nine cell values, then runs the search.
pub fn evaluate(max_depth: u64, cells: &Vec<u64>) -> (r: Result<u64, InputError>)
    ensures
        max_depth >= DEPTH_LIMIT ==> r == Err::<u64, InputError>(InputError::DepthOutOfRange),
        max_depth < DEPTH_LIMIT ==> match r {
            Ok(v) => exists|s: u64|
                capped(s) && (forall|i: u64| i < 9 ==> #[trigger] cell(s, i) == cells@[i as int])
                    && v == search_value(s, max_depth as nat),
            Err(e) => e == if cells@.len() != CELLS {
                InputError::WrongCellCount
            } else {
                InputError::CellOutOfRange
            },
        },
        r is Err <==> max_depth >= DEPTH_LIMIT || cells@.len() != CELLS || exists|i: int|
            0 <= i < cells@.len() && #[trigger] cells@[i] > CAP,
{
    if max_depth >= DEPTH_LIMIT {
        return Err(InputError::DepthOutOfRange);
    }
    match encode_board(cells) {
        Ok(s) => Ok(search(s, max_depth)),
        Err(e) => Err(e),
    }
}

} // verus!
