//! The move generator: every board reachable from a board in one placement
//! or merge.
use vstd::prelude::*;
use crate::board::{
    cell, with_cell, well_formed, capped, lemma_with_cell, lemma_with_cell_capped, get_cell,
    set_cell, CELLS,
};

verus! {

/// Largest value a cell may hold; a merge whose sum exceeds it is refused.
pub const CAP: u64 = 6;

/// The orthogonal neighbours of cell `idx`, in ascending order.
pub open spec fn neighbors(idx: u64) -> Seq<u64> {
    if idx == 0 {
        seq![1u64, 3]
    } else if idx == 1 {
        seq![0u64, 2, 4]
    } else if idx == 2 {
        seq![1u64, 5]
    } else if idx == 3 {
        seq![0u64, 4, 6]
    } else if idx == 4 {
        seq![1u64, 3, 5, 7]
    } else if idx == 5 {
        seq![2u64, 4, 8]
    } else if idx == 6 {
        seq![3u64, 7]
    } else if idx == 7 {
        seq![4u64, 6, 8]
    } else {
        seq![5u64, 7]
    }
}

/// A neighbour value that may take part in a merge: non-empty and below the cap.
pub open spec fn mergeable(v: u64) -> bool {
    0 < v && v < CAP
}

/// The mergeable cells among the first `k` entries of `nb`, in order.
pub open spec fn eligible_prefix(s: u64, nb: Seq<u64>, k: nat) -> Seq<u64>
    decreases k,
{
    if k == 0 {
        seq![]
    } else {
        let prev = eligible_prefix(s, nb, (k - 1) as nat);
        if mergeable(cell(s, nb[k - 1])) {
            prev.push(nb[k - 1])
        } else {
            prev
        }
    }
}

/// The neighbours of `idx` that may take part in a merge, in ascending order.
pub open spec fn eligible(s: u64, idx: u64) -> Seq<u64> {
    eligible_prefix(s, neighbors(idx), neighbors(idx).len())
}

/// How many merge subsets there are for `n` eligible neighbours.
pub open spec fn combo_count(n: nat) -> nat {
    if n == 2 {
        1
    } else if n == 3 {
        4
    } else if n == 4 {
        11
    } else {
        0
    }
}

/// Merge subset number `c` for `n` eligible neighbours, as a bit mask over
/// positions in the eligible list; pairs come first, then triples, then the
/// quadruple, each group in lexicographic order.
pub open spec fn combo_mask(n: nat, c: nat) -> u64 {
    if n == 2 {
        3
    } else if n == 3 {
        if c == 0 {
            3
        } else if c == 1 {
            5
        } else if c == 2 {
            6
        } else {
            7
        }
    } else {
        if c == 0 {
            3
        } else if c == 1 {
            5
        } else if c == 2 {
            9
        } else if c == 3 {
            6
        } else if c == 4 {
            10
        } else if c == 5 {
            12
        } else if c == 6 {
            7
        } else if c == 7 {
            11
        } else if c == 8 {
            13
        } else if c == 9 {
            14
        } else {
            15
        }
    }
}

/// Position `j` of the eligible list belongs to the subset `mask`.
pub open spec fn in_combo(mask: u64, j: nat) -> bool {
    (mask >> (j as u64)) & 1u64 == 1u64
}

/// Sum of the values of the first `k` eligible cells that belong to `mask`.
pub open spec fn combo_sum(s: u64, e: Seq<u64>, mask: u64, k: nat) -> nat
    decreases k,
{
    if k == 0 {
        0
    } else {
        combo_sum(s, e, mask, (k - 1) as nat) + if in_combo(mask, (k - 1) as nat) {
            cell(s, e[k - 1]) as nat
        } else {
            0
        }
    }
}

/// `s` with the first `k` eligible cells that belong to `mask` emptied.
pub open spec fn cleared(s: u64, e: Seq<u64>, mask: u64, k: nat) -> u64
    decreases k,
{
    if k == 0 {
        s
    } else {
        let t = cleared(s, e, mask, (k - 1) as nat);
        if in_combo(mask, (k - 1) as nat) {
            with_cell(t, e[k - 1], 0)
        } else {
            t
        }
    }
}

/// The board after merging the cells of `mask` into the empty cell `idx`.
pub open spec fn merge_result(s: u64, idx: u64, e: Seq<u64>, mask: u64) -> u64 {
    with_cell(cleared(s, e, mask, e.len()), idx, combo_sum(s, e, mask, e.len()) as u64)
}

/// The merges into `idx` from the first `c` subsets whose sum stays within the cap.
pub open spec fn merges(s: u64, idx: u64, e: Seq<u64>, c: nat) -> Seq<u64>
    decreases c,
{
    if c == 0 {
        seq![]
    } else {
        let prev = merges(s, idx, e, (c - 1) as nat);
        let mask = combo_mask(e.len(), (c - 1) as nat);
        if combo_sum(s, e, mask, e.len()) <= CAP {
            prev.push(merge_result(s, idx, e, mask))
        } else {
            prev
        }
    }
}

/// The successors contributed by the empty cell `idx`: the merges that fit
/// under the cap, or else a single placement of a 1.
pub open spec fn cell_successors(s: u64, idx: u64) -> Seq<u64> {
    let e = eligible(s, idx);
    let m = merges(s, idx, e, combo_count(e.len()));
    if e.len() < 2 || m.len() == 0 {
        seq![with_cell(s, idx, 1)]
    } else {
        m
    }
}

/// The successors contributed by the empty cells among the first `k`.
pub open spec fn successors_prefix(s: u64, k: nat) -> Seq<u64>
    decreases k,
{
    if k == 0 {
        seq![]
    } else {
        let prev = successors_prefix(s, (k - 1) as nat);
        if cell(s, (k - 1) as u64) == 0 {
            prev + cell_successors(s, (k - 1) as u64)
        } else {
            prev
        }
    }
}

/// Every successor of `s`, empty cell by empty cell in ascending order.
pub open spec fn successor_states(s: u64) -> Seq<u64> {
    successors_prefix(s, 9)
}

/// The number of neighbours of cell `idx`.
fn neighbor_count(idx: usize) -> (r: usize)
    requires
        idx < CELLS,
    ensures
        r == neighbors(idx as u64).len(),
{
    if idx == 4 {
        4
    } else if idx == 1 || idx == 3 || idx == 5 || idx == 7 {
        3
    } else {
        2
    }
}

/// Neighbour number `k` of cell `idx`.
fn neighbor(idx: usize, k: usize) -> (r: u64)
    requires
        idx < CELLS,
        k < neighbors(idx as u64).len(),
    ensures
        r == neighbors(idx as u64)[k as int],
        r < 9,
{
    let table: [u64; 4] = if idx == 0 {
        [1, 3, 0, 0]
    } else if idx == 1 {
        [0, 2, 4, 0]
    } else if idx == 2 {
        [1, 5, 0, 0]
    } else if idx == 3 {
        [0, 4, 6, 0]
    } else if idx == 4 {
        [1, 3, 5, 7]
    } else if idx == 5 {
        [2, 4, 8, 0]
    } else if idx == 6 {
        [3, 7, 0, 0]
    } else if idx == 7 {
        [4, 6, 8, 0]
    } else {
        [5, 7, 0, 0]
    };
    table[k]
}

/// The number of merge subsets for `n` eligible neighbours.
fn combo_count_of(n: usize) -> (r: usize)
    ensures
        r == combo_count(n as nat),
{
    if n == 2 {
        1
    } else if n == 3 {
        4
    } else if n == 4 {
        11
    } else {
        0
    }
}

/// Merge subset number `c` for `n` eligible neighbours.
fn combo_mask_of(n: usize, c: usize) -> (r: u64)
    requires
        2 <= n <= 4,
        c < combo_count(n as nat),
    ensures
        r == combo_mask(n as nat, c as nat),
{
    if n == 2 {
        3
    } else if n == 3 {
        let table: [u64; 4] = [3, 5, 6, 7];
        table[c]
    } else {
        let table: [u64; 11] = [3, 5, 9, 6, 10, 12, 7, 11, 13, 14, 15];
        table[c]
    }
}

/// Collects the neighbours of `idx` that may take part in a merge.
fn eligible_neighbors(state: u64, idx: usize) -> (r: Vec<u64>)
    requires
        idx < CELLS,
    ensures
        r@ == eligible(state, idx as u64),
        r@.len() <= 4,
        forall|j: int| 0 <= j < r@.len() ==> r@[j] < 9,
{
    let ghost nb = neighbors(idx as u64);
    let n = neighbor_count(idx);
    let mut e: Vec<u64> = Vec::new();
    let mut k: usize = 0;
    while k < n
        invariant
            n == nb.len(),
            nb == neighbors(idx as u64),
            idx < CELLS,
            k <= n,
            e@ == eligible_prefix(state, nb, k as nat),
            e@.len() <= k,
            forall|j: int| 0 <= j < e@.len() ==> e@[j] < 9,
        decreases n - k,
    {
        let p = neighbor(idx, k);
        let v = get_cell(state, p as usize);
        if 0 < v && v < CAP {
            e.push(p);
        }
        k += 1;
    }
    e
}

/// Sums the values of the eligible cells that belong to `mask`.
fn merge_sum(state: u64, e: &Vec<u64>, mask: u64) -> (r: u64)
    requires
        e@.len() <= 4,
        forall|j: int| 0 <= j < e@.len() ==> e@[j] < 9,
    ensures
        r == combo_sum(state, e@, mask, e@.len() as nat),
{
    let mut sum: u64 = 0;
    let mut k: usize = 0;
    while k < e.len()
        invariant
            e@.len() <= 4,
            forall|j: int| 0 <= j < e@.len() ==> e@[j] < 9,
            k <= e@.len(),
            sum == combo_sum(state, e@, mask, k as nat),
            sum <= 15 * k,
        decreases e@.len() - k,
    {
        if (mask >> (k as u64)) & 1 == 1 {
            sum = sum + get_cell(state, e[k] as usize);
        }
        k += 1;
    }
    sum
}

/// The board after emptying the cells of `mask` and setting `idx` to `sum`.
fn merged_state(state: u64, idx: usize, e: &Vec<u64>, mask: u64, sum: u64) -> (r: u64)
    requires
        idx < CELLS,
        e@.len() <= 4,
        forall|j: int| 0 <= j < e@.len() ==> e@[j] < 9,
    ensures
        r == with_cell(cleared(state, e@, mask, e@.len() as nat), idx as u64, sum),
{
    let mut t = state;
    let mut k: usize = 0;
    while k < e.len()
        invariant
            e@.len() <= 4,
            forall|j: int| 0 <= j < e@.len() ==> e@[j] < 9,
            k <= e@.len(),
            t == cleared(state, e@, mask, k as nat),
        decreases e@.len() - k,
    {
        if (mask >> (k as u64)) & 1 == 1 {
            t = set_cell(t, e[k] as usize, 0);
        }
        k += 1;
    }
    set_cell(t, idx, sum)
}

/// Appends the successors contributed by the empty cell `idx`.
fn push_cell_successors(state: u64, idx: usize, out: &mut Vec<u64>)
    requires
        idx < CELLS,
    ensures
        final(out)@ == old(out)@ + cell_successors(state, idx as u64),
{
    let e = eligible_neighbors(state, idx);
    let n = e.len();
    let ghost ev = e@;
    let count = combo_count_of(n);
    let ghost start = out@;
    let mut found = false;
    if n >= 2 {
        let mut c: usize = 0;
        while c < count
            invariant
                2 <= n <= 4,
                n == ev.len(),
                ev == e@,
                ev == eligible(state, idx as u64),
                forall|j: int| 0 <= j < ev.len() ==> ev[j] < 9,
                idx < CELLS,
                count == combo_count(n as nat),
                c <= count,
                out@ == start + merges(state, idx as u64, ev, c as nat),
                found == (merges(state, idx as u64, ev, c as nat).len() > 0),
            decreases count - c,
        {
            let mask = combo_mask_of(n, c);
            let sum = merge_sum(state, &e, mask);
            if sum <= CAP {
                let next = merged_state(state, idx, &e, mask, sum);
                out.push(next);
                found = true;
            }
            c += 1;
        }
    }
    if !found {
        out.push(set_cell(state, idx, 1));
    }
}

/// Every successor of `state`: for each empty cell in ascending order, the
/// merges into it that stay within the cap, or else a placement of a 1.
pub fn successors(state: u64) -> (r: Vec<u64>)
    ensures
        r@ == successor_states(state),
{
    let mut out: Vec<u64> = Vec::new();
    let mut idx: usize = 0;
    while idx < CELLS
        invariant
            idx <= CELLS,
            out@ == successors_prefix(state, idx as nat),
        decreases CELLS - idx,
    {
        if get_cell(state, idx) == 0 {
            push_cell_successors(state, idx, &mut out);
        }
        idx += 1;
    }
    out
}

/// Neighbour indices are cell indices.
proof fn lemma_neighbors_in_board(idx: u64)
    ensures
        neighbors(idx).len() <= 4,
        forall|j: int| 0 <= j < neighbors(idx).len() ==> #[trigger] neighbors(idx)[j] < 9,
{
}

/// The eligible cells are taken from `nb`, so they share its bound.
proof fn lemma_eligible_prefix_in_board(s: u64, nb: Seq<u64>, k: nat)
    requires
        k <= nb.len(),
        forall|j: int| 0 <= j < nb.len() ==> #[trigger] nb[j] < 9,
    ensures
        eligible_prefix(s, nb, k).len() <= k,
        forall|j: int|
            0 <= j < eligible_prefix(s, nb, k).len() ==> #[trigger] eligible_prefix(s, nb, k)[j]
                < 9,
    decreases k,
{
    if k > 0 {
        lemma_eligible_prefix_in_board(s, nb, (k - 1) as nat);
    }
}

/// Emptying cells keeps a board well formed, and capped if it was.
proof fn lemma_cleared(s: u64, e: Seq<u64>, mask: u64, k: nat)
    requires
        k <= e.len(),
        forall|j: int| 0 <= j < e.len() ==> #[trigger] e[j] < 9,
    ensures
        well_formed(s) ==> well_formed(cleared(s, e, mask, k)),
        capped(s) ==> capped(cleared(s, e, mask, k)),
    decreases k,
{
    if k > 0 {
        lemma_cleared(s, e, mask, (k - 1) as nat);
        let t = cleared(s, e, mask, (k - 1) as nat);
        lemma_with_cell(t, e[k - 1], 0, 0);
        if capped(t) {
            lemma_with_cell_capped(t, e[k - 1], 0);
        }
    }
}

/// Every merge into `idx` keeps a board well formed, and capped if it was.
proof fn lemma_merges(s: u64, idx: u64, e: Seq<u64>, c: nat)
    requires
        idx < 9,
        forall|j: int| 0 <= j < e.len() ==> #[trigger] e[j] < 9,
    ensures
        forall|j: int|
            0 <= j < merges(s, idx, e, c).len() ==> (well_formed(s) ==> well_formed(
                #[trigger] merges(s, idx, e, c)[j],
            )) && (capped(s) ==> capped(merges(s, idx, e, c)[j])),
    decreases c,
{
    if c > 0 {
        lemma_merges(s, idx, e, (c - 1) as nat);
        let mask = combo_mask(e.len(), (c - 1) as nat);
        let sum = combo_sum(s, e, mask, e.len());
        if sum <= CAP {
            let t = cleared(s, e, mask, e.len());
            lemma_cleared(s, e, mask, e.len());
            lemma_with_cell(t, idx, sum as u64, 0);
            if capped(t) {
                lemma_with_cell_capped(t, idx, sum as u64);
            }
            let prev = merges(s, idx, e, (c - 1) as nat);
            let all = merges(s, idx, e, c);
            assert(all == prev.push(merge_result(s, idx, e, mask)));
            assert forall|j: int| 0 <= j < all.len() implies (well_formed(s) ==> well_formed(
                #[trigger] all[j],
            )) && (capped(s) ==> capped(all[j])) by {
                if j < prev.len() {
                    assert(all[j] == prev[j]);
                } else {
                    assert(all[j] == merge_result(s, idx, e, mask));
                    assert(well_formed(s) ==> well_formed(t));
                    assert(well_formed(t) ==> well_formed(merge_result(s, idx, e, mask)));
                }
            }
        } else {
            assert(merges(s, idx, e, c) == merges(s, idx, e, (c - 1) as nat));
        }
    }
}

/// The successors from the first `k` cells keep a board well formed, and
/// capped if it was.
proof fn lemma_successors_prefix(s: u64, k: nat)
    requires
        k <= 9,
    ensures
        forall|j: int|
            0 <= j < successors_prefix(s, k).len() ==> (well_formed(s) ==> well_formed(
                #[trigger] successors_prefix(s, k)[j],
            )) && (capped(s) ==> capped(successors_prefix(s, k)[j])),
    decreases k,
{
    if k > 0 {
        lemma_successors_prefix(s, (k - 1) as nat);
        let idx = (k - 1) as u64;
        let prev = successors_prefix(s, (k - 1) as nat);
        if cell(s, idx) == 0 {
            let e = eligible(s, idx);
            lemma_neighbors_in_board(idx);
            lemma_eligible_prefix_in_board(s, neighbors(idx), neighbors(idx).len());
            lemma_merges(s, idx, e, combo_count(e.len()));
            lemma_with_cell(s, idx, 1, 0);
            if capped(s) {
                lemma_with_cell_capped(s, idx, 1);
            }
            let cs = cell_successors(s, idx);
            assert forall|j: int| 0 <= j < cs.len() implies (well_formed(s) ==> well_formed(
                #[trigger] cs[j],
            )) && (capped(s) ==> capped(cs[j])) by {}
            let all = successors_prefix(s, k);
            assert forall|j: int| 0 <= j < all.len() implies (well_formed(s) ==> well_formed(
                #[trigger] all[j],
            )) && (capped(s) ==> capped(all[j])) by {
                if j >= prev.len() {
                    assert(all[j] == cs[j - prev.len()]);
                }
            }
        }
    }
}

/// Every successor of a well-formed board is well formed.
pub proof fn lemma_successors_well_formed(s: u64)
    requires
        well_formed(s),
    ensures
        forall|j: int|
            0 <= j < successor_states(s).len() ==> well_formed(#[trigger] successor_states(s)[j]),
{
    lemma_successors_prefix(s, 9);
}

/// No move produces a cell above the cap: every successor of a board whose
/// cells lie in `[0, 6]` has its cells in `[0, 6]` too.
pub proof fn lemma_successors_capped(s: u64)
    requires
        capped(s),
    ensures
        forall|j: int| 0 <= j < successor_states(s).len() ==> capped(#[trigger] successor_states(s)[j]),
{
    lemma_successors_prefix(s, 9);
}

} // verus!
