//! Depth-bounded search over successor boards, summing leaf fingerprints
//! modulo 2^30 and caching the share of each (board, depth) subtree.
use vstd::prelude::*;
use vstd::arithmetic::div_mod::{lemma_add_mod_noop, lemma_add_mod_noop_right, lemma_small_mod};
use std::collections::HashMap;
use crate::board::{cell, capped, with_cell, fingerprint, full, well_formed, compute_hash, is_full, MODULUS};
use crate::moves::{
    cell_successors, eligible, eligible_prefix, neighbors, successor_states, successors,
    successors_prefix, lemma_successors_capped, lemma_successors_well_formed,
};

verus! {

/// Depth bounds must fit in the six low bits of a cache key.
pub const DEPTH_LIMIT: u64 = 64;

/// Number of key bits that hold the depth.
pub const TURN_BITS: u64 = 6;

/// What the subtree rooted at `s`, reached after `turn` moves, adds to the
/// sum when the search stops at `depth`: the fingerprint of `s` at a leaf,
/// otherwise the sum over its successors, modulo 2^30.
pub open spec fn subtree_value(s: u64, turn: nat, depth: nat) -> nat
    decreases depth - turn, successor_states(s).len() + 1,
{
    if turn >= depth || full(s) {
        fingerprint(s)
    } else {
        children_value(successor_states(s), successor_states(s).len(), turn, depth)
    }
}

/// The sum, modulo 2^30, of the subtree values of the first `n` boards of
/// `ss`, each reached after `turn + 1` moves.
pub open spec fn children_value(ss: Seq<u64>, n: nat, turn: nat, depth: nat) -> nat
    decreases depth - turn, n,
{
    if n == 0 || turn >= depth || n > ss.len() {
        0
    } else {
        ((children_value(ss, (n - 1) as nat, turn, depth) + subtree_value(
            ss[n - 1],
            turn + 1,
            depth,
        )) as int % (MODULUS as int)) as nat
    }
}

/// The result of a whole search from `s` with depth bound `depth`.
pub open spec fn search_value(s: u64, depth: nat) -> nat {
    subtree_value(s, 0, depth)
}

/// The cache key of a board reached after `turn` moves.
pub open spec fn memo_key(s: u64, turn: u64) -> u64 {
    (s << TURN_BITS) | turn
}

/// Every cached entry holds the subtree value of the board and depth that
/// its key encodes.
pub open spec fn memo_consistent(m: Map<u64, u64>, depth: nat) -> bool {
    forall|k: u64| #[trigger] m.contains_key(k) ==> m[k] == subtree_value(
        k >> TURN_BITS,
        (k & 63u64) as nat,
        depth,
    )
}

/// The cache after a search of the subtree rooted at `s`, reached after
/// `turn` moves, starting from the cache `m`. A leaf or a cache hit leaves the
/// cache as it is; otherwise the successors are searched in order and the
/// subtree's value is then cached under its key.
pub open spec fn memo_after(m: Map<u64, u64>, s: u64, turn: nat, depth: nat) -> Map<u64, u64>
    decreases depth - turn, successor_states(s).len() + 1,
{
    if turn >= depth || full(s) || m.contains_key(memo_key(s, turn as u64)) {
        m
    } else {
        memo_children(m, successor_states(s), successor_states(s).len(), turn, depth).insert(
            memo_key(s, turn as u64),
            subtree_value(s, turn, depth) as u64,
        )
    }
}

/// The cache after searching, in order, the subtrees of the first `n`
/// boards of `ss`, each reached after `turn + 1` moves.
pub open spec fn memo_children(
    m: Map<u64, u64>,
    ss: Seq<u64>,
    n: nat,
    turn: nat,
    depth: nat,
) -> Map<u64, u64>
    decreases depth - turn, n,
{
    if n == 0 || turn >= depth || n > ss.len() {
        m
    } else {
        memo_after(memo_children(m, ss, (n - 1) as nat, turn, depth), ss[n - 1], turn + 1, depth)
    }
}

/// A search keeps every cached entry; the root key is cached unless the root
/// is a leaf; and each key it adds has a depth in `[turn, depth)` and encodes
/// a well-formed board, capped when the root is capped.
pub proof fn lemma_memo_after(m: Map<u64, u64>, s: u64, turn: nat, depth: nat)
    requires
        well_formed(s),
        turn <= depth,
        depth < DEPTH_LIMIT,
    ensures
        m.submap_of(memo_after(m, s, turn, depth)),
        !(turn >= depth || full(s)) ==> memo_after(m, s, turn, depth).contains_key(
            memo_key(s, turn as u64),
        ),
        forall|k: u64|
            #[trigger] memo_after(m, s, turn, depth).contains_key(k) && !m.contains_key(k) ==> turn
                <= (k & 63u64) < depth && well_formed(k >> TURN_BITS) && (capped(s) ==> capped(
                k >> TURN_BITS,
            )),
    decreases depth - turn, successor_states(s).len() + 1,
{
    if !(turn >= depth || full(s) || m.contains_key(memo_key(s, turn as u64))) {
        let ss = successor_states(s);
        lemma_successors_well_formed(s);
        if capped(s) {
            lemma_successors_capped(s);
        }
        lemma_memo_children(m, ss, ss.len(), turn, depth);
        lemma_memo_key(s, turn as u64);
        let key = memo_key(s, turn as u64);
        let mc = memo_children(m, ss, ss.len(), turn, depth);
        let ma = memo_after(m, s, turn, depth);
        assert(ma == mc.insert(key, subtree_value(s, turn, depth) as u64));
        assert forall|k: u64| #[trigger] m.contains_key(k) implies ma.contains_key(k) && ma[k]
            == m[k] by {
            assert(k != key);
        }
        assert forall|k: u64| #[trigger] ma.contains_key(k) && !m.contains_key(k) implies turn <= (
        k & 63u64) < depth && well_formed(k >> TURN_BITS) && (capped(s) ==> capped(
            k >> TURN_BITS,
        )) by {
            if k != key {
                assert(mc.contains_key(k));
            }
        }
    }
}

/// The children's searches keep every cached entry, and each key they add
/// has a depth in `[turn + 1, depth)` and encodes a well-formed board, capped
/// when every child is capped.
pub proof fn lemma_memo_children(m: Map<u64, u64>, ss: Seq<u64>, n: nat, turn: nat, depth: nat)
    requires
        turn < depth,
        depth < DEPTH_LIMIT,
        n <= ss.len(),
        forall|j: int| 0 <= j < ss.len() ==> well_formed(#[trigger] ss[j]),
    ensures
        m.submap_of(memo_children(m, ss, n, turn, depth)),
        forall|k: u64|
            #[trigger] memo_children(m, ss, n, turn, depth).contains_key(k) && !m.contains_key(k)
                ==> turn + 1 <= (k & 63u64) < depth && well_formed(k >> TURN_BITS) && ((forall|
                j: int|
                0 <= j < ss.len() ==> capped(#[trigger] ss[j])) ==> capped(k >> TURN_BITS)),
    decreases depth - turn, n,
{
    if n > 0 {
        lemma_memo_children(m, ss, (n - 1) as nat, turn, depth);
        let m1 = memo_children(m, ss, (n - 1) as nat, turn, depth);
        lemma_memo_after(m1, ss[n - 1], turn + 1, depth);
        let m2 = memo_children(m, ss, n, turn, depth);
        assert(m2 == memo_after(m1, ss[n - 1], turn + 1, depth));
        assert forall|k: u64| #[trigger] m.contains_key(k) implies m2.contains_key(k) && m2[k]
            == m[k] by {
            assert(m1.contains_key(k));
        }
        assert forall|k: u64| #[trigger] m2.contains_key(k) && !m.contains_key(k) implies turn + 1
            <= (k & 63u64) < depth && well_formed(k >> TURN_BITS) && ((forall|j: int|
            0 <= j < ss.len() ==> capped(#[trigger] ss[j])) ==> capped(k >> TURN_BITS)) by {
            if (forall|j: int| 0 <= j < ss.len() ==> capped(#[trigger] ss[j])) {
                assert(capped(ss[n - 1]));
            }
            if !m1.contains_key(k) {
            } else {
            }
        }
    }
}

/// On the last level every child is a leaf, so the children's searches
/// leave the cache as it is.
pub proof fn lemma_memo_children_last_level(m: Map<u64, u64>, ss: Seq<u64>, n: nat, turn: nat)
    ensures
        memo_children(m, ss, n, turn, turn + 1) == m,
    decreases n,
{
    if n > 0 && n <= ss.len() {
        lemma_memo_children_last_level(m, ss, (n - 1) as nat, turn);
        let m1 = memo_children(m, ss, (n - 1) as nat, turn, turn + 1);
        assert(memo_after(m1, ss[n - 1], turn + 1, turn + 1) == m1);
    }
}

/// One level above the depth bound, a search that misses the cache adds
/// exactly one entry: the root's key with its subtree value.
pub proof fn lemma_memo_after_last_level(m: Map<u64, u64>, s: u64, turn: nat)
    requires
        !full(s),
        !m.contains_key(memo_key(s, turn as u64)),
    ensures
        memo_after(m, s, turn, turn + 1) == m.insert(
            memo_key(s, turn as u64),
            subtree_value(s, turn, turn + 1) as u64,
        ),
{
    let ss = successor_states(s);
    lemma_memo_children_last_level(m, ss, ss.len(), turn);
}

/// Searching again with the cache that a search left behind changes
/// nothing: the root is then a leaf or a cache hit.
pub proof fn lemma_memo_rerun(m: Map<u64, u64>, s: u64, turn: nat, depth: nat)
    ensures
        memo_after(memo_after(m, s, turn, depth), s, turn, depth) == memo_after(m, s, turn, depth),
{
}

/// A key encodes its board and depth without loss.
proof fn lemma_memo_key(s: u64, turn: u64)
    requires
        well_formed(s),
        turn < DEPTH_LIMIT,
    ensures
        memo_key(s, turn) >> TURN_BITS == s,
        memo_key(s, turn) & 63u64 == turn,
{
    assert(((s << 6u64) | turn) >> 6u64 == s && ((s << 6u64) | turn) & 63u64 == turn)
        by (bit_vector)
        requires
            s >> 36u64 == 0,
            turn < 64,
    ;
}

/// Subtree values lie in `[0, 2^30)`.
pub proof fn lemma_subtree_value_in_range(s: u64, turn: nat, depth: nat)
    ensures
        subtree_value(s, turn, depth) < MODULUS,
{
    assert(fingerprint(s) < MODULUS);
}

/// A cached entry agrees with the search done without a cache: whatever a
/// consistent cache holds for a board and depth is the subtree value.
pub proof fn lemma_cache_equivalence(m: Map<u64, u64>, s: u64, turn: u64, depth: nat)
    requires
        memo_consistent(m, depth),
        well_formed(s),
        turn < DEPTH_LIMIT,
        m.contains_key(memo_key(s, turn)),
    ensures
        m[memo_key(s, turn)] == subtree_value(s, turn as nat, depth),
{
    lemma_memo_key(s, turn);
}

/// Taking `start + v` modulo 2^30 and subtracting `start` back gives `v`.
proof fn lemma_delta(start: int, v: int)
    requires
        0 <= start < MODULUS,
        0 <= v < MODULUS,
    ensures
        (((start + v) % (MODULUS as int)) + MODULUS - start) % (MODULUS as int) == v,
{
    let m = MODULUS as int;
    if start + v < m {
        lemma_small_mod((start + v) as nat, m as nat);
        assert((v + m) % m == v) by (nonlinear_arith)
            requires
                0 <= v < m,
        ;
    } else {
        assert((start + v) % m == start + v - m) by (nonlinear_arith)
            requires
                m <= start + v < 2 * m,
        ;
        lemma_small_mod(v as nat, m as nat);
    }
}

/// Adding a child's value to a running total keeps the total equal to
/// `start` plus the partial sum over the children so far, modulo 2^30.
proof fn lemma_accumulate(start: int, partial: int, child: int)
    requires
        0 <= start,
        0 <= partial,
        0 <= child,
    ensures
        (((start + partial) % (MODULUS as int)) + child) % (MODULUS as int) == (start + (
        partial + child) % (MODULUS as int)) % (MODULUS as int),
{
    let m = MODULUS as int;
    lemma_add_mod_noop(start + partial, child, m);
    lemma_add_mod_noop(start, partial + child, m);
    lemma_small_mod(((start + partial) % m) as nat, m as nat);
    lemma_small_mod((child % m) as nat, m as nat);
    assert((((start + partial) % m) % m + child % m) % m == (((start + partial) % m) + child) % m)
        by {
        lemma_add_mod_noop((start + partial) % m, child, m);
    }
    assert(((start % m) + ((partial + child) % m)) % m == (start + (partial + child) % m) % m) by {
        lemma_add_mod_noop(start, (partial + child) % m, m);
        lemma_small_mod(((partial + child) % m) as nat, m as nat);
    }
}

/// Adds to `total` the fingerprints of every leaf under `state`, reached
/// after `turn` moves, when the search stops at `max_depth` or at a full
/// board. Each expanded subtree's share is cached under its key in `memo`,
/// and a cached share is reused in place of the subtree.
pub fn dfs(
    state: u64,
    turn: u64,
    max_depth: u64,
    memo: &mut HashMap<u64, u64>,
    total: &mut u64,
)
    requires
        well_formed(state),
        turn <= max_depth,
        max_depth < DEPTH_LIMIT,
        *old(total) < MODULUS,
        memo_consistent(old(memo)@, max_depth as nat),
    ensures
        *final(total) == (*old(total) + subtree_value(state, turn as nat, max_depth as nat)) % (
        MODULUS as int),
        *final(total) < MODULUS,
        memo_consistent(final(memo)@, max_depth as nat),
        final(memo)@ == memo_after(old(memo)@, state, turn as nat, max_depth as nat),
        old(memo)@.submap_of(final(memo)@),
        (turn == max_depth || full(state) || old(memo)@.contains_key(memo_key(state, turn)))
            ==> final(memo)@ == old(memo)@,
        !(turn == max_depth || full(state)) ==> final(memo)@.contains_key(memo_key(state, turn)),
        forall|k: u64|
            #[trigger] final(memo)@.contains_key(k) && !old(memo)@.contains_key(k) ==> turn <= (k
                & 63u64) < max_depth && well_formed(k >> TURN_BITS) && (capped(state) ==> capped(
                k >> TURN_BITS,
            )),
        forall|k: u64| #[trigger] final(memo)@.contains_key(k) ==> final(memo)@[k] < MODULUS,
    decreases max_depth - turn,
{
    let ghost depth = max_depth as nat;
    let ghost m0 = memo@;
    proof {
        lemma_subtree_value_in_range(state, turn as nat, depth);
        lemma_memo_after(m0, state, turn as nat, depth);
        assert forall|k: u64| #[trigger] m0.contains_key(k) implies m0[k] < MODULUS by {
            lemma_subtree_value_in_range(k >> TURN_BITS, (k & 63u64) as nat, depth);
        }
    }
    if turn == max_depth || is_full(state) {
        *total = (*total + compute_hash(state)) % MODULUS;
        return;
    }
    let key = (state << TURN_BITS) | turn;
    proof {
        lemma_memo_key(state, turn);
    }
    match memo.get(&key) {
        Some(val) => {
            *total = (*total + *val) % MODULUS;
            return;
        },
        None => {},
    }
    let start = *total;
    let next = successors(state);
    let ghost ss = next@;
    proof {
        lemma_successors_well_formed(state);
    }
    let mut i: usize = 0;
    while i < next.len()
        invariant
            ss == next@,
            ss == successor_states(state),
            forall|j: int| 0 <= j < ss.len() ==> well_formed(#[trigger] ss[j]),
            turn < max_depth,
            max_depth < DEPTH_LIMIT,
            depth == max_depth as nat,
            !full(state),
            start < MODULUS,
            i <= ss.len(),
            *total == (start + children_value(ss, i as nat, turn as nat, depth)) % (
            MODULUS as int),
            *total < MODULUS,
            memo_consistent(memo@, depth),
            !m0.contains_key(key),
            key == memo_key(state, turn),
            memo@ == memo_children(m0, ss, i as nat, turn as nat, depth),
        decreases ss.len() - i,
    {
        dfs(next[i], turn + 1, max_depth, memo, total);
        proof {
            let partial = children_value(ss, i as nat, turn as nat, depth) as int;
            let child = subtree_value(ss[i as int], (turn + 1) as nat, depth) as int;
            lemma_accumulate(start as int, partial, child);
            assert(children_value(ss, (i + 1) as nat, turn as nat, depth) == (partial + child) % (
            MODULUS as int));
        }
        i += 1;
    }
    let val = (*total + MODULUS - start) % MODULUS;
    proof {
        let v = subtree_value(state, turn as nat, depth);
        assert(v == children_value(ss, ss.len(), turn as nat, depth));
        lemma_subtree_value_in_range(state, turn as nat, depth);
        lemma_delta(start as int, v as int);
    }
    memo.insert(key, val);
    proof {
        assert forall|k: u64| #[trigger] memo@.contains_key(k) implies memo@[k] < MODULUS by {
            lemma_subtree_value_in_range(k >> TURN_BITS, (k & 63u64) as nat, depth);
        }
    }
}

/// The sum, modulo 2^30, of the fingerprints of every leaf of the search
/// from `state` with depth bound `max_depth`.
pub fn search(state: u64, max_depth: u64) -> (r: u64)
    requires
        well_formed(state),
        max_depth < DEPTH_LIMIT,
    ensures
        r == search_value(state, max_depth as nat),
        r < MODULUS,
{
    let mut memo: HashMap<u64, u64> = HashMap::with_capacity(1usize << 16u64);
    let mut total: u64 = 0;
    dfs(state, 0, max_depth, &mut memo, &mut total);
    proof {
        lemma_subtree_value_in_range(state, 0, max_depth as nat);
        lemma_small_mod(search_value(state, max_depth as nat), MODULUS as nat);
    }
    total
}

/// Adds to `total` the fingerprints of every leaf under `state`, as `dfs`
/// does, but expands every subtree afresh instead of consulting a cache.
pub fn dfs_uncached(state: u64, turn: u64, max_depth: u64, total: &mut u64)
    requires
        well_formed(state),
        turn <= max_depth,
        max_depth < DEPTH_LIMIT,
        *old(total) < MODULUS,
    ensures
        *final(total) == (*old(total) + subtree_value(state, turn as nat, max_depth as nat)) % (
        MODULUS as int),
        *final(total) < MODULUS,
    decreases max_depth - turn,
{
    let ghost depth = max_depth as nat;
    if turn == max_depth || is_full(state) {
        *total = (*total + compute_hash(state)) % MODULUS;
        return;
    }
    let start = *total;
    let next = successors(state);
    let ghost ss = next@;
    proof {
        lemma_successors_well_formed(state);
    }
    let mut i: usize = 0;
    while i < next.len()
        invariant
            ss == next@,
            ss == successor_states(state),
            forall|j: int| 0 <= j < ss.len() ==> well_formed(#[trigger] ss[j]),
            turn < max_depth,
            max_depth < DEPTH_LIMIT,
            depth == max_depth as nat,
            !full(state),
            start < MODULUS,
            i <= ss.len(),
            *total == (start + children_value(ss, i as nat, turn as nat, depth)) % (
            MODULUS as int),
            *total < MODULUS,
        decreases ss.len() - i,
    {
        dfs_uncached(next[i], turn + 1, max_depth, total);
        proof {
            let partial = children_value(ss, i as nat, turn as nat, depth) as int;
            let child = subtree_value(ss[i as int], (turn + 1) as nat, depth) as int;
            lemma_accumulate(start as int, partial, child);
        }
        i += 1;
    }
}

/// The result of `search` computed without a cache.
pub fn search_uncached(state: u64, max_depth: u64) -> (r: u64)
    requires
        well_formed(state),
        max_depth < DEPTH_LIMIT,
    ensures
        r == search_value(state, max_depth as nat),
        r < MODULUS,
{
    let mut total: u64 = 0;
    dfs_uncached(state, 0, max_depth, &mut total);
    proof {
        lemma_subtree_value_in_range(state, 0, max_depth as nat);
        lemma_small_mod(search_value(state, max_depth as nat), MODULUS as nat);
    }
    total
}

/// With depth bound 0 the search stops at once: its result is the
/// fingerprint of the starting board, whatever the board.
pub proof fn lemma_depth_zero(s: u64)
    ensures
        search_value(s, 0) == fingerprint(s),
{
}

/// A board that is already full is a leaf at every depth bound: the result
/// is its fingerprint.
pub proof fn lemma_full_board(s: u64, depth: nat)
    requires
        full(s),
    ensures
        search_value(s, depth) == fingerprint(s),
{
}

/// Plain (unreduced) sum of the subtree values of the first `n` boards of `ss`.
pub open spec fn children_sum(ss: Seq<u64>, n: nat, turn: nat, depth: nat) -> nat
    decreases n,
{
    if n == 0 {
        0
    } else {
        children_sum(ss, (n - 1) as nat, turn, depth) + subtree_value(ss[n - 1], turn + 1, depth)
    }
}

/// Reducing after every addition gives the plain sum reduced once.
pub proof fn lemma_children_value(ss: Seq<u64>, n: nat, turn: nat, depth: nat)
    requires
        n <= ss.len(),
        turn < depth,
    ensures
        children_value(ss, n, turn, depth) == children_sum(ss, n, turn, depth) % (MODULUS as nat),
    decreases n,
{
    if n > 0 {
        let m = MODULUS as int;
        lemma_children_value(ss, (n - 1) as nat, turn, depth);
        let prev = children_sum(ss, (n - 1) as nat, turn, depth) as int;
        let v = subtree_value(ss[n - 1], turn + 1, depth) as int;
        lemma_add_mod_noop(prev, v, m);
        lemma_add_mod_noop_right(prev % m, v, m);
    }
}

/// The all-zero board has no stone to merge, so every cell yields one
/// placement of a 1.
proof fn lemma_empty_board_successors(k: nat)
    requires
        k <= 9,
    ensures
        successors_prefix(0, k) == Seq::new(k, |i: int| with_cell(0, i as u64, 1)),
    decreases k,
{
    if k > 0 {
        lemma_empty_board_successors((k - 1) as nat);
        let idx = (k - 1) as u64;
        assert forall|p: u64| true implies #[trigger] cell(0, p) == 0 by {
            assert((0u64 >> (p * 4)) & 0xFu64 == 0) by (bit_vector);
        }
        let nb = neighbors(idx);
        assert(eligible_prefix(0, nb, 0).len() == 0);
        assert(eligible_prefix(0, nb, 1) == eligible_prefix(0, nb, 0));
        assert(eligible_prefix(0, nb, 2) == eligible_prefix(0, nb, 1));
        assert(eligible_prefix(0, nb, 3) == eligible_prefix(0, nb, 2));
        assert(eligible_prefix(0, nb, 4) == eligible_prefix(0, nb, 3));
        assert(eligible(0, idx).len() == 0);
        assert(cell_successors(0, idx) == seq![with_cell(0, idx, 1)]);
        assert(successors_prefix(0, k) =~= Seq::new(k, |i: int| with_cell(0, i as u64, 1)));
    }
}

/// Sum of the fingerprints of the boards with a single 1 in one of the first
/// `n` cells.
pub open spec fn single_stone_sum(n: nat) -> nat
    decreases n,
{
    if n == 0 {
        0
    } else {
        single_stone_sum((n - 1) as nat) + fingerprint(with_cell(0, (n - 1) as u64, 1))
    }
}

/// From the all-zero board at depth 1 the result is the sum, modulo 2^30, of
/// the fingerprints of the nine boards holding a single 1.
pub proof fn lemma_empty_board_depth_one()
    ensures
        search_value(0, 1) == single_stone_sum(9) % (MODULUS as nat),
{
    lemma_empty_board_successors(9);
    let ss = successor_states(0);
    assert(cell(0, 0) == 0) by {
        assert((0u64 >> (0u64 * 4)) & 0xFu64 == 0) by (bit_vector);
    }
    assert(!full(0));
    assert(ss.len() == 9);
    lemma_children_value(ss, 9, 0, 1);
    assert forall|n: nat| n <= 9 implies #[trigger] children_sum(ss, n, 0, 1) == single_stone_sum(
        n,
    ) by {
        lemma_children_sum_single_stones(ss, n);
    }
}

/// Over the nine single-stone boards at depth 1, the children's plain sum is
/// the sum of their fingerprints.
proof fn lemma_children_sum_single_stones(ss: Seq<u64>, n: nat)
    requires
        n <= 9,
        ss == Seq::new(9, |i: int| with_cell(0, i as u64, 1)),
    ensures
        children_sum(ss, n, 0, 1) == single_stone_sum(n),
    decreases n,
{
    if n > 0 {
        lemma_children_sum_single_stones(ss, (n - 1) as nat);
    }
}

} // verus!
