use std::collections::HashMap;

use merge_board::board::{compute_hash, set_cell};
use merge_board::input::{encode_board, evaluate, InputError};
use merge_board::search::{dfs, search, search_uncached};

fn word(cells: [u64; 9]) -> u64 {
    let mut s: u64 = 0;
    for (i, v) in cells.iter().enumerate() {
        s = set_cell(s, i, *v);
    }
    s
}

#[test]
fn depth_zero_all_zero_board() {
    assert_eq!(search(0, 0), 0);
}

#[test]
fn depth_zero_gives_fingerprint() {
    assert_eq!(search(word([1, 2, 3, 4, 5, 6, 1, 2, 3]), 0), 123456123);
    let s = word([0, 5, 0, 1, 0, 0, 2, 0, 0]);
    assert_eq!(search(s, 0), compute_hash(s));
}

#[test]
fn depth_one_all_zero_board() {
    assert_eq!(search(0, 1), 111111111);
    let expected: u64 = (0..9).map(|i| compute_hash(set_cell(0, i, 1))).sum::<u64>() % (1 << 30);
    assert_eq!(search(0, 1), expected);
}

#[test]
fn depth_one_single_empty_cell_among_sixes() {
    assert_eq!(search(word([6, 6, 6, 6, 6, 6, 6, 0, 6]), 1), 666666616);
}

#[test]
fn depth_one_two_stones_in_corner() {
    assert_eq!(search(word([1, 2, 0, 0, 0, 0, 0, 0, 0]), 1), 841111111);
}

#[test]
fn full_board_gives_fingerprint_at_any_depth() {
    let s = word([1, 2, 3, 4, 5, 6, 1, 2, 3]);
    for d in [0, 1, 5, 63] {
        assert_eq!(search(s, d), 123456123);
    }
}

#[test]
fn recorded_outputs_are_reproduced() {
    assert_eq!(search(0, 2), 704035952);
    assert_eq!(search(0, 3), 840352818);
    assert_eq!(search(word([1, 2, 0, 0, 0, 0, 0, 0, 0]), 5), 358147576);
    assert_eq!(search(word([0, 6, 0, 1, 0, 1, 0, 2, 0]), 8), 866577263);
    assert_eq!(search(0, 10), 193520836);
    assert_eq!(search(word([3, 3, 0, 3, 3, 0, 0, 0, 0]), 4), 251149172);
    assert_eq!(search(word([5, 0, 1, 0, 0, 0, 1, 0, 5]), 7), 782135626);
}

#[test]
fn deep_search_stays_in_range() {
    let r = search(0, 20);
    assert_eq!(r, 400415524);
    assert!(r < (1 << 30));
}

#[test]
fn two_runs_agree() {
    let s = word([0, 1, 0, 2, 0, 3, 0, 1, 0]);
    assert_eq!(search(s, 6), search(s, 6));
}

#[test]
fn cache_does_not_change_result() {
    let boards = [
        (0, 0u64),
        (3, 0),
        (4, word([1, 2, 0, 0, 0, 0, 0, 0, 0])),
        (4, word([0, 1, 0, 2, 0, 3, 0, 1, 0])),
        (5, word([3, 3, 0, 3, 3, 0, 0, 0, 0])),
    ];
    for (d, s) in boards {
        assert_eq!(search(s, d), search_uncached(s, d));
    }
}

#[test]
fn dfs_adds_to_running_total_and_fills_cache() {
    let mut memo: HashMap<u64, u64> = HashMap::new();
    let mut total: u64 = (1 << 30) - 5;
    dfs(0, 0, 1, &mut memo, &mut total);
    assert_eq!(total, (111111111 + (1 << 30) - 5) % (1 << 30));
    assert_eq!(memo.get(&0), Some(&111111111));
    // A second run reuses the cached share.
    let mut again: u64 = 0;
    dfs(0, 0, 1, &mut memo, &mut again);
    assert_eq!(again, 111111111);
}

#[test]
fn encode_board_packs_row_major() {
    assert_eq!(encode_board(&vec![1, 2, 3, 4, 5, 6, 1, 2, 3]), Ok(0x3_2165_4321));
    assert_eq!(encode_board(&vec![0; 9]), Ok(0));
}

#[test]
fn encode_board_rejects_bad_input() {
    assert_eq!(encode_board(&vec![0; 8]), Err(InputError::WrongCellCount));
    assert_eq!(encode_board(&vec![0; 10]), Err(InputError::WrongCellCount));
    assert_eq!(
        encode_board(&vec![0, 0, 0, 0, 7, 0, 0, 0, 0]),
        Err(InputError::CellOutOfRange)
    );
}

#[test]
fn evaluate_runs_or_reports_why_not() {
    assert_eq!(evaluate(1, &vec![0; 9]), Ok(111111111));
    assert_eq!(evaluate(63, &vec![1, 2, 3, 4, 5, 6, 1, 2, 3]), Ok(123456123));
    assert_eq!(evaluate(64, &vec![0; 9]), Err(InputError::DepthOutOfRange));
    assert_eq!(evaluate(2, &vec![0; 3]), Err(InputError::WrongCellCount));
    assert_eq!(
        evaluate(2, &vec![0, 0, 0, 0, 0, 0, 0, 0, 9]),
        Err(InputError::CellOutOfRange)
    );
}

#[test]
fn dfs_leaves_cache_alone_at_a_leaf() {
    let mut memo: HashMap<u64, u64> = HashMap::new();
    let mut total: u64 = 0;
    dfs(word([1, 2, 3, 4, 5, 6, 1, 2, 3]), 0, 0, &mut memo, &mut total);
    assert_eq!(total, 123456123);
    assert!(memo.is_empty());
    dfs(word([1, 2, 3, 4, 5, 6, 1, 2, 3]), 0, 7, &mut memo, &mut total);
    assert_eq!(total, (2 * 123456123) % (1 << 30));
    assert!(memo.is_empty());
}

#[test]
fn dfs_caches_only_the_root_one_level_above_the_bound() {
    let cases = [
        (0u64, 111111111u64),
        (word([6, 6, 6, 6, 6, 6, 6, 0, 6]), 666666616),
        (word([1, 2, 0, 0, 0, 0, 0, 0, 0]), 841111111),
    ];
    for (s, expected) in cases {
        let mut memo: HashMap<u64, u64> = HashMap::new();
        let mut total: u64 = 0;
        dfs(s, 0, 1, &mut memo, &mut total);
        assert_eq!(total, expected);
        let mut only_root: HashMap<u64, u64> = HashMap::new();
        only_root.insert(s << 6, expected);
        assert_eq!(memo, only_root);
    }
}

#[test]
fn dfs_rerun_keeps_cache_and_result() {
    let s = word([1, 2, 0, 0, 0, 0, 0, 0, 0]);
    let mut memo: HashMap<u64, u64> = HashMap::new();
    let mut first: u64 = 0;
    dfs(s, 0, 5, &mut memo, &mut first);
    assert_eq!(first, 358147576);
    let snapshot = memo.clone();
    assert!(snapshot.contains_key(&(s << 6)));
    for (k, v) in &snapshot {
        assert!(k & 63 < 5);
        assert!(*v < (1 << 30));
    }
    let mut second: u64 = 0;
    dfs(s, 0, 5, &mut memo, &mut second);
    assert_eq!(second, first);
    assert_eq!(memo, snapshot);
}

#[test]
fn dfs_keeps_existing_entries() {
    let mut memo: HashMap<u64, u64> = HashMap::new();
    let mut total: u64 = 0;
    dfs(0, 1, 3, &mut memo, &mut total);
    let before = memo.clone();
    let mut other: u64 = 0;
    dfs(0, 0, 3, &mut memo, &mut other);
    assert_eq!(other, 840352818);
    for (k, v) in &before {
        assert_eq!(memo.get(k), Some(v));
    }
}
