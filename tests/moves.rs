use merge_board::board::{get_cell, set_cell};
use merge_board::moves::successors;

fn word(cells: [u64; 9]) -> u64 {
    let mut s: u64 = 0;
    for (i, v) in cells.iter().enumerate() {
        s = set_cell(s, i, *v);
    }
    s
}

#[test]
fn empty_board_yields_one_placement_per_cell() {
    let next = successors(0);
    let expected: Vec<u64> = (0..9).map(|i| 1u64 << (4 * i)).collect();
    assert_eq!(next, expected);
}

#[test]
fn full_board_has_no_successor() {
    assert!(successors(word([1, 2, 3, 4, 5, 6, 1, 2, 3])).is_empty());
}

#[test]
fn single_eligible_neighbor_places_a_one() {
    let next = successors(word([1, 2, 0, 0, 0, 0, 0, 0, 0]));
    assert_eq!(
        next,
        vec![0x121, 0x1021, 0x10021, 0x100021, 0x1000021, 0x10000021, 0x100000021]
    );
}

#[test]
fn neighbors_holding_six_are_not_merged() {
    let next = successors(word([6, 6, 6, 6, 6, 6, 6, 0, 6]));
    assert_eq!(next, vec![word([6, 6, 6, 6, 6, 6, 6, 1, 6])]);
}

#[test]
fn merge_over_cap_falls_back_to_placement() {
    // Cell 0 has neighbours 4 and 3: their sum 7 is over the cap.
    let next = successors(word([0, 4, 0, 3, 0, 0, 0, 0, 0]));
    assert_eq!(next[0], word([1, 4, 0, 3, 0, 0, 0, 0, 0]));
    assert_eq!(
        next,
        vec![0x3041, 0x3140, 0x13040, 0x103040, 0x1003040, 0x10003040, 0x100003040]
    );
}

#[test]
fn merges_empty_sources_and_fill_target_with_sum() {
    let s = word([0, 1, 0, 2, 0, 3, 0, 1, 0]);
    let next = successors(s);
    assert_eq!(
        next,
        vec![
            0x10300003, 0x10002400, 0x10330000, 0x10042000, 0x322000, 0x10050010, 0x330010,
            0x42010, 0x10060000, 0x340000, 0x52000, 0x60010, 0x3300010, 0x400002010,
        ]
    );
    // The centre takes 1 + 2 + 3 from cells 1, 3 and 5.
    assert!(next.contains(&word([0, 0, 0, 0, 6, 0, 0, 1, 0])));
}

#[test]
fn successors_never_exceed_cap() {
    let boards = [
        word([0, 1, 0, 2, 0, 3, 0, 1, 0]),
        word([5, 0, 1, 0, 5, 0, 1, 0, 5]),
        word([3, 3, 0, 3, 3, 0, 0, 0, 0]),
        word([0, 5, 0, 5, 0, 5, 0, 5, 0]),
        word([2, 2, 2, 2, 0, 2, 2, 2, 2]),
    ];
    for s in boards {
        for t in successors(s) {
            assert!(t >> 36 == 0);
            for i in 0..9 {
                assert!(get_cell(t, i) <= 6);
            }
        }
    }
}
