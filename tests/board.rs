use merge_board::board::{compute_hash, get_cell, is_full, set_cell};

fn word(cells: [u64; 9]) -> u64 {
    let mut s: u64 = 0;
    for (i, v) in cells.iter().enumerate() {
        s = set_cell(s, i, *v);
    }
    s
}

#[test]
fn get_cell_reads_each_nibble() {
    let s: u64 = 0x1_2345_6012;
    let expected = [2, 1, 0, 6, 5, 4, 3, 2, 1];
    for i in 0..9 {
        assert_eq!(get_cell(s, i), expected[i]);
    }
}

#[test]
fn set_cell_replaces_one_cell_only() {
    let s = word([1, 2, 3, 4, 5, 6, 1, 2, 3]);
    let t = set_cell(s, 4, 0);
    assert_eq!(get_cell(t, 4), 0);
    for i in [0, 1, 2, 3, 5, 6, 7, 8] {
        assert_eq!(get_cell(t, i), get_cell(s, i));
    }
    assert_eq!(set_cell(0, 8, 6), 0x6_0000_0000);
}

#[test]
fn set_cell_keeps_low_four_bits_of_value() {
    assert_eq!(set_cell(0, 1, 0x23), 0x30);
    assert_eq!(get_cell(set_cell(0xFFFF, 2, 0x10), 2), 0);
}

#[test]
fn is_full_needs_every_cell_non_empty() {
    assert!(!is_full(0));
    assert!(is_full(word([1, 2, 3, 4, 5, 6, 1, 2, 3])));
    assert!(is_full(word([6, 6, 6, 6, 6, 6, 6, 6, 6])));
    assert!(!is_full(word([6, 6, 6, 6, 6, 6, 6, 0, 6])));
    assert!(!is_full(word([0, 1, 1, 1, 1, 1, 1, 1, 1])));
    assert!(is_full(word([8, 4, 2, 1, 8, 4, 2, 1, 8])));
}

#[test]
fn fingerprint_of_all_zero_board_is_zero() {
    assert_eq!(compute_hash(0), 0);
}

#[test]
fn fingerprint_is_base_ten_fold() {
    assert_eq!(compute_hash(word([1, 2, 3, 4, 5, 6, 1, 2, 3])), 123456123);
    assert_eq!(compute_hash(word([6, 6, 6, 6, 6, 6, 6, 1, 6])), 666666616);
    assert_eq!(compute_hash(word([0, 0, 0, 0, 0, 0, 0, 0, 1])), 1);
    assert_eq!(compute_hash(word([1, 0, 0, 0, 0, 0, 0, 0, 0])), 100000000);
}

#[test]
fn fingerprint_is_reduced_modulo_two_to_the_thirty() {
    // 15 in every nibble: the unreduced fold would be 1666666665.
    let h = compute_hash(0xF_FFFF_FFFF);
    assert_eq!(h, 1666666665 % (1u64 << 30));
    assert!(h < (1u64 << 30));
}
