use merge_sort::merge_sort;
use std::cmp::Ordering;

/// A value that is ranked by its key alone; the tag tells equal keys apart.
#[derive(Clone, Copy, Debug)]
struct Ranked {
    key: i32,
    tag: u32,
}

impl PartialEq for Ranked {
    fn eq(&self, other: &Ranked) -> bool {
        self.key == other.key
    }
}

impl PartialOrd for Ranked {
    fn partial_cmp(&self, other: &Ranked) -> Option<Ordering> {
        self.key.partial_cmp(&other.key)
    }
}

/// A fixed stream of scrambled numbers below `bound`.
fn scrambled(count: usize, bound: u64) -> Vec<u64> {
    let mut state: u64 = 0x2545_f491_4f6c_dd1d;
    let mut items = Vec::with_capacity(count);
    for _ in 0..count {
        state = state
            .wrapping_mul(6364136223846793005)
            .wrapping_add(1442695040888963407);
        items.push((state >> 33) % bound);
    }
    items
}

#[test]
fn neighbours_are_in_order_after_sorting() {
    let mut arr = scrambled(1000, 500);
    merge_sort(&mut arr);
    for i in 0..arr.len() - 1 {
        assert!(arr[i] <= arr[i + 1]);
    }
}

#[test]
fn sorting_keeps_every_value_as_often() {
    let before = scrambled(777, 50);
    let mut arr = before.clone();
    merge_sort(&mut arr);
    assert_eq!(arr.len(), before.len());
    for value in 0..50u64 {
        let was = before.iter().filter(|&&x| x == value).count();
        let is = arr.iter().filter(|&&x| x == value).count();
        assert_eq!(is, was);
    }
}

#[test]
fn sorting_agrees_with_the_standard_sort() {
    let mut arr = scrambled(513, 1_000_000);
    let mut expect = arr.clone();
    expect.sort();
    merge_sort(&mut arr);
    assert_eq!(arr, expect);
}

#[test]
fn sorting_a_sorted_slice_changes_nothing() {
    let mut arr = vec![-5, -5, 0, 3, 3, 3, 8, 21];
    let expect = arr.clone();
    merge_sort(&mut arr);
    assert_eq!(arr, expect);
}

#[test]
fn sorting_twice_equals_sorting_once() {
    let mut once = scrambled(300, 40);
    merge_sort(&mut once);
    let mut twice = once.clone();
    merge_sort(&mut twice);
    assert_eq!(twice, once);
}

#[test]
fn sorting_a_sorted_slice_keeps_ties_where_they_are() {
    let mut arr = vec![
        Ranked { key: 1, tag: 0 },
        Ranked { key: 1, tag: 1 },
        Ranked { key: 2, tag: 2 },
        Ranked { key: 2, tag: 3 },
        Ranked { key: 2, tag: 4 },
    ];
    merge_sort(&mut arr);
    let tags: Vec<u32> = arr.iter().map(|r| r.tag).collect();
    assert_eq!(tags, vec![0, 1, 2, 3, 4]);
}

#[test]
fn ties_keep_their_input_order() {
    let keys = [2, 1, 2, 1, 0, 2, 1];
    let mut arr: Vec<Ranked> = Vec::new();
    for (tag, key) in keys.iter().enumerate() {
        arr.push(Ranked { key: *key, tag: tag as u32 });
    }
    merge_sort(&mut arr);
    let got: Vec<(i32, u32)> = arr.iter().map(|r| (r.key, r.tag)).collect();
    assert_eq!(
        got,
        vec![(0, 4), (1, 1), (1, 3), (1, 6), (2, 0), (2, 2), (2, 5)]
    );
}

#[test]
fn ties_keep_their_input_order_in_a_long_slice() {
    let keys = scrambled(600, 7);
    let mut arr: Vec<Ranked> = Vec::new();
    for (tag, key) in keys.iter().enumerate() {
        arr.push(Ranked { key: *key as i32, tag: tag as u32 });
    }
    merge_sort(&mut arr);
    for i in 0..arr.len() - 1 {
        assert!(arr[i].key <= arr[i + 1].key);
        if arr[i].key == arr[i + 1].key {
            assert!(arr[i].tag < arr[i + 1].tag);
        }
    }
}

#[test]
fn empty_slice_stays_empty() {
    let mut arr: [u8; 0] = [];
    merge_sort(&mut arr);
    assert_eq!(arr.len(), 0);
}

#[test]
fn single_item_stays() {
    let mut arr = ['q'];
    merge_sort(&mut arr);
    assert_eq!(arr, ['q']);
}

#[test]
fn two_items_are_swapped_when_out_of_order() {
    let mut arr = [2u8, 1];
    merge_sort(&mut arr);
    assert_eq!(arr, [1, 2]);
}

#[test]
fn all_equal_items_stay() {
    let mut arr = [7i8; 9];
    merge_sort(&mut arr);
    assert_eq!(arr, [7i8; 9]);
}

#[test]
fn sorts_part_of_a_slice_in_place() {
    let mut arr = [9, 8, 7, 6, 5, 4, 3, 2, 1];
    merge_sort(&mut arr[2..7]);
    assert_eq!(arr, [9, 8, 3, 4, 5, 6, 7, 2, 1]);
}

#[test]
fn sorts_negative_and_extreme_integers() {
    let mut arr = vec![0, i64::MAX, -1, i64::MIN, 1, -1];
    merge_sort(&mut arr);
    assert_eq!(arr, vec![i64::MIN, -1, -1, 0, 1, i64::MAX]);
}

#[test]
fn sorts_floats() {
    let mut arr = vec![3.5, -1.0, 2.25, 0.0, -7.125];
    merge_sort(&mut arr);
    assert_eq!(arr, vec![-7.125, -1.0, 0.0, 2.25, 3.5]);
}

#[test]
fn sorts_string_slices() {
    let mut arr = vec!["pear", "apple", "fig", "banana", "apple"];
    merge_sort(&mut arr);
    assert_eq!(arr, vec!["apple", "apple", "banana", "fig", "pear"]);
}

#[test]
fn sorts_tuples_by_their_parts_in_turn() {
    let mut arr = vec![(2, 'b'), (1, 'z'), (2, 'a'), (1, 'a')];
    merge_sort(&mut arr);
    assert_eq!(arr, vec![(1, 'a'), (1, 'z'), (2, 'a'), (2, 'b')]);
}

#[test]
fn sorts_lengths_around_powers_of_two() {
    for len in [2usize, 3, 4, 5, 7, 8, 9, 15, 16, 17, 31, 32, 33, 64, 65] {
        let mut arr = scrambled(len, 10);
        let mut expect = arr.clone();
        expect.sort();
        merge_sort(&mut arr);
        assert_eq!(arr, expect);
    }
}
