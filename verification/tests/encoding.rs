use rmq::cartesian_tree::{first_min_position, same_words, CartesianTree};
use rmq::tree_number::TreeNumber;
use std::collections::VecDeque;

fn code(words: &[usize], bits: usize) -> TreeNumber {
    TreeNumber { number: words.iter().copied().collect::<VecDeque<usize>>(), bit_count: bits }
}

fn words(t: &TreeNumber) -> Vec<usize> {
    t.get_number().into_iter().collect()
}

#[test]
fn add_child_shifts_parent_and_fills_low_bits() {
    let mut parent = code(&[1], 1);
    parent.add_child_value(&code(&[1], 1));
    assert_eq!(words(&parent), vec![3]);
    assert_eq!(parent.bit_count, 2);

    let mut parent = code(&[0b101], 3);
    parent.add_child_value(&code(&[0b11], 2));
    assert_eq!(words(&parent), vec![0b10111]);
    assert_eq!(parent.bit_count, 5);
}

#[test]
fn add_child_moves_whole_words() {
    let w = usize::BITS as usize;
    // A child of one word and one bit: the parent moves up by a whole word
    // and one bit.
    let mut parent = code(&[1], 1);
    parent.add_child_value(&code(&[7, 1], w + 1));
    assert_eq!(words(&parent), vec![7, 0b11]);
    assert_eq!(parent.bit_count, w + 2);
}

#[test]
fn add_child_grows_a_word_when_bits_spill() {
    let w = usize::BITS as usize;
    // The parent holds w - 1 bits; shifting by two spills one bit.
    let top = 1usize << (w - 2);
    let mut parent = code(&[top | 1], w - 1);
    parent.add_child_value(&code(&[0], 2));
    assert_eq!(words(&parent), vec![4, 1]);
    assert_eq!(parent.bit_count, w + 1);
}

#[test]
fn dead_end_keeps_single_word_code() {
    let mut t = code(&[0b1011], 4);
    t.add_dead_end();
    assert_eq!(words(&t), vec![0b1011]);
    assert_eq!(t.bit_count, 4);
}

#[test]
fn dead_end_carries_whole_words_up() {
    // Appending no bits carries each word into the next one.
    let mut t = code(&[0b01, 0b10], 65);
    t.add_dead_end();
    assert_eq!(words(&t), vec![0b01, 0b11]);
    assert_eq!(t.bit_count, 65);
}

#[test]
fn build_tree_codes() {
    let one = CartesianTree::build_tree(&[42]);
    assert_eq!(words(&one), vec![1]);
    assert_eq!(one.bit_count, 1);

    let up = CartesianTree::build_tree(&[1, 2]);
    assert_eq!(words(&up), vec![0b11]);
    assert_eq!(up.bit_count, 2);

    let down = CartesianTree::build_tree(&[2, 1]);
    assert_eq!(words(&down), vec![0b11]);

    let rising = CartesianTree::build_tree(&[1, 2, 3]);
    assert_eq!(words(&rising), vec![0b111]);
    assert_eq!(rising.bit_count, 3);
}

#[test]
fn build_tree_depends_only_on_order() {
    let a = CartesianTree::build_tree(&[5, 1, 9, 3, 7]);
    let b = CartesianTree::build_tree(&[50, 10, 90, 30, 70]);
    assert_eq!(words(&a), words(&b));
    assert_eq!(words(&a), vec![0b11111]);
    assert_eq!(a.bit_count, 5);
    assert!(same_words(&a.get_number(), &b.get_number()));
}

#[test]
fn build_tree_on_long_block_has_one_bit_per_value() {
    let block: Vec<u64> = (0..150u64).map(|i| (i * 31) % 97).collect();
    let t = CartesianTree::build_tree(&block);
    assert_eq!(t.bit_count, 150);
    assert!(!t.get_number().is_empty());
}

#[test]
fn lookup_table_only_for_empty_blocks() {
    let table = CartesianTree::build_lookup_table(&[]);
    assert!(table.is_empty());
}

#[test]
fn first_min_position_in_range() {
    let block = vec![4u64, 2, 7, 2, 9];
    assert_eq!(first_min_position(&block, 0, 5), Some(1));
    assert_eq!(first_min_position(&block, 2, 5), Some(1));
    assert_eq!(first_min_position(&block, 2, 3), Some(0));
    assert_eq!(first_min_position(&block, 3, 3), None);
}

#[test]
fn same_words_compares_contents() {
    let a: VecDeque<usize> = vec![1, 2].into_iter().collect();
    let b: VecDeque<usize> = vec![1, 2].into_iter().collect();
    let c: VecDeque<usize> = vec![1, 3].into_iter().collect();
    let d: VecDeque<usize> = vec![1].into_iter().collect();
    assert!(same_words(&a, &b));
    assert!(!same_words(&a, &c));
    assert!(!same_words(&a, &d));
}

#[test]
fn one_word_block_code_is_all_ones() {
    let w = usize::BITS as usize;
    let block: Vec<u64> = (0..w as u64).map(|i| (i * 17) % 23).collect();
    let t = CartesianTree::build_tree(&block);
    assert_eq!(words(&t), vec![usize::MAX]);
    assert_eq!(t.bit_count, w);
    let small = CartesianTree::build_tree(&[3, 3, 1, 2, 2, 0, 9]);
    assert_eq!(words(&small), vec![0b1111111]);
}

fn value(ws: &[usize]) -> u128 {
    let w = usize::BITS;
    ws.iter().enumerate().map(|(i, &x)| (x as u128) << (w * i as u32)).sum()
}

#[test]
fn appending_concatenates_bit_strings() {
    let w = usize::BITS as usize;
    let child_words = [0b1011usize, 1];
    let child_bits = w + 3;
    let mut parent = code(&[0b101], 3);
    parent.add_child_value(&code(&child_words, child_bits));
    let got = words(&parent);
    assert_eq!(parent.bit_count, 3 + child_bits);
    assert_eq!(value(&got), (0b101u128 << child_bits) + value(&child_words));
}
