use rmq::arith::{floor_log2, gauss_summation_interval};
use rmq::blocks::Blocks;
use rmq::cartesian_tree::CartesianTree;
use rmq::lookup_table::LookupTable;
use rmq::minimum::{min_u64, slice_min};
use rmq::naive::Naive;
use rmq::rmq::Rmq;
use rmq::segment_tree::SegmentTree;
use rmq::sparse_array::SparseArray;

fn brute(data: &[u64], l: usize, r: usize) -> u64 {
    *data[l..=r].iter().min().unwrap()
}

fn sample() -> Vec<u64> {
    vec![5, 3, 8, 1, 9, 2, 7, 4, 6, 0, 11, 10, 3, 3, 12, 2, 8]
}

#[test]
fn gauss_sums_half_open_interval() {
    assert_eq!(gauss_summation_interval(0, 4), 10);
    assert_eq!(gauss_summation_interval(2, 5), 12);
    assert_eq!(gauss_summation_interval(3, 3), 0);
    assert_eq!(gauss_summation_interval(0, 1), 1);
    assert_eq!(gauss_summation_interval(7, 10), 27);
    assert_eq!(gauss_summation_interval(0, 100), 5050);
}

#[test]
fn floor_log2_matches_ilog2() {
    for n in 1usize..2000 {
        assert_eq!(floor_log2(n), n.ilog2() as usize);
    }
    assert_eq!(floor_log2(usize::MAX), usize::MAX.ilog2() as usize);
}

#[test]
fn min_helpers() {
    assert_eq!(min_u64(3, 7), 3);
    assert_eq!(min_u64(7, 3), 3);
    let data = vec![4u64, 2, 9];
    assert_eq!(slice_min(&data, 0, 3), 2);
    assert_eq!(slice_min(&data, 2, 3), 9);
    assert_eq!(slice_min(&data, 1, 1), u64::MAX);
}

#[test]
fn naive_answers_minimum() {
    let data: Vec<u64> = vec![5, 3, 8, 1, 9];
    let naive = Naive::build(&data);
    assert_eq!(naive.query(0, 4), 1);
    assert_eq!(naive.query(0, 2), 3);
    assert_eq!(naive.query(4, 4), 9);
    assert_eq!(naive.space(), 40);
    assert_eq!(Naive::name(), "QuadraticQuery");
    assert_eq!(Naive::max_n(), 10_000);
    assert!(Naive::can_build(&data));
    assert!(naive.can_answer(1, 3));
    assert!(!naive.can_answer(3, 1));
    assert!(!naive.can_answer(2, 5));
}

#[test]
fn lookup_table_answers_every_query() {
    let data = sample();
    let table = LookupTable::build(&data);
    for l in 0..data.len() {
        for r in l..data.len() {
            assert_eq!(table.query(l, r), brute(&data, l, r));
        }
    }
    let n = data.len();
    assert_eq!(table.space(), 8 * n * (n + 1) / 2);
    assert_eq!(LookupTable::name(), "Lookup table implementation");
    assert_eq!(LookupTable::max_n(), 10_000);
    assert!(LookupTable::can_build(&data));
    let empty: Vec<u64> = vec![];
    let t = LookupTable::build(&empty);
    assert_eq!(t.space(), 0);
    assert!(!t.can_answer(0, 0));
}

#[test]
fn sparse_array_answers_every_query() {
    let data = sample();
    let sparse = SparseArray::build(&data);
    for l in 0..data.len() {
        for r in l..data.len() {
            assert_eq!(sparse.query(l, r), brute(&data, l, r));
        }
    }
    assert_eq!(SparseArray::name(), "Sparse Array");
    assert!(SparseArray::can_build(&data));
    assert!(!SparseArray::can_build(&[]));
    let one = vec![42u64];
    let s = SparseArray::build(&one);
    assert_eq!(s.query(0, 0), 42);
}

#[test]
fn sparse_array_space_counts_reserved_entries() {
    let data = sample();
    let n = data.len();
    let sparse = SparseArray::build(&data);
    // Levels 0..=4 with n + 1 - 2^level entries each.
    let entries: usize = (0..=4).map(|lvl| n + 1 - (1usize << lvl)).sum();
    let header = std::mem::size_of::<Vec<Vec<u64>>>() + 5 * std::mem::size_of::<Vec<u64>>();
    assert!(sparse.space() >= header + 8 * entries);
}

#[test]
fn segment_tree_answers_every_query() {
    let data = sample();
    let tree = SegmentTree::build(&data);
    for l in 0..data.len() {
        for r in l..data.len() {
            assert_eq!(tree.query(l, r), brute(&data, l, r));
        }
    }
    assert_eq!(SegmentTree::name(), "Segment tree");
    assert!(SegmentTree::can_build(&data));
    assert!(!SegmentTree::can_build(&[7]));
    let two = vec![9u64, 4];
    let t = SegmentTree::build(&two);
    assert_eq!(t.query(0, 1), 4);
    assert_eq!(t.query(0, 0), 9);
    assert!(t.space() > 8 * 3);
}

#[test]
fn segment_tree_on_powers_of_two() {
    let data: Vec<u64> = (0..64u64).map(|i| (i * 37 + 11) % 53).collect();
    let tree = SegmentTree::build(&data);
    for l in 0..data.len() {
        for r in l..data.len() {
            assert_eq!(tree.query(l, r), brute(&data, l, r));
        }
    }
}

#[test]
fn blocks_reads_whole_blocks_and_raw_ends() {
    // n = 8, block length 3, two whole blocks [5, 6, 7] and [8, 9, 1].
    let data: Vec<u64> = vec![5, 6, 7, 8, 9, 1, 4, 3];
    let blocks = Blocks::build(&data);
    assert_eq!(Blocks::name(), "Blocks");
    // Blocks 0 and 1 are read whole: the 1 after r = 3 is included.
    assert!(blocks.can_answer(0, 3));
    assert_eq!(blocks.query(0, 3), 1);
    // l = 0, r = 2: block 0 only, value mirrored at 7 is 3.
    assert_eq!(blocks.query(0, 2), 3);
    // l = 3, r = 5: block 1, mirrored value data[4] = 9, data[5] = 1.
    assert_eq!(blocks.query(3, 5), 1);
    // The first whole block after l = 1 is block 1, after the block of r = 2.
    assert!(!blocks.can_answer(1, 2));
    // r = 6 lies in an incomplete block.
    assert!(!blocks.can_answer(0, 6));
    assert!(!Blocks::can_build(&[1]));
    assert_eq!(blocks.space(), std::mem::size_of::<Blocks>());
}

#[test]
fn cartesian_tree_cannot_be_built() {
    for n in 1..200usize {
        let data: Vec<u64> = (0..n as u64).collect();
        assert!(!CartesianTree::can_build(&data));
    }
    assert!(!CartesianTree::can_build(&[]));
    assert_eq!(CartesianTree::name(), "Cartesian Tree");
}

#[test]
fn default_and_specific_max_n() {
    assert_eq!(SparseArray::max_n(), 10_000);
    assert_eq!(SegmentTree::max_n(), 10_000);
    assert_eq!(Blocks::max_n(), 10_000);
    assert_eq!(CartesianTree::max_n(), 10_000);
}

#[test]
fn all_exact_structures_agree() {
    let data: Vec<u64> = (0..40u64).map(|i| (i * 7919 + 13) % 101).collect();
    let naive = Naive::build(&data);
    let table = LookupTable::build(&data);
    let sparse = SparseArray::build(&data);
    let tree = SegmentTree::build(&data);
    for l in 0..data.len() {
        for r in l..data.len() {
            let m = naive.query(l, r);
            assert_eq!(table.query(l, r), m);
            assert_eq!(sparse.query(l, r), m);
            assert_eq!(tree.query(l, r), m);
        }
    }
}

#[test]
fn gauss_matches_closed_form() {
    for l in 0..30usize {
        for r in l..30usize {
            assert_eq!(2 * gauss_summation_interval(l, r), (r - l) * (r + l + 1));
        }
    }
}

#[test]
fn blocks_aligned_query_takes_mirrored_value() {
    // n = 8, block length 3: the query [0, 5] covers blocks 0 and 1 exactly.
    let data: Vec<u64> = vec![5, 6, 7, 8, 9, 4, 3, 2];
    let blocks = Blocks::build(&data);
    // The value mirrored at n - 1 - 0 = 7 is 2, smaller than the range minimum 4.
    assert_eq!(blocks.query(0, 5), 2);
    // [3, 5] covers block 1 exactly; mirrored position 4 lies inside.
    assert_eq!(blocks.query(3, 5), 4);
}
