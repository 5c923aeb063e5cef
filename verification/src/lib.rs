//! Range-minimum-query structures over `u64` data, with verified contracts.

pub mod minimum;
pub mod arith;
pub mod rmq;
pub mod naive;
pub mod sparse_array;
pub mod space;
pub mod segment_tree;
pub mod lookup_table;
pub mod blocks;
pub mod tree_number;
pub mod cartesian_tree;
pub mod monitor;
pub mod report;
pub mod input;
pub mod agreement;
pub mod code_value;
