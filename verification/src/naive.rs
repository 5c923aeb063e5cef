//! The trivial structure: every query scans its range.

use vstd::prelude::*;
use crate::minimum::{range_min, slice_min};
use crate::rmq::Rmq;

verus! {

/// Trivial implementation that computes each query on the fly.
pub struct Naive<'a> {
    data: &'a [u64],
}

impl<'a> Rmq<'a> for Naive<'a> {
    closed spec fn source(&self) -> Seq<u64> {
        self.data@
    }

    open spec fn well_formed(&self) -> bool {
        true
    }

    open spec fn buildable(data: Seq<u64>) -> bool {
        true
    }

    open spec fn answerable(&self, l: int, r: int) -> bool {
        0 <= l <= r < self.source().len()
    }

    open spec fn answer(&self, l: int, r: int) -> u64 {
        range_min(self.source(), l, r + 1)
    }

    fn name() -> (s: String)
        ensures
            s@ == "QuadraticQuery"@,
    {
        "QuadraticQuery".to_string()
    }

    fn max_n() -> (n: usize)
        ensures
            n == 10_000,
    {
        10_000
    }

    fn can_build(data: &[u64]) -> (b: bool) {
        true
    }

    fn build(data: &'a [u64]) -> (s: Self) {
        Naive { data }
    }

    fn space(&self) -> (bytes: usize)
        ensures
            bytes == 8 * self.source().len(),
    {
        broadcast use vstd::layout::layout_of_slices, vstd::layout::layout_of_primitives;
        core::mem::size_of_val(self.data)
    }

    fn can_answer(&self, l: usize, r: usize) -> (b: bool) {
        l <= r && r < self.data.len()
    }

    fn query(&self, l: usize, r: usize) -> (m: u64) {
        let n: usize = self.data.len();
        assert(r < n);
        slice_min(self.data, l, r + 1)
    }
}

} // verus!
