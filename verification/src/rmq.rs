//! The interface shared by every range-minimum structure.

use vstd::prelude::*;

verus! {

/// A structure built once over a slice of values that answers queries for
/// the minimum over an inclusive index range `[l, r]`.
pub trait Rmq<'a>: Sized {
    /// The values the structure was built over.
    spec fn source(&self) -> Seq<u64>;

    /// The structure's internal invariant.
    spec fn well_formed(&self) -> bool;

    /// The slices the structure can be built over without failing.
    spec fn buildable(data: Seq<u64>) -> bool;

    /// The queries the structure can answer without failing.
    spec fn answerable(&self, l: int, r: int) -> bool;

    /// What a query returns.
    spec fn answer(&self, l: int, r: int) -> u64;

    /// A name for reports.
    fn name() -> String;

    /// To save time, only run benchmarks up to this number of values.
    fn max_n() -> (n: usize)
        default_ensures
            n == usize::MAX,
    {
        usize::MAX
    }

    /// Whether the structure can be built over `data`.
    fn can_build(data: &[u64]) -> (b: bool)
        ensures
            b == Self::buildable(data@),
    ;

    /// Build the structure over `data`.
    fn build(data: &'a [u64]) -> (s: Self)
        requires
            Self::buildable(data@),
        ensures
            s.well_formed(),
            s.source() == data@,
    ;

    /// Space usage in bytes.
    fn space(&self) -> usize
        requires
            self.well_formed(),
    ;

    /// Whether `query(l, r)` can be asked of this structure.
    fn can_answer(&self, l: usize, r: usize) -> (b: bool)
        requires
            self.well_formed(),
        ensures
            b == self.answerable(l as int, r as int),
    ;

    /// The answer for the inclusive range `[l, r]`.
    fn query(&self, l: usize, r: usize) -> (m: u64)
        requires
            self.well_formed(),
            self.answerable(l as int, r as int),
        ensures
            m == self.answer(l as int, r as int),
    ;
}

} // verus!
