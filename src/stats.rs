//! Time spent in each phase of a search, in microseconds.
use vstd::prelude::*;

verus! {

/// Counters of the time spent in each phase of the searches made, in
/// microseconds, and of the searches themselves.
pub struct Stats {
    /// Normalization and tokenization.
    pub normalize_tokenize: u64,
    /// Merging and minimizing.
    pub merge_minimize: u64,
    /// The binary search before phase one.
    pub first_binary_search: u64,
    /// Phase one of the intersections.
    pub first_intersect: u64,
    /// The binary search before phase two.
    pub second_binary_search: u64,
    /// Phase two of the intersections.
    pub second_intersect: u64,
    /// The first pass of merging the phases.
    pub merge_phases_first_pass: u64,
    /// The second pass of merging the phases.
    pub merge_phases_second_pass: u64,
    /// Extracting document ids.
    pub get_doc_ids: u64,
    /// Number of searches.
    pub iters: u64,
}

impl Stats {
    /// All counters at zero.
    pub fn new() -> (r: Self)
        ensures
            r.normalize_tokenize == 0,
            r.merge_minimize == 0,
            r.first_binary_search == 0,
            r.first_intersect == 0,
            r.second_binary_search == 0,
            r.second_intersect == 0,
            r.merge_phases_first_pass == 0,
            r.merge_phases_second_pass == 0,
            r.get_doc_ids == 0,
            r.iters == 0,
    {
        Stats {
            normalize_tokenize: 0,
            merge_minimize: 0,
            first_binary_search: 0,
            first_intersect: 0,
            second_binary_search: 0,
            second_intersect: 0,
            merge_phases_first_pass: 0,
            merge_phases_second_pass: 0,
            get_doc_ids: 0,
            iters: 0,
        }
    }

    /// Time spent over all phases.
    pub fn total(&self) -> (r: u128)
        ensures
            r == self.normalize_tokenize + self.merge_minimize + self.first_binary_search
                + self.first_intersect + self.second_binary_search + self.second_intersect
                + self.merge_phases_first_pass + self.merge_phases_second_pass + self.get_doc_ids,
    {
        self.normalize_tokenize as u128 + self.merge_minimize as u128
            + self.first_binary_search as u128 + self.first_intersect as u128
            + self.second_binary_search as u128 + self.second_intersect as u128
            + self.merge_phases_first_pass as u128 + self.merge_phases_second_pass as u128
            + self.get_doc_ids as u128
    }
}

} // verus!
