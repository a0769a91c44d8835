//! Exact phrase search over Roaringish packed positional posting lists.
//!
//! A posting list records, for one token, every position at which it occurs
//! in every document, sixteen positions per 64-bit word. A phrase query is
//! answered by intersecting the posting lists of its tokens (or of groups of
//! frequent tokens) with the distances between them taken into account.
use vstd::prelude::*;

pub mod intersect;
pub mod layout;
pub mod packed;
pub mod planner;
pub mod roaringish;
pub mod search;
pub mod simd;
pub mod stats;
pub mod tokens;
pub mod windows;

pub use intersect::{
    GallopIntersectFirst, GallopIntersectSecond, Intersect, IntersectSeal, Intersection,
    NaiveIntersect,
};
pub use planner::SearchError;
pub use roaringish::{Aligned, BorrowRoaringishPacked, RoaringishPacked, RoaringishPackedKind, Unaligned};
pub use simd::SimdIntersect;
pub use stats::Stats;
pub use tokens::{normalize, tokenize, RefTokens, Tokens};
pub use windows::DecreasingWindows;

verus! {

} // verus!
