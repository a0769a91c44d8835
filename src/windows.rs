//! Windows of decreasing size over a slice.
use vstd::prelude::*;

verus! {

/// Yields, for each start index of a slice, the window of at most `size`
/// elements that begins there; once fewer elements are left, the windows
/// shrink with the slice.
pub struct DecreasingWindows<'a, T> {
    v: &'a [T],
    size: usize,
}

impl<'a, T> View for DecreasingWindows<'a, T> {
    type V = (Seq<T>, nat);

    closed spec fn view(&self) -> (Seq<T>, nat) {
        (self.v@, self.size as nat)
    }
}

impl<'a, T> DecreasingWindows<'a, T> {
    /// Windows of `size` elements over `slice`.
    pub fn new(slice: &'a [T], size: usize) -> (r: Self)
        requires
            size > 0,
        ensures
            r@ == (slice@, size as nat),
    {
        DecreasingWindows { v: slice, size }
    }

    /// The next window, or `None` once the slice is used up.
    pub fn next(&mut self) -> (r: Option<&'a [T]>)
        requires
            old(self)@.1 > 0,
        ensures
            old(self)@.0.len() == 0 ==> r is None && final(self)@ == old(self)@,
            old(self)@.0.len() > 0 ==> {
                let size = if old(self)@.1 > old(self)@.0.len() {
                    old(self)@.0.len()
                } else {
                    old(self)@.1
                };
                &&& r is Some
                &&& r->0@ == old(self)@.0.take(size as int)
                &&& final(self)@ == (old(self)@.0.skip(1), size)
            },
    {
        if self.size > self.v.len() {
            if self.v.len() == 0 {
                return None;
            }
            self.size = self.v.len();
        }
        let ret = vstd::slice::slice_subrange(self.v, 0, self.size);
        self.v = vstd::slice::slice_subrange(self.v, 1, self.v.len());
        proof {
            assert(ret@ =~= old(self)@.0.take(self.size as int));
        }
        Some(ret)
    }

    /// Number of windows left.
    pub fn len(&self) -> (r: usize)
        ensures
            r == self@.0.len(),
    {
        self.v.len()
    }
}

} // verus!
