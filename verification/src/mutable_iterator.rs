use vstd::prelude::*;
use crate::vector::{min, spec_min};

verus! {

/// A walk over the items of a vector inside a window: from `range_a`, or
/// the start, up to `range_b`, or the end.
pub struct MutIter<'a, T> {
    pub v: &'a Vec<T>,
    pub index: usize,
    pub range_a: Option<usize>,
    pub range_b: Option<usize>,
    pub len_or_range_b: usize,
}

impl<'a, T> MutIter<'a, T> {
    /// The walk never runs past the vector.
    pub open spec fn wf(&self) -> bool {
        self.len_or_range_b <= self.v@.len()
    }

    /// A walk over `v` inside the window given.
    pub fn new(v: &'a Vec<T>, range_a: Option<usize>, range_b: Option<usize>) -> (it: MutIter<'a, T>)
        ensures
            it.wf(),
            it.v == v,
            it.range_a == range_a,
            it.range_b == range_b,
            it.index == match range_a {
                Some(a) => a,
                None => 0,
            },
            it.len_or_range_b == match range_b {
                Some(b) => spec_min(b as int, v@.len() as int),
                None => v@.len() as int,
            },
    {
        let index = match range_a {
            Some(a) => a,
            None => 0,
        };
        let len = match range_b {
            Some(b) => min(b, v.len()),
            None => v.len(),
        };
        MutIter { v, index, range_a, range_b, len_or_range_b: len }
    }

    /// The same walk from its start.
    pub fn into_iter(&self) -> (it: MutIter<'a, T>)
        ensures
            it.wf(),
            it.v == self.v,
            it.range_a == self.range_a,
            it.range_b == self.range_b,
            it.index == match self.range_a {
                Some(a) => a,
                None => 0,
            },
            it.len_or_range_b == match self.range_b {
                Some(b) => spec_min(b as int, self.v@.len() as int),
                None => self.v@.len() as int,
            },
    {
        MutIter::new(self.v, self.range_a, self.range_b)
    }

    /// Yields the next item of the window, or `None` once it is exhausted.
    pub fn next(&mut self) -> (r: Option<&'a T>)
        requires
            old(self).wf(),
        ensures
            final(self).wf(),
            final(self).v == old(self).v,
            final(self).range_a == old(self).range_a,
            final(self).range_b == old(self).range_b,
            final(self).len_or_range_b == old(self).len_or_range_b,
            old(self).index < old(self).len_or_range_b ==> {
                &&& r == Some(&old(self).v@[old(self).index as int])
                &&& final(self).index == old(self).index + 1
            },
            old(self).index >= old(self).len_or_range_b ==> {
                &&& r.is_none()
                &&& final(self).index == old(self).index
            },
    {
        if self.index < self.len_or_range_b {
            self.index += 1;
            return Some(&self.v[self.index - 1]);
        }
        None
    }
}

} // verus!
