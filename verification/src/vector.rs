use vstd::prelude::*;

verus! {

/// A ray of board cells leaving one cell in one diagonal direction.
///
/// `points[0]` is the cell the ray starts from. `direction` is the index of
/// the diagonal (0: up-right, 1: up-left, 2: down-left, 3: down-right).
/// An optional window `[range_a, range_b)` restricts what a walk over the ray
/// visits.
#[derive(Debug)]
pub struct Vector<T> {
    pub points: Vec<T>,
    pub direction: i8,
    pub range_a: Option<usize>,
    pub range_b: Option<usize>,
}

/// A walk over the cells of a [`Vector`], front to back, inside its window.
pub struct VectorIntoIterator<'a, T> {
    pub vector: &'a Vector<T>,
    pub index: usize,
    pub range_b: usize,
}

/// The smaller of two numbers.
pub open spec fn spec_min(a: int, b: int) -> int {
    if a < b { a } else { b }
}

pub fn min(a: usize, b: usize) -> (m: usize)
    ensures
        m == spec_min(a as int, b as int),
{
    if a < b { a } else { b }
}

impl<T> Vector<T> {
    /// The start of the window a walk will use.
    pub open spec fn window_start(&self) -> int {
        match self.range_a {
            Some(a) => spec_min(a as int, self.points@.len() as int),
            None => 0,
        }
    }

    /// The end (exclusive) of the window a walk will use.
    pub open spec fn window_end(&self) -> int {
        match self.range_b {
            Some(b) => spec_min(b as int, self.points@.len() as int),
            None => self.points@.len() as int,
        }
    }

    /// The window as it was set, before clamping to the ray's length.
    pub open spec fn range(&self) -> (Option<usize>, Option<usize>) {
        (self.range_a, self.range_b)
    }

    pub fn new(direction: i8, points: Vec<T>) -> (v: Vector<T>)
        ensures
            v.points == points,
            v.direction == direction,
            v.range() == (None::<usize>, None::<usize>),
            v.window_start() == 0,
            v.window_end() == points@.len(),
    {
        Vector { points, direction, range_a: None, range_b: None }
    }

    /// The direction opposite to this ray's direction.
    pub open spec fn ban_direction(&self) -> int {
        (self.direction + 2) % 4
    }

    /// The direction a capture chain may not take right after jumping along
    /// this ray: the way back.
    pub fn get_ban_direction(&self) -> (d: i8)
        requires
            0 <= self.direction <= 125,
        ensures
            d == self.ban_direction(),
            0 <= d < 4,
    {
        (self.direction + 2) % 4
    }

    pub fn set_range(&mut self, a: usize, b: usize)
        ensures
            final(self).points == old(self).points,
            final(self).direction == old(self).direction,
            final(self).range() == (Some(a), Some(b)),
            final(self).window_start() == spec_min(a as int, old(self).points@.len() as int),
            final(self).window_end() == spec_min(b as int, old(self).points@.len() as int),
    {
        self.range_a = Some(a);
        self.range_b = Some(b);
    }

    pub fn clear_range(&mut self)
        ensures
            final(self).points == old(self).points,
            final(self).direction == old(self).direction,
            final(self).range() == (None::<usize>, None::<usize>),
            final(self).window_start() == 0,
            final(self).window_end() == old(self).points@.len(),
    {
        self.range_a = None;
        self.range_b = None;
    }

    /// Starts a walk over the window of the ray.
    pub fn into_iter(&self) -> (it: VectorIntoIterator<'_, T>)
        ensures
            it.source() == self,
            it.position() == self.window_start(),
            it.end() == self.window_end(),
    {
        let a = match self.range_a {
            Some(a) => min(a, self.points.len()),
            None => 0,
        };
        let b = match self.range_b {
            Some(b) => min(b, self.points.len()),
            None => self.points.len(),
        };
        VectorIntoIterator { index: a, vector: self, range_b: b }
    }
}

impl<'a, T> VectorIntoIterator<'a, T> {
    /// The ray being walked.
    pub open spec fn source(&self) -> &'a Vector<T> {
        self.vector
    }

    /// Index of the cell the next step yields.
    pub open spec fn position(&self) -> int {
        self.index as int
    }

    /// Index at which the walk stops.
    pub open spec fn end(&self) -> int {
        self.range_b as int
    }

    /// The walk never runs past the ray.
    pub open spec fn wf(&self) -> bool {
        self.end() <= self.source().points@.len()
    }

    /// Yields the next cell of the window, or `None` once it is exhausted.
    pub fn next(&mut self) -> (r: Option<&'a T>)
        requires
            old(self).wf(),
        ensures
            final(self).source() == old(self).source(),
            final(self).end() == old(self).end(),
            final(self).wf(),
            old(self).position() < old(self).end() ==> {
                &&& r == Some(&old(self).source().points@[old(self).position()])
                &&& final(self).position() == old(self).position() + 1
            },
            old(self).position() >= old(self).end() ==> {
                &&& r.is_none()
                &&& final(self).position() == old(self).position()
            },
    {
        if self.index < self.range_b {
            let i = self.index;
            self.index += 1;
            Some(&self.vector.points[i])
        } else {
            None
        }
    }
}

} // verus!
