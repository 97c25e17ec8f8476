use vstd::prelude::*;

verus! {

/// The largest capacity a ring may have, so that sums of positions in it
/// stay in range.
pub const MAX_RING: usize = 0x1000_0000;

/// A ring of `max_size` slots. New values are written at position `p`,
/// which then moves on by one and wraps around at the end, so that once the
/// ring is full each new value replaces the oldest one. `data_size` counts
/// the filled slots.
#[derive(Debug)]
pub struct LoopArray<T> {
    pub v: Vec<Option<T>>,
    pub data_size: usize,
    pub max_size: usize,
    pub p: usize,
}

impl<T> LoopArray<T> {
    /// The ring is sound: it has its slots; while it is not full, exactly
    /// the slots before `p` are filled; once it is full, all are.
    pub open spec fn wf(&self) -> bool {
        &&& 0 < self.max_size <= MAX_RING
        &&& self.v@.len() == self.max_size
        &&& self.p < self.max_size
        &&& self.data_size <= self.max_size
        &&& self.data_size < self.max_size ==> self.p == self.data_size
        &&& forall|s: int| 0 <= s < self.max_size ==> (#[trigger] self.v@[s]).is_some() == (s < self.data_size)
    }

    /// The slot of the `i`-th value, counted from the oldest.
    pub open spec fn slot_of(&self, i: int) -> int {
        (i + self.p + self.max_size - self.data_size) % (self.max_size as int)
    }

    /// The slot after slot `i` among the filled ones, unless that is the
    /// slot to be written next.
    pub open spec fn slot_after(&self, i: int) -> Option<usize> {
        let n = (i + 1) % (self.data_size as int);
        if n == self.p { None } else { Some(n as usize) }
    }

    /// An empty ring of `max_size` slots.
    pub fn new(max_size: usize) -> (r: LoopArray<T>)
        requires
            0 < max_size <= MAX_RING,
        ensures
            r.wf(),
            r.max_size == max_size,
            r.data_size == 0,
            r.p == 0,
    {
        let mut v: Vec<Option<T>> = Vec::new();
        let mut i: usize = 0;
        while i < max_size
            invariant
                i <= max_size,
                v@.len() == i,
                forall|s: int| 0 <= s < i ==> (#[trigger] v@[s]).is_none(),
            decreases max_size - i,
        {
            v.push(None);
            i += 1;
        }
        LoopArray { v, data_size: 0, max_size, p: 0 }
    }

    /// Moves the writing position on by one.
    fn next_p(&mut self)
        requires
            0 < old(self).max_size,
            old(self).p < old(self).max_size,
        ensures
            final(self).p == (old(self).p + 1) % (old(self).max_size as int),
            final(self).v == old(self).v,
            final(self).data_size == old(self).data_size,
            final(self).max_size == old(self).max_size,
    {
        self.p = (self.p + 1) % self.max_size;
    }

    /// The slot after slot `i`; see [`LoopArray::slot_after`].
    pub fn next_loop_p(&self, i: usize) -> (r: Option<usize>)
        requires
            self.data_size > 0,
            i < MAX_RING,
        ensures
            r == self.slot_after(i as int),
    {
        let p = (i + 1) % self.data_size;
        if p == self.p {
            None
        } else {
            Some(p)
        }
    }

    /// The slot before the writing position among the filled ones.
    pub fn prev_loop_p(&self) -> (r: usize)
        requires
            self.wf(),
            self.data_size > 0,
        ensures
            r == (self.p + self.data_size - 1) % (self.data_size as int),
    {
        (self.p + self.data_size - 1) % self.data_size
    }

    pub fn get_p(&self) -> (r: usize)
        ensures
            r == self.p,
    {
        self.p
    }

    pub fn get_data_size(&self) -> (r: usize)
        ensures
            r == self.data_size,
    {
        self.data_size
    }

    /// Exchanges the contents of two slots.
    pub fn swap(&mut self, p1: usize, p2: usize)
        requires
            p1 < old(self).v@.len(),
            p2 < old(self).v@.len(),
        ensures
            final(self).v@ == old(self).v@.update(p1 as int, old(self).v@[p2 as int]).update(
                p2 as int,
                old(self).v@[p1 as int],
            ),
            final(self).data_size == old(self).data_size,
            final(self).max_size == old(self).max_size,
            final(self).p == old(self).p,
    {
        if p1 != p2 {
            let mut a: Option<T> = None;
            let mut b: Option<T> = None;
            core::mem::swap(&mut a, &mut self.v[p1]);
            core::mem::swap(&mut b, &mut self.v[p2]);
            self.v.set(p1, b);
            self.v.set(p2, a);
        }
        assert(self.v@ =~= old(self).v@.update(p1 as int, old(self).v@[p2 as int]).update(
            p2 as int,
            old(self).v@[p1 as int],
        ));
    }

    /// The slot of the `i`-th value, counted from the oldest.
    pub fn i(&self, i: usize) -> (r: usize)
        requires
            self.wf(),
            i < MAX_RING,
        ensures
            r == self.slot_of(i as int),
            r < self.max_size,
    {
        (i + self.p + self.max_size - self.data_size) % self.max_size
    }

    /// The place, counted from the oldest value, of the value in slot
    /// `pointer`.
    pub fn get_index(&self, pointer: usize) -> (r: usize)
        requires
            self.wf(),
            pointer < MAX_RING,
        ensures
            r == (pointer + self.data_size + self.max_size - self.p) % (self.max_size as int),
    {
        (pointer + self.data_size + self.max_size - self.p) % self.max_size
    }

    /// The `i`-th value, counted from the oldest.
    pub fn at(&self, i: usize) -> (r: &Option<T>)
        requires
            self.wf(),
            i < MAX_RING,
        ensures
            *r == self.v@[self.slot_of(i as int)],
    {
        &self.v[self.i(i)]
    }

    /// Replaces the `i`-th value, counted from the oldest, if there is one.
    pub fn set(&mut self, i: usize, val: T)
        requires
            old(self).wf(),
        ensures
            final(self).wf(),
            final(self).data_size == old(self).data_size,
            final(self).max_size == old(self).max_size,
            final(self).p == old(self).p,
            i < old(self).data_size ==> final(self).v@ == old(self).v@.update(
                old(self).slot_of(i as int),
                Some(val),
            ),
            i >= old(self).data_size ==> final(self).v@ == old(self).v@,
    {
        if i < self.data_size {
            let ind = self.i(i);
            proof {
                self.lemma_slots(i as int);
            }
            self.v.set(ind, Some(val));
        }
    }

    /// The slot of a value that is there is a filled slot, and that of the
    /// oldest value of a full ring is the slot written next.
    pub proof fn lemma_slots(&self, i: int)
        requires
            self.wf(),
            0 <= i < self.data_size,
        ensures
            0 <= self.slot_of(i) < self.max_size,
            self.v@[self.slot_of(i)].is_some(),
            self.data_size < self.max_size ==> self.slot_of(i) == i,
            self.data_size == self.max_size ==> self.slot_of(0) == self.p,
    {
        let m = self.max_size as int;
        if self.data_size < self.max_size {
            assert(self.slot_of(i) == (i + m) % m);
            assert((i + m) % m == i) by (nonlinear_arith)
                requires
                    0 <= i < m,
            ;
        } else {
            assert(self.slot_of(0) == (self.p as int) % m);
            assert((self.p as int) % m == self.p) by (nonlinear_arith)
                requires
                    0 <= self.p < m,
            ;
            assert(0 <= (i + self.p) % m < m) by (nonlinear_arith)
                requires
                    0 < m,
            ;
        }
    }

    /// The values of the ring from the oldest to the newest.
    pub fn get_list(&self) -> (r: Vec<&T>)
        requires
            self.wf(),
        ensures
            r@.len() == self.data_size,
            forall|i: int| 0 <= i < r@.len() ==> *(#[trigger] r@[i]) == self.v@[self.slot_of(i)].unwrap(),
    {
        let mut r: Vec<&T> = Vec::new();
        let mut i: usize = 0;
        while i < self.data_size
            invariant
                self.wf(),
                i <= self.data_size,
                r@.len() == i,
                forall|k: int| 0 <= k < i ==> *(#[trigger] r@[k]) == self.v@[self.slot_of(k)].unwrap(),
            decreases self.data_size - i,
        {
            proof {
                self.lemma_slots(i as int);
            }
            match &self.v[self.i(i)] {
                Some(x) => {
                    r.push(x);
                },
                None => {},
            }
            i += 1;
        }
        r
    }

    /// The slot of the `i`-th value without the remainder: the sum, less the
    /// capacity where it reaches it.
    pub proof fn lemma_slot_plain(&self, i: int)
        requires
            self.wf(),
            0 <= i < self.data_size,
        ensures
            self.slot_of(i) == if i + self.p + self.max_size - self.data_size < self.max_size {
                i + self.p + self.max_size - self.data_size
            } else if i + self.p + self.max_size - self.data_size < 2 * self.max_size {
                i + self.p - self.data_size
            } else {
                i + self.p - self.data_size - self.max_size
            },
    {
        let m = self.max_size as int;
        let x = i + self.p + self.max_size - self.data_size;
        assert(x % m == if x < m { x } else if x < 2 * m { x - m } else { x - 2 * m }) by (nonlinear_arith)
            requires
                0 <= x < 3 * m,
                m > 0,
        ;
    }

    /// Writes `val` at the writing position and moves that position on.
    /// Returns what the slot held and the slot.
    pub fn push(&mut self, val: T) -> (r: (Option<T>, usize))
        requires
            old(self).wf(),
        ensures
            final(self).wf(),
            r.0 == old(self).v@[old(self).p as int],
            r.1 == old(self).p,
            final(self).v@ == old(self).v@.update(old(self).p as int, Some(val)),
            final(self).max_size == old(self).max_size,
            final(self).p == (old(self).p + 1) % (old(self).max_size as int),
            final(self).data_size == if old(self).data_size < old(self).max_size {
                old(self).data_size + 1
            } else {
                old(self).data_size as int
            },
            r.0.is_some() == (old(self).data_size == old(self).max_size),
    {
        let pointer = self.p;
        let mut old_val: Option<T> = Some(val);
        core::mem::swap(&mut old_val, &mut self.v[pointer]);
        if self.data_size < self.max_size {
            self.data_size += 1;
        }
        self.next_p();
        proof {
            let m = self.max_size as int;
            let q = old(self).p as int;
            if q + 1 < m {
                assert((q + 1) % m == q + 1) by (nonlinear_arith)
                    requires
                        0 <= q + 1 < m,
                ;
            } else {
                assert((q + 1) % m == 0) by (nonlinear_arith)
                    requires
                        q + 1 == m,
                        m > 0,
                ;
            }
        }
        (old_val, pointer)
    }
}

} // verus!
