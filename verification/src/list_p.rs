//! A list of numbers drawn at random, and a merge sort for it.

use vstd::prelude::*;
use vstd::seq_lib::{lemma_multiset_commutative, to_multiset_build};
use crate::chance::random_below;

verus! {

/// The numbers of `s` rise from first to last; equal numbers may follow
/// one another.
pub open spec fn rising(s: Seq<i32>) -> bool {
    forall|i: int, j: int| 0 <= i <= j < s.len() ==> s[i] <= s[j]
}

/// `a` holds the numbers of `b`, each as often as `b` does.
pub open spec fn same_numbers(a: Seq<i32>, b: Seq<i32>) -> bool {
    a.to_multiset() == b.to_multiset()
}

/// A list of numbers with a buffer of the same length to sort it in.
pub struct ListP {
    pub v: Vec<i32>,
    pub tmp: Vec<i32>,
}

/// A copy of the numbers of `xs` from place `from` up to place `to`.
fn part(xs: &Vec<i32>, from: usize, to: usize) -> (r: Vec<i32>)
    requires
        from <= to <= xs@.len(),
    ensures
        r@ == xs@.subrange(from as int, to as int),
{
    let mut r: Vec<i32> = Vec::new();
    let mut i: usize = from;
    while i < to
        invariant
            from <= i <= to <= xs@.len(),
            r@ == xs@.subrange(from as int, i as int),
        decreases to - i,
    {
        r.push(xs[i]);
        assert(r@ =~= xs@.subrange(from as int, i + 1));
        i += 1;
    }
    r
}

/// Merges two rising lists: the result holds the numbers of both, rising.
/// Of two equal numbers the one of `hi` comes first.
fn merged(lo: &Vec<i32>, hi: &Vec<i32>) -> (r: Vec<i32>)
    requires
        rising(lo@),
        rising(hi@),
        lo@.len() + hi@.len() <= usize::MAX,
    ensures
        r@.len() == lo@.len() + hi@.len(),
        rising(r@),
        same_numbers(r@, lo@ + hi@),
{
    let total = lo.len() + hi.len();
    let mut r: Vec<i32> = Vec::with_capacity(total);
    let mut j: usize = 0;
    let mut k: usize = 0;
    assert(r@.to_multiset() =~= lo@.take(0).to_multiset().add(hi@.take(0).to_multiset())) by {
        assert(r@ =~= Seq::<i32>::empty());
        assert(lo@.take(0) =~= Seq::<i32>::empty());
        assert(hi@.take(0) =~= Seq::<i32>::empty());
        lemma_multiset_commutative(Seq::<i32>::empty(), Seq::<i32>::empty());
        assert(Seq::<i32>::empty() + Seq::<i32>::empty() =~= Seq::<i32>::empty());
    }
    while j + k < total
        invariant
            total == lo@.len() + hi@.len(),
            r@.len() == j + k,
            j <= lo@.len(),
            k <= hi@.len(),
            rising(lo@),
            rising(hi@),
            rising(r@),
            r@.to_multiset() == lo@.take(j as int).to_multiset().add(hi@.take(k as int).to_multiset()),
            forall|x: int| 0 <= x < r@.len() && j < lo@.len() ==> r@[x] <= lo@[j as int],
            forall|x: int| 0 <= x < r@.len() && k < hi@.len() ==> r@[x] <= hi@[k as int],
        decreases total - j - k,
    {
        let ghost before = r@;
        let from_lo = j < lo.len() && (k == hi.len() || lo[j] < hi[k]);
        let x = if from_lo { lo[j] } else { hi[k] };
        r.push(x);
        proof {
            to_multiset_build(before, x);
            if from_lo {
                assert(lo@.take(j + 1) =~= lo@.take(j as int).push(x));
                to_multiset_build(lo@.take(j as int), x);
                assert(lo@.take(j as int).to_multiset().insert(x).add(hi@.take(k as int).to_multiset())
                    =~= lo@.take(j as int).to_multiset().add(hi@.take(k as int).to_multiset()).insert(x));
            } else {
                assert(hi@.take(k + 1) =~= hi@.take(k as int).push(x));
                to_multiset_build(hi@.take(k as int), x);
                assert(lo@.take(j as int).to_multiset().add(hi@.take(k as int).to_multiset().insert(x))
                    =~= lo@.take(j as int).to_multiset().add(hi@.take(k as int).to_multiset()).insert(x));
            }
            let now = r@;
            assert forall|a: int, b: int| 0 <= a <= b < now.len() implies now[a] <= now[b] by {
                if b < before.len() {
                    assert(before[a] <= before[b]);
                } else if a < before.len() {
                    assert(now[a] == before[a]);
                }
            }
        }
        if from_lo {
            j += 1;
        } else {
            k += 1;
        }
    }
    proof {
        assert(lo@.take(j as int) =~= lo@);
        assert(hi@.take(k as int) =~= hi@);
        lemma_multiset_commutative(lo@, hi@);
    }
    r
}

/// The numbers of `xs` from place `from` up to place `to`, rising: the two
/// halves of the part are sorted and merged; `n` tells how deep in the
/// halving this call stands.
fn sorted_part(xs: &Vec<i32>, from: usize, to: usize, n: i32) -> (r: Vec<i32>)
    requires
        from <= to <= xs@.len(),
    ensures
        r@.len() == to - from,
        rising(r@),
        same_numbers(r@, xs@.subrange(from as int, to as int)),
    decreases to - from,
{
    if to - from <= 1 {
        return part(xs, from, to);
    }
    let mid = from + (to - from) / 2;
    let deeper = if n < i32::MAX { n + 1 } else { n };
    let lo = sorted_part(xs, from, mid, deeper);
    let hi = sorted_part(xs, mid, to, deeper);
    let r = merged(&lo, &hi);
    proof {
        let first = xs@.subrange(from as int, mid as int);
        let second = xs@.subrange(mid as int, to as int);
        assert(xs@.subrange(from as int, to as int) =~= first + second);
        lemma_multiset_commutative(lo@, hi@);
        lemma_multiset_commutative(first, second);
    }
    r
}

impl ListP {
    /// A list of `n` numbers drawn at random below 100000, with a buffer of
    /// `n` zeros.
    pub fn new(n: usize) -> (l: ListP)
        ensures
            l.v@.len() == n,
            l.tmp@.len() == n,
            forall|i: int| 0 <= i < n ==> 0 <= #[trigger] l.v@[i] < 100000,
            forall|i: int| 0 <= i < n ==> #[trigger] l.tmp@[i] == 0,
    {
        let mut v: Vec<i32> = Vec::new();
        let mut tmp: Vec<i32> = Vec::new();
        let mut i: usize = 0;
        while i < n
            invariant
                i <= n,
                v@.len() == i,
                tmp@.len() == i,
                forall|x: int| 0 <= x < i ==> 0 <= #[trigger] v@[x] < 100000,
                forall|x: int| 0 <= x < i ==> #[trigger] tmp@[x] == 0,
            decreases n - i,
        {
            let r = random_below(100000);
            v.push(r as i32);
            tmp.push(0);
            i += 1;
        }
        ListP { v, tmp }
    }

    /// Sorts `xs` by merging: the two halves are sorted and merged, and
    /// the result goes to the buffer `tmp` and to `xs`. Afterwards `xs`
    /// holds the numbers it held, rising. The buffer must be as long as the
    /// list; `n` tells how deep in the halving this call stands. A list of
    /// fewer than two numbers is left alone, and its buffer too.
    pub fn quick_sort(xs: &mut Vec<i32>, tmp: &mut Vec<i32>, n: i32)
        requires
            old(tmp)@.len() == old(xs)@.len(),
        ensures
            rising(final(xs)@),
            same_numbers(final(xs)@, old(xs)@),
            final(xs)@.len() == old(xs)@.len(),
            final(tmp)@.len() == old(tmp)@.len(),
            old(xs)@.len() <= 1 ==> final(xs)@ == old(xs)@ && final(tmp)@ == old(tmp)@,
            old(xs)@.len() > 1 ==> final(tmp)@ == final(xs)@,
    {
        let len = xs.len();
        if len <= 1 {
            return;
        }
        let r = sorted_part(xs, 0, len, n);
        assert(xs@.subrange(0, len as int) =~= xs@);
        let mut i: usize = 0;
        while i < len
            invariant
                i <= len,
                len == xs@.len(),
                len == tmp@.len(),
                len == r@.len(),
                xs@.take(i as int) == r@.take(i as int),
                tmp@.take(i as int) == r@.take(i as int),
            decreases len - i,
        {
            xs.set(i, r[i]);
            tmp.set(i, r[i]);
            proof {
                assert(xs@.take(i + 1) =~= r@.take(i + 1)) by {
                    assert(xs@.take(i + 1).drop_last() =~= xs@.take(i as int));
                    assert(r@.take(i + 1).drop_last() =~= r@.take(i as int));
                }
                assert(tmp@.take(i + 1) =~= r@.take(i + 1)) by {
                    assert(tmp@.take(i + 1).drop_last() =~= tmp@.take(i as int));
                    assert(r@.take(i + 1).drop_last() =~= r@.take(i as int));
                }
            }
            i += 1;
        }
        proof {
            assert(xs@.take(len as int) =~= xs@);
            assert(tmp@.take(len as int) =~= tmp@);
            assert(r@.take(len as int) =~= r@);
        }
    }
}

} // verus!
