use vstd::prelude::*;
use std::collections::HashMap;
use crate::loop_array::{LoopArray, MAX_RING};
use crate::sorting::{is_stable_order, stable_order};

verus! {

broadcast use vstd::std_specs::hash::group_hash_axioms;

/// A cached item with the number of times it was inserted again and the
/// slot of the ring it lies in.
#[derive(Debug)]
pub struct Wrapper<T> {
    pub item: T,
    pub repetitions: i32,
    pub array_pointer: usize,
}

impl<T> Wrapper<T> {
    /// A fresh entry: never repeated, in slot 0.
    pub fn new(item: T) -> (w: Wrapper<T>)
        ensures
            w.item == item,
            w.repetitions == 0,
            w.array_pointer == 0,
    {
        Wrapper { item, array_pointer: 0, repetitions: 0 }
    }

    /// The number of repetitions.
    pub fn n(&self) -> (r: i32)
        ensures
            r == self.repetitions,
    {
        self.repetitions
    }

    /// Counts one more repetition; the count stops at the largest number
    /// its type holds.
    pub fn repeat(&mut self)
        ensures
            final(self).repetitions == repeated(old(self).repetitions),
            final(self).item == old(self).item,
            final(self).array_pointer == old(self).array_pointer,
    {
        if self.repetitions < i32::MAX {
            self.repetitions += 1;
        }
    }

    pub fn get_array_pointer(&self) -> (r: usize)
        ensures
            r == self.array_pointer,
    {
        self.array_pointer
    }

    pub fn set_list_pointer(&mut self, pointer: usize)
        ensures
            final(self).array_pointer == pointer,
            final(self).item == old(self).item,
            final(self).repetitions == old(self).repetitions,
    {
        self.array_pointer = pointer;
    }
}

/// Listing a cache and building a cache from what was listed gives a cache
/// of the same items under the same keys, with the same numbers of
/// repetitions, the `i`-th oldest in slot `i`: what is listed always has
/// distinct keys and fits the capacity.
pub proof fn law_rebuilt_cache_same<T, F: Fn(&T) -> u64>(
    c: CacheMap<T, F>,
    listing: Seq<&Wrapper<T>>,
    list: Seq<(T, i32)>,
    rebuilt: CacheMap<T, F>,
)
    requires
        c.wf(),
        c.lists(listing),
        list.len() == listing.len(),
        forall|i: int| 0 <= i < list.len() ==> (#[trigger] list[i]) == (listing[i].item, listing[i].repetitions),
        rebuilt.wf(),
        rebuilt.key_fn == c.key_fn,
        rebuilt.max_size == c.max_size,
        CacheMap::<T, F>::distinct_keys(c.key_fn, list) && list.len() <= c.max_size ==> rebuilt.holds(list),
    ensures
        CacheMap::<T, F>::distinct_keys(c.key_fn, list),
        list.len() <= c.max_size,
        rebuilt.len() == c.len(),
        forall|k: u64| (#[trigger] rebuilt.contains(k)) == c.contains(k),
        forall|k: u64|
            c.contains(k) ==> (#[trigger] rebuilt.entry(k)).item == c.entry(k).item && rebuilt.entry(
                k,
            ).repetitions == c.entry(k).repetitions,
        forall|i: int|
            0 <= i < c.len() ==> rebuilt.slot(c.slot_key(c.freq_list.slot_of(i))) == i,
{
    let ring = c.freq_list;
    assert forall|i: int| 0 <= i < list.len() implies key_spec(c.key_fn, &(#[trigger] list[i]).0)
        == c.slot_key(ring.slot_of(i)) && ring.v@[ring.slot_of(i)].is_some() && 0 <= ring.slot_of(i)
        < c.max_size by {
        ring.lemma_slots(i);
    }
    assert forall|i: int, j: int| 0 <= i < j < list.len() implies key_spec(
        c.key_fn,
        &(#[trigger] list[i]).0,
    ) != key_spec(c.key_fn, &(#[trigger] list[j]).0) by {
        ring.lemma_slot_plain(i);
        ring.lemma_slot_plain(j);
        ring.lemma_slots(i);
        ring.lemma_slots(j);
        assert(ring.slot_of(i) != ring.slot_of(j));
    }
    assert forall|k: u64| c.contains(k) implies exists|i: int|
        0 <= i < list.len() && key_spec(c.key_fn, &(#[trigger] list[i]).0) == k by {
        let s = c.slot(k) as int;
        let m = c.max_size as int;
        let i = if ring.data_size < ring.max_size {
            s
        } else if s >= ring.p {
            s - ring.p
        } else {
            s - ring.p + m
        };
        ring.lemma_slot_plain(i);
        ring.lemma_slots(i);
        assert(ring.slot_of(i) == s);
        assert(key_spec(c.key_fn, &list[i].0) == k);
    }
    assert forall|k: u64| (#[trigger] rebuilt.contains(k)) == c.contains(k) by {
        if c.contains(k) {
            let i = choose|i: int| 0 <= i < list.len() && key_spec(c.key_fn, &(#[trigger] list[i]).0) == k;
            assert(rebuilt.contains(key_spec(rebuilt.key_fn, &list[i].0)));
        }
        if rebuilt.contains(k) {
            let i = choose|i: int|
                0 <= i < list.len() && key_spec(rebuilt.key_fn, &(#[trigger] list[i]).0) == k;
            ring.lemma_slots(i);
        }
    }
    assert forall|k: u64| c.contains(k) implies (#[trigger] rebuilt.entry(k)).item == c.entry(k).item
        && rebuilt.entry(k).repetitions == c.entry(k).repetitions by {
        let i = choose|i: int| 0 <= i < list.len() && key_spec(c.key_fn, &(#[trigger] list[i]).0) == k;
        ring.lemma_slots(i);
        assert(rebuilt.entry(key_spec(rebuilt.key_fn, &list[i].0)).item == list[i].0);
    }
    assert forall|i: int| 0 <= i < c.len() implies rebuilt.slot(c.slot_key(c.freq_list.slot_of(i)))
        == i by {
        assert(key_spec(c.key_fn, &list[i].0) == c.slot_key(ring.slot_of(i)));
    }
}

/// A full cache that takes in an item with a new key lets go of exactly
/// its oldest item: the number of items stays the same, the key of the
/// oldest item is no longer cached, and every other key that was cached
/// still is.
pub proof fn law_full_cache_evicts_oldest<T, F: Fn(&T) -> u64>(c: CacheMap<T, F>, after: CacheMap<T, F>, k: u64)
    requires
        c.wf(),
        c.len() == c.max_size,
        !c.contains(k),
        c.admitted(&after, k),
    ensures
        after.len() == c.len(),
        c.contains(c.slot_key(c.freq_list.slot_of(0))),
        !after.contains(c.slot_key(c.freq_list.slot_of(0))),
        after.contains(k),
        forall|k2: u64|
            k2 != c.slot_key(c.freq_list.slot_of(0)) && c.contains(k2) ==> #[trigger] after.contains(k2),
{
    c.freq_list.lemma_slots(0);
    let oldest = c.slot_key(c.freq_list.slot_of(0));
    assert(c.freq_list.slot_of(0) == c.freq_list.p);
    assert(c.contains(oldest) && c.slot(oldest) == c.freq_list.p);
    assert(after.contains(oldest) == (c.contains(oldest) && c.slot(oldest) != c.freq_list.p));
    assert forall|k2: u64| k2 != oldest && c.contains(k2) implies #[trigger] after.contains(k2) by {
        assert(c.slot_key(c.slot(k2) as int) == k2);
        assert(after.contains(k2) == (c.contains(k2) && c.slot(k2) != c.freq_list.p));
    }
}

/// A cache that takes in an item whose key is cached keeps its size: the
/// number of items stays the same, and so do the keys that are cached.
pub proof fn law_reinsert_keeps_size<T, F: Fn(&T) -> u64>(c: CacheMap<T, F>, after: CacheMap<T, F>, x: T)
    requires
        c.wf(),
        c.contains(key_spec(c.key_fn, &x)),
        c.put(&after, x),
    ensures
        after.len() == c.len(),
        forall|k: u64| (#[trigger] after.contains(k)) == c.contains(k),
{
}

/// A count of repetitions after one more.
pub open spec fn repeated(n: i32) -> i32 {
    if n < i32::MAX { (n + 1) as i32 } else { n }
}

/// The key that the key function gives an item.
pub open spec fn key_spec<T, F: Fn(&T) -> u64>(f: F, item: &T) -> u64 {
    choose|k: u64| f.ensures((item,), k)
}

/// The key function can be called on every item and gives an item one key.
pub open spec fn is_key_fn<T, F: Fn(&T) -> u64>(f: F) -> bool {
    &&& forall|x: &T| #[trigger] f.requires((x,))
    &&& forall|x: &T, k: u64| #[trigger] f.ensures((x,), k) ==> k == key_spec(f, x)
}

/// A cache of fixed capacity. Items lie in a ring; a map leads from the key
/// of an item to its slot. A new item takes the slot of the oldest one once
/// the ring is full; an item inserted again counts a repetition and moves
/// one slot on, away from the end where items are replaced.
pub struct CacheMap<T, F> {
    pub freq_list: LoopArray<Wrapper<T>>,
    pub map: HashMap<u64, usize>,
    pub size: usize,
    pub max_size: usize,
    pub key_fn: F,
}

impl<T, F: Fn(&T) -> u64> CacheMap<T, F> {
    /// The key of the item in slot `s`.
    pub open spec fn slot_key(&self, s: int) -> u64 {
        key_spec(self.key_fn, &self.freq_list.v@[s].unwrap().item)
    }

    /// The cache is sound: the map leads from the key of every item in the
    /// ring to its slot, and to nothing else; every item knows its slot.
    pub open spec fn wf(&self) -> bool {
        &&& is_key_fn(self.key_fn)
        &&& self.freq_list.wf()
        &&& self.max_size == self.freq_list.max_size
        &&& forall|s: int|
            0 <= s < self.max_size && (#[trigger] self.freq_list.v@[s]).is_some() ==> {
                &&& self.map@.contains_key(self.slot_key(s))
                &&& self.map@[self.slot_key(s)] == s
                &&& self.freq_list.v@[s].unwrap().array_pointer == s
            }
        &&& forall|k: u64| #[trigger]
            self.map@.contains_key(k) ==> {
                &&& self.map@[k] < self.max_size
                &&& self.freq_list.v@[self.map@[k] as int].is_some()
                &&& self.slot_key(self.map@[k] as int) == k
            }
    }

    /// Whether an item with key `k` is cached.
    pub open spec fn contains(&self, k: u64) -> bool {
        self.map@.contains_key(k)
    }

    /// The slot of the item with key `k`.
    pub open spec fn slot(&self, k: u64) -> usize {
        self.map@[k]
    }

    /// The entry of the item with key `k`.
    pub open spec fn entry(&self, k: u64) -> Wrapper<T> {
        self.freq_list.v@[self.map@[k] as int].unwrap()
    }

    /// The number of items cached.
    pub open spec fn len(&self) -> int {
        self.freq_list.data_size as int
    }

    /// An empty cache for at most `max_size` items.
    pub fn new(key_fn: F, max_size: usize) -> (c: CacheMap<T, F>)
        requires
            is_key_fn(key_fn),
            0 < max_size <= MAX_RING,
        ensures
            c.wf(),
            c.len() == 0,
            c.max_size == max_size,
            c.key_fn == key_fn,
            forall|k: u64| !c.contains(k),
    {
        CacheMap { map: HashMap::new(), max_size, size: 0, freq_list: LoopArray::new(max_size), key_fn }
    }

    /// The key of an item.
    pub fn key(&self, item: &T) -> (k: u64)
        requires
            is_key_fn(self.key_fn),
        ensures
            k == key_spec(self.key_fn, item),
    {
        (self.key_fn)(item)
    }

    /// The entry cached under `key`, if there is one.
    pub fn get(&self, key: &u64) -> (r: Option<&Wrapper<T>>)
        requires
            self.wf(),
        ensures
            match r {
                Some(w) => self.contains(*key) && *w == self.entry(*key),
                None => !self.contains(*key),
            },
    {
        match self.map.get(key) {
            Some(i) => self.freq_list.v[*i].as_ref(),
            None => None,
        }
    }

    /// Sets the number of repetitions of the cached item that has the key
    /// of `x`, if there is one.
    pub fn set_repetitions(&mut self, x: &T, repetitions: i32)
        requires
            old(self).wf(),
        ensures
            old(self).counted(final(self), key_spec(old(self).key_fn, x), repetitions),
    {
        let key = (self.key_fn)(x);
        self.set_repetitions_of(key, repetitions);
    }

    /// Caches an item. If an item with the same key is cached, it is
    /// replaced, counts one more repetition and changes places with the
    /// item in the next slot of the ring, unless that slot is the one to be
    /// written next. Else the item goes into the slot to be written next,
    /// as an entry never repeated, and the item that lay there, the oldest
    /// of a full ring, leaves the cache.
    pub fn insert(&mut self, x: T)
        requires
            old(self).wf(),
        ensures
            old(self).put(final(self), x),
    {
        let key = (self.key_fn)(&x);
        let found = match self.map.get(&key) {
            Some(i) => Some(*i),
            None => None,
        };
        if let Some(i) = found {
            let mut slot: Option<Wrapper<T>> = None;
            core::mem::swap(&mut slot, &mut self.freq_list.v[i]);
            let mut w = slot.unwrap();
            w.repeat();
            w.item = x;
            let i_next = self.freq_list.next_loop_p(i);
            match i_next {
                Some(n) => {
                    if n != i {
                        let mut other: Option<Wrapper<T>> = None;
                        core::mem::swap(&mut other, &mut self.freq_list.v[n]);
                        let mut o = other.unwrap();
                        let other_key = (self.key_fn)(&o.item);
                        o.array_pointer = i;
                        w.array_pointer = n;
                        self.freq_list.v.set(i, Some(o));
                        self.freq_list.v.set(n, Some(w));
                        self.map.insert(key, n);
                        self.map.insert(other_key, i);
                    } else {
                        self.freq_list.v.set(i, Some(w));
                    }
                },
                None => {
                    self.freq_list.v.set(i, Some(w));
                },
            }
            proof {
                assert forall|s: int|
                    0 <= s < self.max_size && (#[trigger] self.freq_list.v@[s]).is_some() implies {
                    &&& self.map@.contains_key(self.slot_key(s))
                    &&& self.map@[self.slot_key(s)] == s
                    &&& self.freq_list.v@[s].unwrap().array_pointer == s
                } by {
                    assert(old(self).freq_list.v@[s].is_some());
                }
                assert forall|k: u64| #[trigger] self.map@.contains_key(k) implies {
                    &&& self.map@[k] < self.max_size
                    &&& self.freq_list.v@[self.map@[k] as int].is_some()
                    &&& self.slot_key(self.map@[k] as int) == k
                } by {
                    assert(old(self).map@.contains_key(k));
                }
            }
        } else {
            let pointer = self.freq_list.p;
            let wrap = Wrapper { item: x, array_pointer: pointer, repetitions: 0 };
            let (gone, _) = self.freq_list.push(wrap);
            if let Some(o) = gone {
                let gone_key = (self.key_fn)(&o.item);
                self.map.remove(&gone_key);
            }
            self.map.insert(key, pointer);
            proof {
                assert forall|s: int|
                    0 <= s < self.max_size && (#[trigger] self.freq_list.v@[s]).is_some() implies {
                    &&& self.map@.contains_key(self.slot_key(s))
                    &&& self.map@[self.slot_key(s)] == s
                    &&& self.freq_list.v@[s].unwrap().array_pointer == s
                } by {
                    if s != pointer {
                        assert(old(self).freq_list.v@[s].is_some());
                        assert(self.slot_key(s) == old(self).slot_key(s));
                    }
                }
                assert forall|k: u64| #[trigger] self.map@.contains_key(k) implies {
                    &&& self.map@[k] < self.max_size
                    &&& self.freq_list.v@[self.map@[k] as int].is_some()
                    &&& self.slot_key(self.map@[k] as int) == k
                } by {
                    if k != key {
                        assert(old(self).map@.contains_key(k));
                    }
                }
            }
        }
    }

    /// The entries of the cache from the oldest to the newest.
    pub fn get_list(&self) -> (r: Vec<&Wrapper<T>>)
        requires
            self.wf(),
        ensures
            self.lists(r@),
    {
        self.freq_list.get_list()
    }

    /// `list` holds the entries of the cache from the oldest to the newest.
    pub open spec fn lists(&self, list: Seq<&Wrapper<T>>) -> bool {
        &&& list.len() == self.len()
        &&& forall|i: int|
            0 <= i < list.len() ==> *(#[trigger] list[i]) == self.freq_list.v@[self.freq_list.slot_of(i)].unwrap()
    }

    /// The cache holds exactly the items of `list`, each with the number of
    /// repetitions given with it, in the slots of the ring in the order of
    /// the list.
    pub open spec fn holds(&self, list: Seq<(T, i32)>) -> bool {
        &&& self.len() == list.len()
        &&& self.freq_list.p == (list.len() as int) % (self.max_size as int)
        &&& forall|i: int|
            0 <= i < list.len() ==> {
                let k = key_spec(self.key_fn, &(#[trigger] list[i]).0);
                &&& self.contains(k)
                &&& self.slot(k) == i
                &&& self.entry(k).item == list[i].0
                &&& self.entry(k).repetitions == list[i].1
            }
        &&& forall|k: u64| #[trigger]
            self.contains(k) ==> exists|i: int|
                0 <= i < list.len() && key_spec(self.key_fn, &(#[trigger] list[i]).0) == k
    }

    /// The items of `list` have keys that differ from one another.
    pub open spec fn distinct_keys(key_fn: F, list: Seq<(T, i32)>) -> bool {
        forall|i: int, j: int|
            0 <= i < j < list.len() ==> key_spec(key_fn, &(#[trigger] list[i]).0) != key_spec(
                key_fn,
                &(#[trigger] list[j]).0,
            )
    }

    /// Builds a cache by inserting the items of `list` into an empty cache
    /// one after the other and giving each the number of repetitions that
    /// stands with it (see [`CacheMap::replay`]). A list of items with
    /// distinct keys that fits the capacity is held afterwards as it was
    /// listed.
    pub fn from_list(list: Vec<(T, i32)>, key_fn: F, max_size: usize) -> (c: CacheMap<T, F>)
        requires
            is_key_fn(key_fn),
            0 < max_size <= MAX_RING,
        ensures
            c.wf(),
            c.key_fn == key_fn,
            c.max_size == max_size,
            exists|states: Seq<Self>| #[trigger]
                Self::replay(states, list@) && states[0].empty_for(key_fn, max_size) && states.last() == c,
            Self::distinct_keys(key_fn, list@) && list@.len() <= max_size ==> c.holds(list@),
    {
        let mut c = CacheMap::new(key_fn, max_size);
        c.fill(list);
        c
    }

    /// Inserts the items of `list` into an empty cache one after the other
    /// and gives each the number of repetitions that stands with it.
    pub fn fill(&mut self, list: Vec<(T, i32)>)
        requires
            old(self).wf(),
            old(self).len() == 0,
            old(self).freq_list.p == 0,
            forall|k: u64| !old(self).contains(k),
        ensures
            final(self).wf(),
            final(self).key_fn == old(self).key_fn,
            final(self).max_size == old(self).max_size,
            exists|states: Seq<Self>| #[trigger]
                Self::replay(states, list@) && states[0] == *old(self) && states.last() == *final(self),
            Self::distinct_keys(old(self).key_fn, list@) && list@.len() <= old(self).max_size ==> final(self).holds(
                list@,
            ),
    {
        let ghost key_fn = self.key_fn;
        let ghost max_size = self.max_size;
        let mut list = list;
        let ghost all = list@;
        let total = list.len();
        let mut rest: Vec<(T, i32)> = Vec::new();
        // the items are taken from the end, so turn the list round first
        while list.len() > 0
            invariant
                total == all.len(),
                rest@.len() + list@.len() == all.len(),
                forall|i: int| 0 <= i < list@.len() ==> list@[i] == all[i],
                forall|i: int| 0 <= i < rest@.len() ==> rest@[i] == all[all.len() - 1 - i],
            decreases list@.len(),
        {
            let x = list.pop().unwrap();
            rest.push(x);
        }
        let ghost fits = Self::distinct_keys(key_fn, all) && all.len() <= max_size;
        let mut n: usize = 0;
        let ghost mut states: Seq<Self> = seq![*self];
        while rest.len() > 0
            invariant
                states.len() == n + 1,
                states[0] == *old(self),
                states.last() == *self,
                forall|i: int|
                    0 <= i < n ==> (#[trigger] states[i]).replayed(&states[i + 1], all[i].0, all[i].1),
                self.wf(),
                self.key_fn == key_fn,
                self.max_size == max_size,
                n + rest@.len() == all.len(),
                total == all.len(),
                forall|i: int| 0 <= i < rest@.len() ==> rest@[i] == all[all.len() - 1 - i],
                fits == (Self::distinct_keys(key_fn, all) && all.len() <= max_size),
                fits ==> self.holds(all.take(n as int)),
            decreases rest@.len(),
        {
            let (item, repetitions) = rest.pop().unwrap();
            let ghost before = *self;
            let ghost k = key_spec(key_fn, &item);
            assert(all[n as int] == (item, repetitions));
            let key = self.key(&item);
            proof {
                if fits {
                    assert(!before.contains(k)) by {
                        if before.contains(k) {
                            let i = choose|i: int|
                                0 <= i < n && key_spec(key_fn, &(#[trigger] all.take(n as int)[i]).0) == k;
                            assert(all.take(n as int)[i] == all[i]);
                        }
                    }
                }
            }
            let ghost x = item;
            self.insert(item);
            let ghost mid = *self;
            self.set_repetitions_of(key, repetitions);
            proof {
                assert(before.put(&mid, x) && mid.counted(self, key_spec(before.key_fn, &x), repetitions));
                assert(before.replayed(self, x, repetitions));
                let grown = states.push(*self);
                assert forall|i: int| 0 <= i < n + 1 implies (#[trigger] grown[i]).replayed(
                    &grown[i + 1],
                    all[i].0,
                    all[i].1,
                ) by {
                    if i < n {
                        assert(grown[i] == states[i] && grown[i + 1] == states[i + 1]);
                    }
                }
                states = grown;
                if fits {
                    let now = all.take(n + 1);
                    assert(now.len() == n + 1);
                    let m = max_size as int;
                    assert((n as int) % m == n) by (nonlinear_arith)
                        requires
                            0 <= n < m,
                    ;
                    assert forall|i: int| 0 <= i < now.len() implies {
                        let k2 = key_spec(self.key_fn, &(#[trigger] now[i]).0);
                        &&& self.contains(k2)
                        &&& self.slot(k2) == i
                        &&& self.entry(k2).item == now[i].0
                        &&& self.entry(k2).repetitions == now[i].1
                    } by {
                        let k2 = key_spec(self.key_fn, &now[i].0);
                        if i < n {
                            assert(all.take(n as int)[i] == now[i]);
                            assert(before.contains(k2));
                            assert(k2 != k);
                            assert(mid.contains(k2));
                            assert(mid.slot(k2) == before.slot(k2));
                        } else {
                            assert(now[i] == all[n as int]);
                        }
                    }
                    assert forall|k2: u64| #[trigger] self.contains(k2) implies exists|i: int|
                        0 <= i < now.len() && key_spec(self.key_fn, &(#[trigger] now[i]).0) == k2 by {
                        if k2 == k {
                            assert(key_spec(self.key_fn, &now[n as int].0) == k2);
                        } else {
                            assert(mid.contains(k2));
                            assert(before.contains(k2));
                            let i = choose|i: int|
                                0 <= i < n && key_spec(key_fn, &(#[trigger] all.take(n as int)[i]).0) == k2;
                            assert(now[i] == all.take(n as int)[i]);
                        }
                    }
                }
            }
            n += 1;
        }
        proof {
            assert(all.take(n as int) =~= all);
            assert(Self::replay(states, all));
        }
    }

    /// What sorting makes of the full cache `self`: with `keys` the numbers
    /// that `sort_fn` gave to the items in the slots, and `order` the slots
    /// by rising number, slots with equal numbers in their own order, the
    /// cache holds the items in that order, each as never repeated.
    pub open spec fn resorted<G: Fn(&T) -> i64>(
        &self,
        after: &Self,
        sort_fn: &G,
        keys: Seq<i64>,
        order: Seq<usize>,
    ) -> bool {
        &&& keys.len() == self.max_size
        &&& forall|s: int|
            0 <= s < keys.len() ==> sort_fn.ensures((&self.freq_list.v@[s].unwrap().item,), #[trigger] keys[s])
        &&& is_stable_order(order, keys)
        &&& after.holds(Seq::new(keys.len(), |k: int| (self.freq_list.v@[order[k] as int].unwrap().item, 0i32)))
    }

    /// Sorts the items of a full cache by the numbers that `sort_fn` gives
    /// them, smallest first, and starts counting their repetitions afresh;
    /// see [`CacheMap::resorted`].
    pub fn resort<G: Fn(&T) -> i64>(&mut self, sort_fn: &G)
        requires
            old(self).wf(),
            old(self).len() == old(self).max_size,
            forall|x: &T| #[trigger] sort_fn.requires((x,)),
        ensures
            final(self).wf(),
            final(self).key_fn == old(self).key_fn,
            final(self).max_size == old(self).max_size,
            exists|keys: Seq<i64>, order: Seq<usize>| #[trigger] old(self).resorted(final(self), sort_fn, keys, order),
    {
        let n = self.max_size;
        let ghost slots = self.freq_list.v@;
        let ghost key_fn = self.key_fn;
        let mut keys: Vec<i64> = Vec::new();
        let mut s: usize = 0;
        while s < n
            invariant
                self.wf(),
                self.len() == n,
                n == self.max_size,
                slots == self.freq_list.v@,
                s <= n,
                keys@.len() == s,
                forall|x: &T| #[trigger] sort_fn.requires((x,)),
                forall|i: int| 0 <= i < s ==> sort_fn.ensures((&slots[i].unwrap().item,), #[trigger] keys@[i]),
            decreases n - s,
        {
            match &self.freq_list.v[s] {
                Some(w) => {
                    keys.push(sort_fn(&w.item));
                },
                None => {
                    keys.push(0);
                },
            }
            s += 1;
        }
        let order = stable_order(&keys);
        // the entries leave the ring
        let mut taken: Vec<Option<Wrapper<T>>> = Vec::new();
        let mut s: usize = 0;
        while s < n
            invariant
                n == self.max_size,
                self.freq_list.v@.len() == n,
                slots.len() == n,
                s <= n,
                taken@.len() == s,
                forall|i: int| 0 <= i < s ==> (#[trigger] taken@[i]) == slots[i],
                forall|i: int| s <= i < n ==> (#[trigger] self.freq_list.v@[i]) == slots[i],
                self.key_fn == key_fn,
            decreases n - s,
        {
            let mut slot: Option<Wrapper<T>> = None;
            core::mem::swap(&mut slot, &mut self.freq_list.v[s]);
            taken.push(slot);
            s += 1;
        }
        self.freq_list = LoopArray::new(n);
        self.map = HashMap::new();
        let mut list: Vec<(T, i32)> = Vec::new();
        let mut k: usize = 0;
        while k < n
            invariant
                n == slots.len(),
                is_stable_order(order@, keys@),
                keys@.len() == n,
                taken@.len() == n,
                k <= n,
                list@.len() == k,
                forall|i: int| 0 <= i < n ==> (#[trigger] slots[i]).is_some(),
                forall|j: int| 0 <= j < k ==> (#[trigger] list@[j]) == (slots[order@[j] as int].unwrap().item, 0i32),
                forall|i: int|
                    0 <= i < n ==> (#[trigger] taken@[i]) == if exists|j: int| 0 <= j < k && order@[j] == i {
                        None
                    } else {
                        slots[i]
                    },
            decreases n - k,
        {
            let mut slot: Option<Wrapper<T>> = None;
            let at = order[k];
            assert(taken@[at as int] == slots[at as int]) by {
                if exists|j: int| 0 <= j < k && order@[j] == at {
                    let j = choose|j: int| 0 <= j < k && order@[j] == at;
                    assert(order@[j] != order@[k as int]);
                }
            }
            let ghost before = taken@;
            core::mem::swap(&mut slot, &mut taken[at]);
            let w = slot.unwrap();
            list.push((w.item, 0));
            proof {
                assert forall|i: int| 0 <= i < n implies (#[trigger] taken@[i]) == if exists|j: int|
                    0 <= j < k + 1 && order@[j] == i {
                    None
                } else {
                    slots[i]
                } by {
                    if i == at {
                        assert(order@[k as int] == i);
                    } else {
                        assert(taken@[i] == before[i]);
                        if exists|j: int| 0 <= j < k + 1 && order@[j] == i {
                            let j = choose|j: int| 0 <= j < k + 1 && order@[j] == i;
                            assert(j < k);
                        }
                    }
                }
            }
            k += 1;
        }
        proof {
            let want = Seq::new(keys@.len(), |k: int| (slots[order@[k] as int].unwrap().item, 0i32));
            assert(list@ =~= want);
            assert forall|a: int, b: int| 0 <= a < b < list@.len() implies key_spec(
                key_fn,
                &(#[trigger] list@[a]).0,
            ) != key_spec(key_fn, &(#[trigger] list@[b]).0) by {
                let x = order@[a] as int;
                let y = order@[b] as int;
                assert(order@[a] != order@[b]);
                assert(old(self).freq_list.v@[x].is_some() && old(self).freq_list.v@[y].is_some());
                assert(old(self).map@[old(self).slot_key(x)] == x);
                assert(old(self).map@[old(self).slot_key(y)] == y);
            }
        }
        self.fill(list);
        proof {
            assert(old(self).resorted(self, sort_fn, keys@, order@));
        }
    }

    /// Sets the number of repetitions of the item cached under `key`, if
    /// there is one.
    pub fn set_repetitions_of(&mut self, key: u64, repetitions: i32)
        requires
            old(self).wf(),
        ensures
            old(self).counted(final(self), key, repetitions),
    {
        let found = match self.map.get(&key) {
            Some(i) => Some(*i),
            None => None,
        };
        if let Some(i) = found {
            let mut slot: Option<Wrapper<T>> = None;
            core::mem::swap(&mut slot, &mut self.freq_list.v[i]);
            let mut w = slot.unwrap();
            w.repetitions = repetitions;
            self.freq_list.v.set(i, Some(w));
            proof {
                assert forall|s: int|
                    0 <= s < self.max_size && (#[trigger] self.freq_list.v@[s]).is_some() implies {
                    &&& self.map@.contains_key(self.slot_key(s))
                    &&& self.map@[self.slot_key(s)] == s
                    &&& self.freq_list.v@[s].unwrap().array_pointer == s
                } by {
                    assert(old(self).freq_list.v@[s].is_some());
                    assert(self.slot_key(s) == old(self).slot_key(s));
                }
                assert forall|k: u64| #[trigger] self.map@.contains_key(k) implies {
                    &&& self.map@[k] < self.max_size
                    &&& self.freq_list.v@[self.map@[k] as int].is_some()
                    &&& self.slot_key(self.map@[k] as int) == k
                } by {
                    assert(old(self).map@.contains_key(k));
                    assert(self.slot_key(self.map@[k] as int) == old(self).slot_key(self.map@[k] as int));
                }
            }
        }
    }

    /// What inserting item `x` makes of the cache: the cache `after` holds
    /// the item under its key, after what [`CacheMap::reinserted`] says if
    /// the key was cached, and else after what [`CacheMap::admitted`] says.
    pub open spec fn put(&self, after: &Self, x: T) -> bool {
        let k = key_spec(self.key_fn, &x);
        &&& after.wf()
        &&& after.key_fn == self.key_fn
        &&& after.max_size == self.max_size
        &&& after.contains(k)
        &&& after.entry(k).item == x
        &&& self.contains(k) ==> self.reinserted(after, k)
        &&& !self.contains(k) ==> self.admitted(after, k)
    }

    /// What setting the number of repetitions under `key` to `repetitions`
    /// makes of the cache: the same items under the same keys in the same
    /// slots, each with its repetitions but the one under `key`.
    pub open spec fn counted(&self, after: &Self, key: u64, repetitions: i32) -> bool {
        &&& after.wf()
        &&& after.len() == self.len()
        &&& after.freq_list.p == self.freq_list.p
        &&& after.map@ == self.map@
        &&& after.key_fn == self.key_fn
        &&& after.max_size == self.max_size
        &&& forall|k: u64|
            self.contains(k) ==> {
                &&& (#[trigger] after.entry(k)).item == self.entry(k).item
                &&& after.entry(k).repetitions == if k == key {
                    repetitions
                } else {
                    self.entry(k).repetitions
                }
            }
    }

    /// What inserting item `x` and giving it `repetitions` repetitions
    /// makes of the cache; see [`CacheMap::put`] and
    /// [`CacheMap::counted`].
    pub open spec fn replayed(&self, after: &Self, x: T, repetitions: i32) -> bool {
        exists|mid: Self| #[trigger] self.put(&mid, x) && mid.counted(after, key_spec(self.key_fn, &x), repetitions)
    }

    /// `states` are the caches that inserting the items of `list` one
    /// after the other makes of the first of them, each item with the
    /// number of repetitions that stands with it.
    pub open spec fn replay(states: Seq<Self>, list: Seq<(T, i32)>) -> bool {
        &&& states.len() == list.len() + 1
        &&& forall|i: int|
            0 <= i < list.len() ==> (#[trigger] states[i]).replayed(&states[i + 1], list[i].0, list[i].1)
    }

    /// The cache is empty, with `key_fn` for the keys and room for
    /// `max_size` items.
    pub open spec fn empty_for(&self, key_fn: F, max_size: usize) -> bool {
        &&& self.wf()
        &&& self.len() == 0
        &&& self.max_size == max_size
        &&& self.key_fn == key_fn
        &&& forall|k: u64| !self.contains(k)
    }

    /// What inserting an item whose key `k` is cached makes of the cache:
    /// the same number of items under the same keys; the entry of `k`
    /// counts one more repetition and lies one slot further, unless that
    /// slot is the one to be written next; the entry that lay there has
    /// taken its place; every other entry is as before.
    pub open spec fn reinserted(&self, after: &Self, k: u64) -> bool {
        let from = self.slot(k);
        let to = match self.freq_list.slot_after(from as int) {
            Some(n) => n,
            None => from,
        };
        &&& after.len() == self.len()
        &&& after.freq_list.p == self.freq_list.p
        &&& after.slot(k) == to
        &&& after.entry(k).repetitions == repeated(self.entry(k).repetitions)
        &&& forall|k2: u64| (#[trigger] after.contains(k2)) == self.contains(k2)
        &&& forall|k2: u64|
            k2 != k && self.contains(k2) ==> {
                &&& (#[trigger] after.slot(k2)) == if self.slot(k2) == to { from } else { self.slot(k2) }
                &&& after.entry(k2).item == self.entry(k2).item
                &&& after.entry(k2).repetitions == self.entry(k2).repetitions
            }
    }

    /// What inserting an item whose key `k` is not cached makes of the
    /// cache: the item lies in the slot that was to be written next, never
    /// repeated; the item that lay in that slot, the oldest of a full ring,
    /// is gone, and so the number of items grows only while the ring is not
    /// full; every other entry is as before.
    pub open spec fn admitted(&self, after: &Self, k: u64) -> bool {
        let at = self.freq_list.p;
        &&& after.len() == if self.len() < self.max_size { self.len() + 1 } else { self.len() }
        &&& after.freq_list.p == (at + 1) % (self.max_size as int)
        &&& after.contains(k)
        &&& after.slot(k) == at
        &&& after.entry(k).repetitions == 0
        &&& forall|k2: u64| k2 != k ==> (#[trigger] after.contains(k2)) == (self.contains(k2) && self.slot(k2) != at)
        &&& forall|k2: u64|
            k2 != k && self.contains(k2) && self.slot(k2) != at ==> {
                &&& (#[trigger] after.slot(k2)) == self.slot(k2)
                &&& after.entry(k2).item == self.entry(k2).item
                &&& after.entry(k2).repetitions == self.entry(k2).repetitions
            }
    }
}

} // verus!
