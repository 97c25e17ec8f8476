use vstd::prelude::*;
use dashmap::DashMap;
use crate::mcts::{Quality, VectorPosition};

verus! {

#[verifier::external_type_specification]
#[verifier::external_body]
#[verifier::reject_recursive_types(K)]
#[verifier::reject_recursive_types(V)]
#[verifier::reject_recursive_types(S)]
pub struct ExDashMap<K, V, S>(DashMap<K, V, S>);

/// What a worker waits for before it touches the shared table.
#[derive(Copy, Clone, Debug, PartialEq, Eq, Structural)]
pub enum WaitWhile {
    Del,
    Rw,
}

impl WaitWhile {
    /// The number the state is known by: 1 while entries are cut, 2 while
    /// they are read or written.
    pub fn code(&self) -> (r: u32)
        ensures
            r == match self {
                WaitWhile::Del => 1u32,
                WaitWhile::Rw => 2u32,
            },
    {
        match self {
            WaitWhile::Del => 1,
            WaitWhile::Rw => 2,
        }
    }
}

/// What the search has learnt of a position: its key, how it fared, and
/// how each of its children fared, with their keys.
#[derive(Debug)]
pub struct NodeCacheItem {
    pub key: VectorPosition,
    pub quality: Quality,
    pub childs: Vec<(VectorPosition, Quality)>,
}

/// The mathematical value of a [`NodeCacheItem`].
pub struct NodeCacheItemView {
    pub key: Seq<i8>,
    pub quality: Quality,
    pub childs: Seq<(Seq<i8>, Quality)>,
}

impl View for NodeCacheItem {
    type V = NodeCacheItemView;

    open spec fn view(&self) -> NodeCacheItemView {
        NodeCacheItemView {
            key: self.key@,
            quality: self.quality,
            childs: Seq::new(self.childs@.len(), |i: int| (self.childs@[i].0@, self.childs@[i].1)),
        }
    }
}

impl Clone for NodeCacheItem {
    fn clone(&self) -> (r: Self)
        ensures
            r@ == self@,
    {
        let mut childs: Vec<(VectorPosition, Quality)> = Vec::new();
        let mut i: usize = 0;
        while i < self.childs.len()
            invariant
                i <= self.childs@.len(),
                childs@.len() == i,
                forall|k: int| 0 <= k < i ==> childs@[k].0@ == self.childs@[k].0@ && childs@[k].1 == self.childs@[k].1,
            decreases self.childs@.len() - i,
        {
            childs.push((self.childs[i].0.clone(), self.childs[i].1));
            i += 1;
        }
        let r = NodeCacheItem { key: self.key.clone(), quality: self.quality, childs };
        assert(r@.childs =~= self@.childs);
        r
    }
}

impl NodeCacheItem {
    /// The key of the position the item speaks of.
    pub fn key(&self) -> (r: VectorPosition)
        ensures
            r@ == self@.key,
    {
        self.key.clone()
    }
}

/// An item of the shared cache with the number of times it was inserted
/// and the number of changes not yet written to the store.
#[derive(Debug)]
pub struct WrapItem {
    pub item: NodeCacheItem,
    pub repetitions: u64,
    pub write_counts: u16,
}

/// The mathematical value of a [`WrapItem`].
pub struct WrapItemView {
    pub item: NodeCacheItemView,
    pub repetitions: u64,
    pub write_counts: u16,
}

impl View for WrapItem {
    type V = WrapItemView;

    open spec fn view(&self) -> WrapItemView {
        WrapItemView { item: self.item@, repetitions: self.repetitions, write_counts: self.write_counts }
    }
}

impl Clone for WrapItem {
    fn clone(&self) -> (r: Self)
        ensures
            r@ == self@,
    {
        WrapItem { item: self.item.clone(), repetitions: self.repetitions, write_counts: self.write_counts }
    }
}

impl WrapItem {
    /// An entry inserted once, with nothing to write.
    pub fn new(item: NodeCacheItem) -> (w: WrapItem)
        ensures
            w.item == item,
            w.repetitions == 1,
            w.write_counts == 0,
    {
        WrapItem { item, repetitions: 1, write_counts: 0 }
    }

    pub fn get_item(&self) -> (r: &NodeCacheItem)
        ensures
            *r == self.item,
    {
        &self.item
    }

    pub fn set_item(&mut self, item: NodeCacheItem)
        ensures
            final(self).item == item,
            final(self).repetitions == old(self).repetitions,
            final(self).write_counts == old(self).write_counts,
    {
        self.item = item;
    }
}

/// Whether an entry stays when entries inserted fewer than `cut` times are
/// dropped.
pub fn keeps(entry: &WrapItem, cut: u64) -> (r: bool)
    ensures
        r == (entry.repetitions >= cut),
{
    entry.repetitions >= cut
}

/// What the table holds: the values of its entries by their keys.
pub uninterp spec fn table_items(table: DashMap<Vec<i8>, WrapItem>) -> Map<Seq<i8>, WrapItemView>;

/// The entries of `items` inserted at least `cut` times.
pub open spec fn kept_items(items: Map<Seq<i8>, WrapItemView>, cut: u64) -> Map<Seq<i8>, WrapItemView> {
    Map::new(|k: Seq<i8>| items.contains_key(k) && items[k].repetitions >= cut, |k: Seq<i8>| items[k])
}

/// `list` holds every entry of `items` once, in some order.
pub open spec fn lists_items(list: Seq<(Vec<i8>, WrapItem)>, items: Map<Seq<i8>, WrapItemView>) -> bool {
    &&& forall|i: int| 0 <= i < list.len() ==> items.contains_key((#[trigger] list[i]).0@) && items[list[i].0@] == list[i].1@
    &&& forall|k: Seq<i8>| items.contains_key(k) ==> exists|i: int| 0 <= i < list.len() && (#[trigger] list[i]).0@ == k
    &&& forall|i: int, j: int| 0 <= i < j < list.len() ==> (#[trigger] list[i]).0@ != (#[trigger] list[j]).0@
}

/// An empty table.
///
/// Calls `DashMap::new`, which creates a map without entries.
#[verifier::external_body]
fn table_new() -> (r: DashMap<Vec<i8>, WrapItem>)
    ensures
        table_items(r).dom() == Set::<Seq<i8>>::empty(),
{
    DashMap::new()
}

/// A copy of the entry under `key`, if there is one.
///
/// Calls `DashMap::get`, which looks the key up and hands out a reference
/// to its entry if the map holds one; the entry is copied and the
/// reference given back before the call returns.
#[verifier::external_body]
fn table_get(table: &DashMap<Vec<i8>, WrapItem>, key: &Vec<i8>) -> (r: Option<WrapItem>)
    ensures
        r.is_some() == table_items(*table).contains_key(key@),
        r.is_some() ==> r.unwrap()@ == table_items(*table)[key@],
{
    match table.get(key) {
        Some(entry) => Some(entry.value().clone()),
        None => None,
    }
}

/// Puts `value` under `key`, in place of what was there.
///
/// Calls `DashMap::insert`, which inserts the key and the value and
/// replaces the value the key had. No reference into the map is held
/// during the call.
#[verifier::external_body]
fn table_insert(table: &mut DashMap<Vec<i8>, WrapItem>, key: Vec<i8>, value: WrapItem)
    ensures
        table_items(*final(table)) == table_items(*old(table)).insert(key@, value@),
{
    table.insert(key, value);
}

/// Drops the entries inserted fewer than `cut` times.
///
/// Calls `DashMap::retain`, which keeps the entries for which the
/// predicate returns true and discards the others; the predicate is
/// [`keeps`]. No reference into the map is held during the call.
#[verifier::external_body]
fn table_retain(table: &mut DashMap<Vec<i8>, WrapItem>, cut: u64)
    ensures
        table_items(*final(table)) == kept_items(table_items(*old(table)), cut),
{
    table.retain(|_, entry| keeps(entry, cut));
}

/// Copies of all entries of the table with their keys.
///
/// Calls `DashMap::iter`, which walks all entries of the map, each once,
/// in an order that is left open; each entry is copied as it is met.
#[verifier::external_body]
fn table_entries(table: &DashMap<Vec<i8>, WrapItem>) -> (r: Vec<(Vec<i8>, WrapItem)>)
    ensures
        lists_items(r@, table_items(*table)),
{
    let mut list = Vec::new();
    for entry in table.iter() {
        list.push((entry.key().clone(), entry.value().clone()));
    }
    list
}

/// What the worker has to do to the document store after a change of the
/// table: insert a new entry, write a changed entry, or delete every entry
/// inserted fewer times than a threshold.
#[derive(Debug)]
pub enum StoreAction {
    Insert(WrapItem),
    Update(WrapItem),
    DeleteBelow(u32),
}

/// The mathematical value of a [`StoreAction`].
pub enum StoreActionView {
    Insert(WrapItemView),
    Update(WrapItemView),
    DeleteBelow(u32),
}

impl View for StoreAction {
    type V = StoreActionView;

    open spec fn view(&self) -> StoreActionView {
        match self {
            StoreAction::Insert(w) => StoreActionView::Insert(w@),
            StoreAction::Update(w) => StoreActionView::Update(w@),
            StoreAction::DeleteBelow(c) => StoreActionView::DeleteBelow(*c),
        }
    }
}

/// The values of a row of actions.
pub open spec fn actions_view(s: Seq<StoreAction>) -> Seq<StoreActionView> {
    Seq::new(s.len(), |i: int| s[i]@)
}

/// Puts the actions `from` behind the actions `to`, in their order.
pub fn append_actions(to: &mut Vec<StoreAction>, from: Vec<StoreAction>)
    ensures
        actions_view(final(to)@) == actions_view(old(to)@) + actions_view(from@),
{
    let ghost head = actions_view(to@);
    let ghost tail = actions_view(from@);
    let mut from = from;
    let mut turned: Vec<StoreAction> = Vec::new();
    while from.len() > 0
        invariant
            turned@.len() + from@.len() == tail.len(),
            forall|i: int| 0 <= i < from@.len() ==> (#[trigger] from@[i])@ == tail[i],
            forall|i: int| 0 <= i < turned@.len() ==> (#[trigger] turned@[i])@ == tail[tail.len() - 1 - i],
        decreases from@.len(),
    {
        let a = from.pop().unwrap();
        turned.push(a);
    }
    let ghost n0 = to@.len();
    while turned.len() > 0
        invariant
            n0 == head.len(),
            to@.len() >= n0,
            to@.len() + turned@.len() == n0 + tail.len(),
            forall|i: int| 0 <= i < n0 ==> (#[trigger] to@[i])@ == head[i],
            forall|i: int| n0 <= i < to@.len() ==> (#[trigger] to@[i])@ == tail[i - n0],
            forall|i: int| 0 <= i < turned@.len() ==> (#[trigger] turned@[i])@ == tail[tail.len() - 1 - i],
        decreases turned@.len(),
    {
        let a = turned.pop().unwrap();
        to.push(a);
    }
    assert(actions_view(to@) =~= head + tail);
}

/// A count after one more, held at the largest number of its type.
pub open spec fn bumped64(n: u64) -> u64 {
    if n < u64::MAX { (n + 1) as u64 } else { n }
}

/// A count after one more, held at the largest number of its type.
pub open spec fn bumped16(n: u16) -> u16 {
    if n < u16::MAX { (n + 1) as u16 } else { n }
}

/// What is kept of a position when `item` meets what is cached of it,
/// `before`: the one of the two that has seen the position more often, and
/// `item` if both have seen it equally often. So the number of visits
/// cached never falls.
pub open spec fn merged(before: NodeCacheItemView, item: NodeCacheItemView) -> NodeCacheItemView {
    if item.quality.N >= before.quality.N {
        item
    } else {
        before
    }
}

/// The entry that takes the place of `before` when `item` is inserted
/// again: what is kept of the two (see [`merged`]), one more repetition,
/// and one more change to write, or none where that makes `every` of them
/// and the entry is written.
pub open spec fn rewritten(before: WrapItemView, item: NodeCacheItemView, every: u16) -> WrapItemView {
    WrapItemView {
        item: merged(before.item, item),
        repetitions: bumped64(before.repetitions),
        write_counts: if bumped16(before.write_counts) == every { 0 } else { bumped16(before.write_counts) },
    }
}

/// What inserting `item` makes of the entries `before` and of the count of
/// new entries, and what it asks of the store: a new key gets an entry
/// inserted once and is inserted into the store; a known key keeps the
/// item that has seen the position more often, gets one more repetition
/// and one more change to write, and is written to the store at every
/// `every`-th change.
pub open spec fn upserted(
    before: Map<Seq<i8>, WrapItemView>,
    count: u64,
    every: u16,
    item: NodeCacheItemView,
    after: Map<Seq<i8>, WrapItemView>,
    after_count: u64,
    action: Option<StoreActionView>,
) -> bool {
    if before.contains_key(item.key) {
        let w = rewritten(before[item.key], item, every);
        &&& after == before.insert(item.key, w)
        &&& after_count == count
        &&& action == if bumped16(before[item.key].write_counts) == every {
            Some(StoreActionView::Update(w))
        } else {
            None
        }
    } else {
        let w = WrapItemView { item, repetitions: 1, write_counts: 0 };
        &&& after == before.insert(item.key, w)
        &&& after_count == bumped64(count)
        &&& action == Some(StoreActionView::Insert(w))
    }
}

/// The number of visits cached of a position never falls when an item is
/// inserted, and no other entry changes.
pub proof fn law_visits_never_fall(
    before: Map<Seq<i8>, WrapItemView>,
    count: u64,
    every: u16,
    item: NodeCacheItemView,
    after: Map<Seq<i8>, WrapItemView>,
    after_count: u64,
    action: Option<StoreActionView>,
)
    requires
        upserted(before, count, every, item, after, after_count, action),
    ensures
        forall|k: Seq<i8>| #[trigger]
            before.contains_key(k) ==> after.contains_key(k) && after[k].item.quality.N >= before[k].item.quality.N,
        after.contains_key(item.key),
        after[item.key].item.quality.N >= item.quality.N,
{
}

/// The sum of the repetitions of the first `n` entries of `list`.
pub open spec fn sum_repetitions(list: Seq<(Vec<i8>, WrapItem)>, n: int) -> int
    decreases n,
{
    if n <= 0 {
        0
    } else {
        sum_repetitions(list, n - 1) + list[n - 1].1.repetitions
    }
}

/// The writes that bring the store up to date with the first `n` entries
/// of `list`: one for each entry with changes not yet written.
pub open spec fn flushes(list: Seq<(Vec<i8>, WrapItem)>, n: int) -> Seq<StoreActionView>
    decreases n,
{
    if n <= 0 {
        Seq::empty()
    } else if list[n - 1].1.write_counts > 0 {
        flushes(list, n - 1).push(StoreActionView::Update(list[n - 1].1@))
    } else {
        flushes(list, n - 1)
    }
}

/// The threshold as the store takes it: held at the largest number of its
/// type.
pub open spec fn store_cut(cut: u64) -> u32 {
    if cut > u32::MAX { u32::MAX } else { cut as u32 }
}

/// What the upkeep makes of the entries `before`, and what it asks of the
/// store. With `list` the entries in the order the table hands them out:
/// if no entry was ever repeated nothing happens. Else the threshold is
/// the mean number of repetitions divided by 70; the entries below it are
/// dropped; those that stay and have changes not yet written are written
/// to the store, in the order `rest` in which the table hands them out;
/// and the store is asked to delete what lies below the threshold.
pub open spec fn upkept(
    before: Map<Seq<i8>, WrapItemView>,
    after: Map<Seq<i8>, WrapItemView>,
    actions: Seq<StoreActionView>,
    list: Seq<(Vec<i8>, WrapItem)>,
    rest: Seq<(Vec<i8>, WrapItem)>,
) -> bool {
    let total = sum_repetitions(list, list.len() as int);
    &&& lists_items(list, before)
    &&& if total > 0 {
        let cut = (total / (list.len() as int) / 70) as u64;
        &&& after == kept_items(before, cut)
        &&& lists_items(rest, after)
        &&& actions == flushes(rest, rest.len() as int).push(StoreActionView::DeleteBelow(store_cut(cut)))
    } else {
        after == before && actions == Seq::<StoreActionView>::empty()
    }
}

/// The part of the shared cache that lives in the worker: a table of what
/// the search has learnt, by position, with what decides when entries are
/// written to the document store behind it and when rare entries are
/// dropped. The store itself is reached by the worker, which carries out
/// the actions the cache hands back.
#[derive(Debug)]
pub struct CacheDb {
    pub map: DashMap<Vec<i8>, WrapItem>,
    pub db_name: String,
    pub collection_name: String,
    pub size_limit: u64,
    pub item_update_every: u16,
    pub cut_collection_every: u16,
    pub inserts_count: u64,
}

impl CacheDb {
    /// The entries of the table by their keys.
    pub open spec fn items(&self) -> Map<Seq<i8>, WrapItemView> {
        table_items(self.map)
    }

    /// Every entry lies under the key of its item.
    pub open spec fn wf(&self) -> bool {
        forall|k: Seq<i8>| #[trigger] self.items().contains_key(k) ==> self.items()[k].item.key == k
    }

    /// The table has seen the position of `item` more often than `item`
    /// has.
    pub open spec fn outdoes(&self, item: NodeCacheItemView) -> bool {
        self.items().contains_key(item.key) && self.items()[item.key].item.quality.N > item.quality.N
    }

    /// Everything but the table and the count of new entries is as in
    /// `other`.
    pub open spec fn same_settings(&self, other: &CacheDb) -> bool {
        &&& self.db_name == other.db_name
        &&& self.collection_name == other.collection_name
        &&& self.size_limit == other.size_limit
        &&& self.item_update_every == other.item_update_every
        &&& self.cut_collection_every == other.cut_collection_every
    }

    /// An empty cache.
    pub fn new(
        db_name: String,
        collection_name: String,
        size_limit: u64,
        item_update_every: u16,
        cut_collection_every: u16,
    ) -> (c: CacheDb)
        ensures
            c.wf(),
            c.items().dom() == Set::<Seq<i8>>::empty(),
            c.db_name == db_name,
            c.collection_name == collection_name,
            c.size_limit == size_limit,
            c.item_update_every == item_update_every,
            c.cut_collection_every == cut_collection_every,
            c.inserts_count == 0,
    {
        let c = CacheDb {
            map: table_new(),
            db_name,
            collection_name,
            size_limit,
            item_update_every,
            cut_collection_every,
            inserts_count: 0,
        };
        assert forall|k: Seq<i8>| #[trigger] c.items().contains_key(k) implies c.items()[k].item.key == k by {
            assert(c.items().dom().contains(k));
        }
        c
    }

    /// What is cached of the position with the given key, if anything.
    pub fn get(&self, key: &VectorPosition) -> (r: Option<NodeCacheItem>)
        ensures
            r.is_some() == self.items().contains_key(key@),
            r.is_some() ==> r.unwrap()@ == self.items()[key@].item,
    {
        match table_get(&self.map, &key.0) {
            Some(w) => Some(w.item),
            None => None,
        }
    }

    /// Takes over an entry read from the store: `item` inserted
    /// `repetitions` times, with nothing to write. An entry of the table
    /// that has seen the position more often stays as it is.
    pub fn load(&mut self, item: NodeCacheItem, repetitions: u64)
        requires
            old(self).wf(),
        ensures
            final(self).wf(),
            final(self).same_settings(old(self)),
            final(self).inserts_count == old(self).inserts_count,
            final(self).items() == if old(self).outdoes(item@) {
                old(self).items()
            } else {
                old(self).items().insert(item@.key, WrapItemView { item: item@, repetitions, write_counts: 0 })
            },
    {
        let key = item.key.clone();
        match table_get(&self.map, &key.0) {
            Some(known) => {
                if known.item.quality.N > item.quality.N {
                    return;
                }
            },
            None => {},
        }
        let wrap = WrapItem { item, repetitions, write_counts: 0 };
        table_insert(&mut self.map, key.0, wrap);
        proof {
            assert forall|k: Seq<i8>| #[trigger] self.items().contains_key(k) implies self.items()[k].item.key
                == k by {
                if k != key@ {
                    assert(old(self).items().contains_key(k));
                }
            }
        }
    }

    /// Copies of all entries, in the order the table hands them out.
    pub fn entries(&self) -> (r: Vec<(Vec<i8>, WrapItem)>)
        ensures
            lists_items(r@, self.items()),
    {
        table_entries(&self.map)
    }

    /// The writes that bring the store up to date: one for each entry with
    /// changes not yet written, in the order the table hands them out.
    pub fn flush(&self) -> (r: Vec<StoreAction>)
        ensures
            exists|list: Seq<(Vec<i8>, WrapItem)>|
                lists_items(list, self.items()) && actions_view(r@) == #[trigger] flushes(list, list.len() as int),
    {
        let mut actions: Vec<StoreAction> = Vec::new();
        let rest = table_entries(&self.map);
        let mut k: usize = 0;
        while k < rest.len()
            invariant
                k <= rest@.len(),
                actions_view(actions@) == flushes(rest@, k as int),
            decreases rest@.len() - k,
        {
            let ghost before = actions_view(actions@);
            if rest[k].1.write_counts > 0 {
                actions.push(StoreAction::Update(rest[k].1.clone()));
                assert(actions_view(actions@) =~= before.push(StoreActionView::Update(rest@[k as int].1@)));
            }
            k += 1;
        }
        actions
    }

    /// Puts `item` into the table; see [`upserted`]. Returns what the
    /// store is to do, if anything.
    pub fn upsert(&mut self, item: NodeCacheItem) -> (r: Option<StoreAction>)
        requires
            old(self).wf(),
        ensures
            final(self).wf(),
            final(self).same_settings(old(self)),
            upserted(
                old(self).items(),
                old(self).inserts_count,
                old(self).item_update_every,
                item@,
                final(self).items(),
                final(self).inserts_count,
                match r {
                    Some(a) => Some(a@),
                    None => None,
                },
            ),
    {
        let key = item.key.clone();
        match table_get(&self.map, &key.0) {
            None => {
                if self.inserts_count < u64::MAX {
                    self.inserts_count += 1;
                }
                let wrap = WrapItem::new(item);
                let copy = wrap.clone();
                table_insert(&mut self.map, key.0, wrap);
                proof {
                    assert forall|k: Seq<i8>| #[trigger] self.items().contains_key(k) implies self.items()[k].item.key
                        == k by {
                        if k != key@ {
                            assert(old(self).items().contains_key(k));
                        }
                    }
                }
                Some(StoreAction::Insert(copy))
            },
            Some(before) => {
                let mut val = before;
                if val.repetitions < u64::MAX {
                    val.repetitions += 1;
                }
                if val.write_counts < u16::MAX {
                    val.write_counts += 1;
                }
                if item.quality.N >= val.item.quality.N {
                    val.set_item(item);
                }
                let mut action: Option<StoreAction> = None;
                if val.write_counts == self.item_update_every {
                    val.write_counts = 0;
                    action = Some(StoreAction::Update(val.clone()));
                }
                table_insert(&mut self.map, key.0, val);
                proof {
                    assert(old(self).items().contains_key(key@));
                    assert forall|k: Seq<i8>| #[trigger] self.items().contains_key(k) implies self.items()[k].item.key
                        == k by {
                        if k != key@ {
                            assert(old(self).items().contains_key(k));
                        }
                    }
                }
                action
            },
        }
    }

    /// The upkeep of the table; see [`upkept`]. Returns what the store is
    /// to do, and starts counting new entries afresh.
    pub fn maintain(&mut self) -> (r: Vec<StoreAction>)
        requires
            old(self).wf(),
        ensures
            final(self).wf(),
            final(self).same_settings(old(self)),
            final(self).inserts_count == 0,
            exists|list: Seq<(Vec<i8>, WrapItem)>, rest: Seq<(Vec<i8>, WrapItem)>|
                upkept(old(self).items(), final(self).items(), actions_view(r@), list, rest),
    {
        let mut actions: Vec<StoreAction> = Vec::new();
        let entries = table_entries(&self.map);
        let mut sum_rep: u128 = 0;
        let mut i: usize = 0;
        while i < entries.len()
            invariant
                i <= entries@.len(),
                sum_rep == sum_repetitions(entries@, i as int),
                sum_rep <= i * 0xFFFF_FFFF_FFFF_FFFF,
            decreases entries@.len() - i,
        {
            assert((i + 1) * 0xFFFF_FFFF_FFFF_FFFF <= 0xFFFF_FFFF_FFFF_FFFF * 0xFFFF_FFFF_FFFF_FFFF) by (nonlinear_arith)
                requires
                    i + 1 <= 0xFFFF_FFFF_FFFF_FFFF,
            ;
            sum_rep += entries[i].1.repetitions as u128;
            i += 1;
        }
        self.inserts_count = 0;
        if sum_rep > 0 {
            let len = entries.len() as u128;
            let mean = sum_rep / len;
            assert(mean <= 0xFFFF_FFFF_FFFF_FFFF) by (nonlinear_arith)
                requires
                    mean == sum_rep / len,
                    len > 0,
                    sum_rep <= len * 0xFFFF_FFFF_FFFF_FFFF,
            ;
            let cut = (mean / 70) as u64;
            table_retain(&mut self.map, cut);
            let rest = table_entries(&self.map);
            let mut k: usize = 0;
            while k < rest.len()
                invariant
                    k <= rest@.len(),
                    actions_view(actions@) == flushes(rest@, k as int),
                decreases rest@.len() - k,
            {
                let ghost before = actions_view(actions@);
                if rest[k].1.write_counts > 0 {
                    actions.push(StoreAction::Update(rest[k].1.clone()));
                    assert(actions_view(actions@) =~= before.push(StoreActionView::Update(rest@[k as int].1@)));
                }
                k += 1;
            }
            let ghost before = actions_view(actions@);
            let limit: u32 = if cut > 0xFFFF_FFFF { 0xFFFF_FFFF } else { cut as u32 };
            actions.push(StoreAction::DeleteBelow(limit));
            proof {
                assert(actions_view(actions@) =~= before.push(StoreActionView::DeleteBelow(store_cut(cut))));
                assert(upkept(old(self).items(), self.items(), actions_view(actions@), entries@, rest@));
            }
        } else {
            proof {
                assert(actions_view(actions@) =~= Seq::<StoreActionView>::empty());
                assert(upkept(old(self).items(), self.items(), actions_view(actions@), entries@, entries@));
            }
        }
        actions
    }

    /// What inserting `item` makes of the cache `self`, and what it asks of
    /// the store: the item is put into the table (see [`upserted`]); then,
    /// if as many new entries as `cut_collection_every` have come since the
    /// last upkeep, the table is kept up (see [`upkept`]) and new entries
    /// are counted afresh.
    pub open spec fn inserted(&self, after: &CacheDb, item: NodeCacheItemView, actions: Seq<StoreActionView>) -> bool {
        exists|
            mid: Map<Seq<i8>, WrapItemView>,
            count: u64,
            first: Option<StoreActionView>,
            list: Seq<(Vec<i8>, WrapItem)>,
            rest: Seq<(Vec<i8>, WrapItem)>,
        | #[trigger]
            self.inserted_via(after, item, actions, mid, count, first, list, rest)
    }

    /// [`CacheDb::inserted`] with what lies in between: the entries `mid`
    /// and the count `count` after the item is put into the table, the
    /// action `first` this asks for, and the orders `list` and `rest` in
    /// which the table hands out its entries during the upkeep.
    pub open spec fn inserted_via(
        &self,
        after: &CacheDb,
        item: NodeCacheItemView,
        actions: Seq<StoreActionView>,
        mid: Map<Seq<i8>, WrapItemView>,
        count: u64,
        first: Option<StoreActionView>,
        list: Seq<(Vec<i8>, WrapItem)>,
        rest: Seq<(Vec<i8>, WrapItem)>,
    ) -> bool {
        let head = match first {
            Some(a) => seq![a],
            None => Seq::empty(),
        };
        &&& upserted(self.items(), self.inserts_count, self.item_update_every, item, mid, count, first)
        &&& if count >= self.cut_collection_every {
            &&& after.inserts_count == 0
            &&& actions.len() >= head.len()
            &&& actions.take(head.len() as int) == head
            &&& upkept(mid, after.items(), actions.skip(head.len() as int), list, rest)
        } else {
            &&& after.inserts_count == count
            &&& after.items() == mid
            &&& actions == head
        }
    }

    /// Caches what the search has learnt of a position; see
    /// [`CacheDb::inserted`]. Returns what the store is to do, in order.
    pub fn insert(&mut self, item: NodeCacheItem) -> (r: Vec<StoreAction>)
        requires
            old(self).wf(),
        ensures
            final(self).wf(),
            final(self).same_settings(old(self)),
            old(self).inserted(final(self), item@, actions_view(r@)),
    {
        let mut actions: Vec<StoreAction> = Vec::new();
        let ghost item_view = item@;
        let first = self.upsert(item);
        let ghost mid = self.items();
        let ghost count = self.inserts_count;
        let ghost first_view: Option<StoreActionView> = match &first {
            Some(a) => Some(a@),
            None => None,
        };
        let ghost head: Seq<StoreActionView> = match first_view {
            Some(a) => seq![a],
            None => Seq::empty(),
        };
        match first {
            Some(a) => {
                actions.push(a);
            },
            None => {},
        }
        assert(actions_view(actions@) =~= head);
        if self.inserts_count >= self.cut_collection_every as u64 {
            let more = self.maintain();
            let ghost more_view = actions_view(more@);
            let ghost lists = choose|list: Seq<(Vec<i8>, WrapItem)>, rest: Seq<(Vec<i8>, WrapItem)>|
                upkept(mid, self.items(), more_view, list, rest);
            append_actions(&mut actions, more);
            proof {
                let all = actions_view(actions@);
                assert(all.take(head.len() as int) =~= head);
                assert(all.skip(head.len() as int) =~= more_view);
                assert(upkept(mid, self.items(), all.skip(head.len() as int), lists.0, lists.1));
                assert(old(self).inserted_via(
                    self,
                    item_view,
                    all,
                    mid,
                    count,
                    first_view,
                    lists.0,
                    lists.1,
                ));
            }
        } else {
            proof {
                assert(old(self).inserted_via(
                    self,
                    item_view,
                    actions_view(actions@),
                    mid,
                    count,
                    first_view,
                    Seq::empty(),
                    Seq::empty(),
                ));
            }
        }
        actions
    }
}

} // verus!
