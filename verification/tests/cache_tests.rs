use draughts::cache_db::{CacheDb, NodeCacheItem, StoreAction};
use draughts::cache_map::CacheMap;
use draughts::loop_array::LoopArray;
use draughts::mcts::{Quality, VectorPosition};

fn first(x: &Vec<i32>) -> u64 {
    x[0] as u64
}

#[test]
fn map_test() {
    let a1 = vec![1, 1, 1, 1];
    let a2 = vec![2, 2, 2, 2];
    let a3 = vec![3, 3, 3, 3];
    let a4 = vec![4, 4, 4, 4];
    let mut cache_map = CacheMap::new(first, 3);
    cache_map.insert(a1.clone());
    cache_map.insert(a2.clone());
    cache_map.insert(a3.clone());
    cache_map.insert(a2.clone());
    println!("{:?}\n", cache_map.freq_list.get_list());
    assert_eq!(cache_map.freq_list.at(2).as_ref().unwrap().item, a2);
    cache_map.insert(a1.clone());
    assert_eq!(cache_map.freq_list.at(1).as_ref().unwrap().item, a1);
    println!("{:?}\n", cache_map.freq_list.get_list());
    cache_map.insert(a2.clone());
    assert_eq!(cache_map.freq_list.at(2).as_ref().unwrap().item, a2);
    println!("{:?}\n", cache_map.freq_list.get_list());
    // what is written out and read back
    let listing: Vec<(Vec<i32>, i32)> =
        cache_map.get_list().iter().map(|w| (w.item.clone(), w.repetitions)).collect();
    let written = serde_json::to_string(&listing).unwrap();
    let read: Vec<(Vec<i32>, i32)> = serde_json::from_str(&written).unwrap();
    let mut new_cache = CacheMap::from_list(read, first, 3);
    println!("{:?}\n", new_cache.freq_list.get_list());
    assert_eq!(new_cache.get(&1).unwrap().repetitions, 1);
    assert_eq!(new_cache.get(&2).unwrap().repetitions, 2);
    assert_eq!(new_cache.get(&3).unwrap().repetitions, 0);
    new_cache.insert(a1.clone());
    println!("{:?}\n", new_cache.freq_list.get_list());
    new_cache.insert(a2);
    println!("{:?}\n", new_cache.freq_list.get_list());
    new_cache.insert(a4.clone());
    println!("{:?}\n", new_cache.freq_list.get_list());
    assert_eq!(new_cache.freq_list.at(0).as_ref().unwrap().item, a1);
    assert_eq!(new_cache.freq_list.at(2).as_ref().unwrap().item, a4);
}

#[test]
fn one_more_than_capacity_evicts_the_oldest() {
    let mut cache = CacheMap::new(|x: &u64| *x, 4);
    for key in 10..14u64 {
        cache.insert(key);
    }
    assert_eq!(cache.freq_list.get_data_size(), 4);
    assert_eq!(cache.freq_list.get_list()[0].item, 10);
    cache.insert(14);
    assert_eq!(cache.freq_list.get_data_size(), 4);
    assert!(cache.get(&10).is_none());
    for key in 11..15u64 {
        assert!(cache.get(&key).is_some());
        assert_eq!(cache.get(&key).unwrap().repetitions, 0);
    }
    let keys: Vec<u64> = cache.get_list().iter().map(|w| w.item).collect();
    assert_eq!(keys, vec![11, 12, 13, 14]);
}

#[test]
fn inserting_again_keeps_the_size() {
    let mut cache = CacheMap::new(|x: &(u64, char)| x.0, 3);
    cache.insert((1, 'a'));
    cache.insert((2, 'b'));
    assert_eq!(cache.freq_list.get_data_size(), 2);
    cache.insert((1, 'c'));
    assert_eq!(cache.freq_list.get_data_size(), 2);
    assert_eq!(cache.get(&1).unwrap().repetitions, 1);
    assert_eq!(cache.get(&1).unwrap().item, (1, 'c'));
    assert_eq!(cache.get(&2).unwrap().repetitions, 0);
    cache.insert((1, 'd'));
    assert_eq!(cache.get(&1).unwrap().repetitions, 2);
    assert_eq!(cache.freq_list.get_data_size(), 2);
    cache.set_repetitions(&(2, 'x'), 7);
    assert_eq!(cache.get(&2).unwrap().repetitions, 7);
    assert_eq!(cache.key(&(5, 'z')), 5);
    assert!(cache.get(&5).is_none());
}

#[test]
fn sorting_a_full_cache() {
    let mut cache = CacheMap::new(|x: &(u64, i64)| x.0, 4);
    cache.insert((1, 30));
    cache.insert((2, 10));
    cache.insert((3, 30));
    cache.insert((4, -5));
    cache.insert((2, 10));
    assert_eq!(cache.get(&2).unwrap().repetitions, 1);
    cache.resort(&|x: &(u64, i64)| x.1);
    let keys: Vec<u64> = cache.get_list().iter().map(|w| w.item.0).collect();
    assert_eq!(keys, vec![4, 2, 1, 3]);
    for key in 1..5u64 {
        assert_eq!(cache.get(&key).unwrap().repetitions, 0);
    }
    assert_eq!(cache.get(&2).unwrap().array_pointer, 1);
    assert_eq!(cache.freq_list.get_data_size(), 4);
}

#[test]
fn ring_positions() {
    let mut ring: LoopArray<u8> = LoopArray::new(3);
    assert_eq!(ring.push(1), (None, 0));
    assert_eq!(ring.push(2), (None, 1));
    assert_eq!(ring.get_p(), 2);
    assert_eq!(ring.i(0), 0);
    assert_eq!(ring.push(3), (None, 2));
    assert_eq!(ring.get_p(), 0);
    assert_eq!(ring.push(4), (Some(1), 0));
    assert_eq!(ring.get_data_size(), 3);
    assert_eq!(*ring.at(0), Some(2));
    assert_eq!(*ring.at(2), Some(4));
    assert_eq!(ring.i(0), 1);
    assert_eq!(ring.get_index(1), 0);
    assert_eq!(ring.next_loop_p(1), Some(2));
    assert_eq!(ring.next_loop_p(0), None);
    assert_eq!(ring.prev_loop_p(), 0);
    ring.set(0, 9);
    assert_eq!(*ring.at(0), Some(9));
    ring.swap(0, 1);
    assert_eq!(*ring.at(0), Some(4));
    assert_eq!(ring.get_list(), vec![&4, &3, &9]);
}

fn item(key: i8, n: i64) -> NodeCacheItem {
    NodeCacheItem {
        key: VectorPosition(vec![key, 0, 1]),
        quality: Quality { W: n / 2, N: n },
        childs: vec![(VectorPosition(vec![key, 1, -1]), Quality { W: 1, N: 2 })],
    }
}

#[test]
fn shared_cache_writes_in_batches() {
    let mut cache = CacheDb::new("checkers".to_string(), "nodes".to_string(), 100, 3, 1000);
    assert!(cache.get(&VectorPosition(vec![1, 0, 1])).is_none());
    assert_eq!(cache.entries().len(), 0);
    let actions = cache.insert(item(1, 10));
    assert_eq!(actions.len(), 1);
    assert!(matches!(&actions[0], StoreAction::Insert(w) if w.repetitions == 1 && w.item.quality.N == 10));
    assert_eq!(cache.inserts_count, 1);
    assert_eq!(cache.insert(item(1, 11)).len(), 0);
    assert_eq!(cache.insert(item(1, 12)).len(), 0);
    let actions = cache.insert(item(1, 13));
    assert_eq!(actions.len(), 1);
    assert!(matches!(&actions[0], StoreAction::Update(w) if w.repetitions == 4 && w.item.quality.N == 13));
    let found = cache.get(&VectorPosition(vec![1, 0, 1])).unwrap();
    assert_eq!(found.quality.N, 13);
    assert_eq!(found.childs.len(), 1);
    assert_eq!(found.childs[0].0 .0, vec![1, 1, -1]);
    assert_eq!(cache.inserts_count, 1);
    assert_eq!(cache.entries().len(), 1);
    assert_eq!(cache.entries()[0].0, vec![1, 0, 1]);
    assert_eq!(cache.entries()[0].1.write_counts, 0);
    assert_eq!(cache.flush().len(), 0);
    cache.insert(item(1, 14));
    assert_eq!(cache.flush().len(), 1);
}

#[test]
fn shared_cache_drops_rare_entries() {
    let mut cache = CacheDb::new("checkers".to_string(), "nodes".to_string(), 100, 1000, 3);
    cache.load(item(1, 5), 1000);
    cache.load(item(2, 5), 400);
    assert_eq!(cache.inserts_count, 0);
    assert_eq!(cache.insert(item(3, 1)).len(), 1);
    assert_eq!(cache.insert(item(4, 1)).len(), 1);
    assert_eq!(cache.insert(item(2, 6)).len(), 0);
    // the third new entry is due for the upkeep: the sum of repetitions is
    // 1000 + 401 + 1 + 1 + 1 over five entries, the mean 280, the cut 4
    let actions = cache.insert(item(5, 1));
    assert_eq!(cache.inserts_count, 0);
    assert_eq!(actions.len(), 3);
    assert!(matches!(&actions[0], StoreAction::Insert(w) if w.item.key.0 == vec![5, 0, 1]));
    assert!(matches!(&actions[1], StoreAction::Update(w) if w.item.key.0 == vec![2, 0, 1] && w.repetitions == 401));
    assert!(matches!(&actions[2], StoreAction::DeleteBelow(4)));
    let mut keys: Vec<Vec<i8>> = cache.entries().into_iter().map(|e| e.0).collect();
    keys.sort();
    assert_eq!(keys, vec![vec![1, 0, 1], vec![2, 0, 1]]);
    assert!(cache.get(&VectorPosition(vec![3, 0, 1])).is_none());
    // an upkeep on its own, with nothing repeated often enough to cut
    let actions = cache.maintain();
    assert!(matches!(&actions[actions.len() - 1], StoreAction::DeleteBelow(10)));
    assert_eq!(cache.entries().len(), 2);
}

#[test]
fn the_visits_cached_never_fall() {
    let mut cache = CacheDb::new("checkers".to_string(), "nodes".to_string(), 100, 1000, 1000);
    cache.insert(item(1, 10));
    // an item that has seen the position less often counts as a repetition
    // and leaves what is cached as it is
    cache.insert(item(1, 7));
    let found = cache.get(&VectorPosition(vec![1, 0, 1])).unwrap();
    assert_eq!((found.quality.N, found.quality.W), (10, 5));
    assert_eq!(cache.entries()[0].1.repetitions, 2);
    // one that has seen it as often or more often takes its place
    cache.insert(item(1, 10));
    cache.insert(item(1, 12));
    let found = cache.get(&VectorPosition(vec![1, 0, 1])).unwrap();
    assert_eq!((found.quality.N, found.quality.W), (12, 6));
    assert_eq!(cache.entries()[0].1.repetitions, 4);
    // the same for what is read from the store
    cache.load(item(1, 3), 50);
    assert_eq!(cache.get(&VectorPosition(vec![1, 0, 1])).unwrap().quality.N, 12);
    assert_eq!(cache.entries()[0].1.repetitions, 4);
    cache.load(item(1, 20), 50);
    assert_eq!(cache.get(&VectorPosition(vec![1, 0, 1])).unwrap().quality.N, 20);
    assert_eq!(cache.entries()[0].1.repetitions, 50);
}
