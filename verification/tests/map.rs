use primitivemap::bucket::{Array1024, Array4, Array64, Bucket, BucketStoreNew, OptionBucket};
use primitivemap::{
    DefaultHasher, Hasher, InsertError, LinearPrimitiveMap, PrimitiveMap, VecPrimitiveMap,
};

#[test]
fn create_vec() {
    // Vec map with inline-sized buckets
    let mut map = VecPrimitiveMap::new();
    let _ = map.insert(1, 1);
    map.get(1);
}

#[test]
fn create_lp() {
    // Array64 map with Option<(K, V)> buckets (linear probing)
    let mut map = LinearPrimitiveMap::with_buckets(Array64::initialized());
    let _ = map.insert(1, 1);
    map.get(1);
}

#[test]
fn create_custom() {
    let buckets = Vec::<OptionBucket<_, _>>::initialized_with_capacity(1000);
    let hasher = DefaultHasher::new();
    let mut map = PrimitiveMap::custom(buckets, hasher);
    let _ = map.insert(1, 1);
    map.get(1);
}

#[test]
fn insert_dynamic() {
    let mut map = VecPrimitiveMap::new();
    let _ = map.insert(0u8, 10u32);
}

#[test]
fn insert_linear() {
    let mut map = LinearPrimitiveMap::with_buckets(Array64::initialized());
    let _ = map.insert(0u16, 10u32);
}

#[test]
fn get_empty_dynamic() {
    let map = VecPrimitiveMap::new();
    assert_eq!(map.get(0u32), None::<&u32>);
}

#[test]
fn get_empty_linear() {
    let map = LinearPrimitiveMap::with_buckets(Array64::initialized());
    assert_eq!(map.get(0u32), None::<&u32>);
}

#[test]
fn insert_and_get_vec() {
    let mut map = VecPrimitiveMap::new();
    let _ = map.insert(0i8, 10u32);
    assert_eq!(map.get(0i8), Some(&10u32));
}

#[test]
fn insert_and_get_linear() {
    let mut map = LinearPrimitiveMap::with_buckets(Array64::initialized());
    let _ = map.insert(0i16, 10u32);
    assert_eq!(map.get(0i16), Some(&10u32));
}

#[test]
fn insert_saturate_buckets_vec() {
    let mut map = VecPrimitiveMap::with_capacity(100);
    for i in 0..10000 {
        let _ = map.insert(i, i);
    }
    for i in 0..10000 {
        assert_eq!(map.get(i), Some(&i))
    }
}

#[test]
fn insert_full_load_linear_probing() {
    let mut map = LinearPrimitiveMap::with_buckets(Array1024::initialized());
    for i in 0..1024 {
        let _ = map.insert(i, i);
    }
    for i in 0..1024 {
        assert_eq!(map.get(i), Some(&i))
    }
}

#[test]
fn iter_vec_map() {
    let mut map = VecPrimitiveMap::with_capacity(100);
    let space = vec![1, 2, 3, 4];
    for i in &space {
        let _ = map.insert(*i, *i);
    }

    let map_space = map.iter().into_iter().collect::<Vec<_>>();

    assert_eq!(map_space.len(), space.len());

    for i in 0..space.len() {
        let entry = map_space[i];
        assert_eq!(space[i], entry.0);
        assert_eq!(space[i], entry.1);
    }
}

#[test]
fn example_scenario_single_slot_table() {
    // table length 4, single-slot buckets, 8-bit keys: hash and compress are the identity
    let mut map: LinearPrimitiveMap<u8, u32, Array4<u8, u32, OptionBucket<u8, u32>>> =
        LinearPrimitiveMap::with_buckets(Array4::initialized());
    let mut key: u8 = 0;
    while key < 4 {
        assert_eq!(map.insert(key, 100 + key as u32), Ok(None));
        key += 1;
    }
    let mut key: u8 = 0;
    while key < 4 {
        assert_eq!(map.get(key), Some(&(100 + key as u32)));
        key += 1;
    }
    // every bucket has reached its bound, so the walk for key 0 finds no room,
    // not even for a key that the table holds
    assert_eq!(map.insert(0, 500), Err(InsertError::CapacityExhausted));
    assert_eq!(map.get(0), Some(&100));
    // a fifth key fails, and the four entries are intact
    assert_eq!(map.insert(4, 104), Err(InsertError::CapacityExhausted));
    assert_eq!(map.get(4), None);
    let mut key: u8 = 0;
    while key < 4 {
        assert_eq!(map.get(key), Some(&(100 + key as u32)));
        key += 1;
    }
}

#[test]
fn bounded_bucket_scenario_spills_and_succeeds() {
    // table length 1, buckets with room for four entries: every key collides in slot 0
    let mut map: VecPrimitiveMap<u32, u32> = VecPrimitiveMap::with_capacity(1);
    let mut key: u32 = 0;
    while key < 4 {
        assert_eq!(map.insert(key, key + 1), Ok(None));
        key += 1;
    }
    let mut key: u32 = 0;
    while key < 4 {
        assert_eq!(map.get(key), Some(&(key + 1)));
        key += 1;
    }
    assert!(!map.buckets()[0].spilled());
    assert_eq!(map.insert(4, 5), Ok(None));
    assert!(map.buckets()[0].spilled());
    let mut key: u32 = 0;
    while key < 5 {
        assert_eq!(map.get(key), Some(&(key + 1)));
        key += 1;
    }
}

#[test]
fn bounded_bucket_scenario_single_slot_analogue() {
    // table length 1, one slot: the second key finds the only bucket full
    let buckets = Vec::<OptionBucket<u32, u32>>::initialized_with_capacity(1);
    let mut map = PrimitiveMap::custom(buckets, DefaultHasher::new());
    assert_eq!(map.insert(10, 1), Ok(None));
    assert_eq!(map.insert(11, 2), Err(InsertError::CapacityExhausted));
    assert_eq!(map.get(10), Some(&1));
    assert_eq!(map.get(11), None);
}

#[test]
fn round_trip_with_collisions_in_a_linear_table() {
    // keys 1, 5, 9 all have address 1 in a table of four single slots
    let mut map: LinearPrimitiveMap<u8, u32, Array4<u8, u32, OptionBucket<u8, u32>>> =
        LinearPrimitiveMap::with_buckets(Array4::initialized());
    assert_eq!(map.insert(1, 10), Ok(None));
    assert_eq!(map.insert(5, 50), Ok(None));
    assert_eq!(map.insert(9, 90), Ok(None));
    assert_eq!(map.insert(3, 30), Ok(None));
    let slots: Vec<OptionBucket<u8, u32>> = map.buckets().into_iter().copied().collect();
    // 3 found its own address taken by 9 and wrapped around to slot 0
    assert_eq!(slots, vec![Some((3, 30)), Some((1, 10)), Some((5, 50)), Some((9, 90))]);
    assert_eq!(map.get(1), Some(&10));
    assert_eq!(map.get(5), Some(&50));
    assert_eq!(map.get(9), Some(&90));
    assert_eq!(map.get(3), Some(&30));
    assert_eq!(map.get(13), None);
}

#[test]
fn round_trip_in_a_vec_table() {
    let mut map: VecPrimitiveMap<u64, u64> = VecPrimitiveMap::with_capacity(8);
    let mut key: u64 = 0;
    while key < 200 {
        assert_eq!(map.insert(key * 3, key), Ok(None));
        key += 1;
    }
    let mut key: u64 = 0;
    while key < 200 {
        assert_eq!(map.get(key * 3), Some(&key));
        assert_eq!(map.get(key * 3 + 1), None);
        key += 1;
    }
}

#[test]
fn upsert_overwrites_in_a_table_of_unbounded_buckets() {
    let mut map: VecPrimitiveMap<u16, u32> = VecPrimitiveMap::with_capacity(4);
    assert_eq!(map.insert(7, 1), Ok(None));
    assert_eq!(map.insert(7, 2), Ok(Some(1)));
    assert_eq!(map.get(7), Some(&2));
    assert_eq!(map.insert(7, 3), Ok(Some(2)));
    assert_eq!(map.get(7), Some(&3));
    assert_eq!(map.iter().len(), 1);
}

#[test]
fn second_insert_into_a_full_bucket_goes_to_the_next_slot() {
    // a single slot is full once it holds the key, so the walk for the same
    // key moves on; lookups keep seeing the first bucket on the walk
    let mut map: LinearPrimitiveMap<u8, u32, Array4<u8, u32, OptionBucket<u8, u32>>> =
        LinearPrimitiveMap::with_buckets(Array4::initialized());
    assert_eq!(map.insert(0, 10), Ok(None));
    assert_eq!(map.insert(0, 20), Ok(None));
    assert_eq!(map.get(0), Some(&10));
    let slots: Vec<OptionBucket<u8, u32>> = map.buckets().into_iter().copied().collect();
    assert_eq!(slots, vec![Some((0, 10)), Some((0, 20)), None, None]);
}

#[test]
fn never_inserted_key_is_absent() {
    let mut map: VecPrimitiveMap<i32, i32> = VecPrimitiveMap::new();
    assert_eq!(map.get(-3), None);
    assert!(!map.contains_key(-3));
    assert_eq!(map.insert(3, 1), Ok(None));
    assert_eq!(map.insert(259, 2), Ok(None));
    assert_eq!(map.get(-3), None);
    assert_eq!(map.get(4), None);
    assert!(!map.contains_key(515));
    assert!(map.contains_key(3));
    assert!(map.contains_key(259));
}

#[test]
fn saturation_boundary() {
    // the hash is a bijection below 1024, so the addresses of the keys
    // below 1024 are a permutation of the slots
    let mut map: LinearPrimitiveMap<u16, u16, Array1024<u16, u16, OptionBucket<u16, u16>>> =
        LinearPrimitiveMap::new();
    let mut seen = vec![false; 1024];
    let mut key: u16 = 0;
    while key < 1024 {
        let addr = DefaultHasher::compress(DefaultHasher::hash(key), 1024);
        assert!(!seen[addr]);
        seen[addr] = true;
        assert_eq!(map.insert(key, key + 1), Ok(None));
        key += 1;
    }
    assert_eq!(map.insert(1024, 0), Err(InsertError::CapacityExhausted));
    let mut key: u16 = 0;
    while key < 1024 {
        assert_eq!(map.get(key), Some(&(key + 1)));
        key += 1;
    }
    assert_eq!(map.get(1024), None);
}

#[test]
fn clone_is_independent() {
    let mut map: VecPrimitiveMap<u32, String> = VecPrimitiveMap::with_capacity(4);
    let _ = map.insert(1, "one".to_string());
    let _ = map.insert(2, "two".to_string());
    let mut copy = map.clone();
    assert_eq!(copy.get(1), Some(&"one".to_string()));
    assert_eq!(copy.get(2), Some(&"two".to_string()));
    let _ = copy.insert(3, "three".to_string());
    let _ = copy.insert(1, "uno".to_string());
    assert_eq!(copy.remove(2), Some("two".to_string()));
    *copy.get_mut(3).unwrap() = "tres".to_string();
    assert_eq!(map.get(1), Some(&"one".to_string()));
    assert_eq!(map.get(2), Some(&"two".to_string()));
    assert_eq!(map.get(3), None);
    copy.clear();
    assert_eq!(map.iter().len(), 2);
    let _ = map.insert(4, "four".to_string());
    assert_eq!(copy.get(4), None);

    let mut linear: LinearPrimitiveMap<u8, u8, Array4<u8, u8, OptionBucket<u8, u8>>> =
        LinearPrimitiveMap::new();
    let _ = linear.insert(2, 20);
    let mut copy = linear.clone();
    assert_eq!(copy.remove(2), Some(20));
    assert_eq!(linear.get(2), Some(&20));
    assert_eq!(copy.get(2), None);
}

#[test]
fn get_mut_and_get_key_value() {
    let mut map: VecPrimitiveMap<u8, u32> = VecPrimitiveMap::with_capacity(2);
    let _ = map.insert(1, 10);
    let _ = map.insert(3, 30);
    assert_eq!(map.get_key_value(3), Some((3, &30)));
    assert_eq!(map.get_key_value(5), None);
    assert!(map.get_mut(5).is_none());
    *map.get_mut(3).unwrap() = 31;
    assert_eq!(map.get(3), Some(&31));
    {
        let (key, value) = map.get_key_value_mut(1).unwrap();
        assert_eq!(key, 1);
        *value += 1;
    }
    assert!(map.get_key_value_mut(7).is_none());
    assert_eq!(map.get(1), Some(&11));
    assert_eq!(map.get(3), Some(&31));
}

#[test]
fn remove_and_remove_entry() {
    let mut map: VecPrimitiveMap<u8, u32> = VecPrimitiveMap::with_capacity(2);
    let _ = map.insert(1, 10);
    let _ = map.insert(3, 30);
    let _ = map.insert(2, 20);
    assert_eq!(map.remove(5), None);
    assert_eq!(map.remove(3), Some(30));
    assert_eq!(map.remove(3), None);
    assert_eq!(map.get(3), None);
    assert_eq!(map.get(1), Some(&10));
    assert_eq!(map.remove_entry(1), Some((1, 10)));
    assert_eq!(map.remove_entry(1), None);
    assert_eq!(map.get(2), Some(&20));
    assert!(!map.contains_key(1));
}

#[test]
fn remove_makes_room_in_a_linear_table() {
    let buckets = Vec::<OptionBucket<u8, u8>>::initialized_with_capacity(2);
    let mut map = PrimitiveMap::custom(buckets, DefaultHasher::new());
    assert_eq!(map.insert(0, 1), Ok(None));
    assert_eq!(map.insert(2, 2), Ok(None));
    assert_eq!(map.insert(4, 3), Err(InsertError::CapacityExhausted));
    assert_eq!(map.remove(0), Some(1));
    assert_eq!(map.insert(4, 3), Ok(None));
    assert_eq!(map.get(2), Some(&2));
    assert_eq!(map.get(4), Some(&3));
    assert_eq!(map.get(0), None);
}

#[test]
fn len_is_the_number_of_buckets() {
    let map: VecPrimitiveMap<u8, u8> = VecPrimitiveMap::new();
    assert_eq!(map.len(), 256);
    assert!(!map.is_empty());
    let mut map: VecPrimitiveMap<u8, u8> = VecPrimitiveMap::with_capacity(3);
    assert_eq!(map.len(), 3);
    let _ = map.insert(1, 1);
    assert_eq!(map.len(), 3);
    let linear: LinearPrimitiveMap<u8, u8, Array64<u8, u8, OptionBucket<u8, u8>>> =
        LinearPrimitiveMap::new();
    assert_eq!(linear.len(), 64);
}

#[test]
fn clear_drops_the_entries_and_keeps_the_table() {
    let mut map: VecPrimitiveMap<u8, u8> = VecPrimitiveMap::with_capacity(3);
    let _ = map.insert(1, 1);
    let _ = map.insert(2, 2);
    map.clear();
    assert_eq!(map.len(), 3);
    assert_eq!(map.get(1), None);
    assert_eq!(map.get(2), None);
    assert!(map.iter().is_empty());
    assert_eq!(map.insert(1, 5), Ok(None));
    assert_eq!(map.get(1), Some(&5));
}

#[test]
fn iteration_goes_by_slot_and_then_by_bucket_order() {
    let mut map: VecPrimitiveMap<u8, u32> = VecPrimitiveMap::with_capacity(3);
    let _ = map.insert(4, 40); // address 1
    let _ = map.insert(0, 0); // address 0
    let _ = map.insert(1, 10); // address 1
    let _ = map.insert(5, 50); // address 2
    let _ = map.insert(3, 30); // address 0
    assert_eq!(map.keys(), vec![0, 3, 4, 1, 5]);
    assert_eq!(map.values(), vec![&0, &30, &40, &10, &50]);
    assert_eq!(map.iter(), vec![&(0, 0), &(3, 30), &(4, 40), &(1, 10), &(5, 50)]);
    let sizes: Vec<usize> = map.buckets().into_iter().map(|b| b.len()).collect();
    assert_eq!(sizes, vec![2, 2, 1]);
    assert_eq!(map.into_iter(), vec![(0, 0), (3, 30), (4, 40), (1, 10), (5, 50)]);
}

#[test]
fn iteration_over_an_empty_map_yields_nothing() {
    let map: LinearPrimitiveMap<u8, u8, Array4<u8, u8, OptionBucket<u8, u8>>> =
        LinearPrimitiveMap::new();
    assert!(map.keys().is_empty());
    assert!(map.values().is_empty());
    assert!(map.iter().is_empty());
    assert_eq!(map.buckets().len(), 4);
    assert!(map.into_iter().is_empty());
}

#[test]
fn values_mut_changes_values_in_place() {
    let mut map: VecPrimitiveMap<u8, u32> = VecPrimitiveMap::with_capacity(3);
    let _ = map.insert(4, 40); // address 1
    let _ = map.insert(0, 0); // address 0
    let _ = map.insert(1, 10); // address 1
    {
        let values = map.values_mut();
        assert_eq!(values.len(), 3);
        for value in values {
            *value += 1;
        }
    }
    assert_eq!(map.iter(), vec![&(0, 1), &(4, 41), &(1, 11)]);
    assert_eq!(map.get(4), Some(&41));
    assert_eq!(map.get(0), Some(&1));
    assert_eq!(map.get(1), Some(&11));
}

#[test]
fn iter_mut_hands_out_every_entry_in_order() {
    let mut map: LinearPrimitiveMap<u8, u32, Array4<u8, u32, OptionBucket<u8, u32>>> =
        LinearPrimitiveMap::new();
    let _ = map.insert(2, 20);
    let _ = map.insert(1, 10);
    let _ = map.insert(6, 60); // address 2 is taken, goes to slot 3
    {
        let mut entries = map.iter_mut();
        assert_eq!(entries.len(), 3);
        assert_eq!(*entries[0], (1, 10));
        assert_eq!(*entries[1], (2, 20));
        assert_eq!(*entries[2], (6, 60));
        entries[1].1 = 21;
        entries[2].1 = 61;
    }
    assert_eq!(map.get(1), Some(&10));
    assert_eq!(map.get(2), Some(&21));
    assert_eq!(map.get(6), Some(&61));
    assert!(map.clone().iter_mut().len() == 3);
}

#[test]
fn buckets_mut_hands_out_every_bucket_in_order() {
    let mut map: VecPrimitiveMap<u8, u32> = VecPrimitiveMap::with_capacity(3);
    let _ = map.insert(4, 40);
    let _ = map.insert(0, 0);
    {
        let mut buckets = map.buckets_mut();
        assert_eq!(buckets.len(), 3);
        assert_eq!(buckets[0].len(), 1);
        assert_eq!(buckets[1].len(), 1);
        assert_eq!(buckets[2].len(), 0);
        // 8 has address 2
        assert_eq!(buckets[2].insert(8, 80), None);
        assert_eq!(buckets[1].remove(4), Some(40));
    }
    assert_eq!(map.get(8), Some(&80));
    assert_eq!(map.get(4), None);
    assert_eq!(map.get(0), Some(&0));
}
