use primitivemap::bucket::{Array4, Bucket, BucketStore, BucketStoreNew, OptionBucket, VecBucket};

#[test]
fn vec_vec_bucket_list_with_flat_bucket() {
    let mut bl = vec![Some((1, 1)), Some((2, 2))];
    let bucket = bl.search_bucket(1, |bucket| bucket.map(|(k, _v)| k == 1).unwrap_or(false));
    assert_eq!(bucket.unwrap().unwrap(), (1, 1));
}

#[test]
fn vec_vec_bucket_list_with_vec_bucket() {
    let mut bl = vec![vec![(1, 1), (2, 2)], vec![(3, 3)]];
    let bucket = bl.search_bucket(1, |bucket| bucket.iter().any(|(k, _v)| *k == 2));
    assert_eq!(bucket.unwrap(), &vec![(1, 1), (2, 2)]);
}

#[test]
fn bucket_vec_bucket_list_with_flat_bucket() {
    let mut bl = vec![Some((1, 1)), Some((2, 2))];
    let bucket = bl.search_bucket(1, |bucket| bucket.map(|(k, _v)| k == 1).unwrap_or(false));
    assert_eq!(bucket.unwrap().unwrap(), (1, 1));
}

#[test]
fn bucket_vec_bucket_list_with_vec_bucket() {
    let mut bl = vec![vec![(1, 1), (2, 2)], vec![(3, 3)]];
    let bucket = bl.search_bucket(1, |bucket| bucket.iter().any(|(k, _v)| *k == 2));
    assert_eq!(bucket.unwrap(), &vec![(1, 1), (2, 2)]);
}

#[test]
fn search_bucket_finds_nothing_where_no_bucket_fits() {
    let mut bl: Vec<OptionBucket<u8, u8>> = vec![Some((1, 1)), Some((2, 2))];
    assert!(bl.search_bucket(0, |bucket| bucket.is_none()).is_none());
    assert_eq!(bl, vec![Some((1, 1)), Some((2, 2))]);
}

#[test]
fn search_bucket_takes_the_first_in_probe_order() {
    let mut bl: Vec<OptionBucket<u8, u8>> = vec![None, Some((2, 2)), None];
    let found = bl.search_bucket(1, |bucket| bucket.is_none()).unwrap();
    *found = Some((9, 9));
    assert_eq!(bl, vec![None, Some((2, 2)), Some((9, 9))]);
}

#[test]
fn search_entry_walks_past_buckets_without_the_key() {
    let bl: Vec<VecBucket<u16, u32>> = vec![vec![(7, 70)], vec![], vec![(3, 30), (4, 40)]];
    assert_eq!(bl.search_entry(1, 7), Some((7, &70)));
    assert_eq!(bl.search_entry(1, 4), Some((4, &40)));
    assert_eq!(bl.search_entry(1, 5), None);
}

#[test]
fn search_entry_mut_changes_one_value() {
    let mut bl: Vec<VecBucket<u16, u32>> = vec![vec![(7, 70)], vec![], vec![(3, 30), (4, 40)]];
    {
        let (key, value) = bl.search_entry_mut(2, 7).unwrap();
        assert_eq!(key, 7);
        *value = 71;
    }
    assert!(bl.search_entry_mut(0, 9).is_none());
    assert_eq!(bl, vec![vec![(7, 71)], vec![], vec![(3, 30), (4, 40)]]);
}

#[test]
fn initialized_stores_hold_empty_buckets() {
    let bl = Vec::<OptionBucket<u8, u8>>::initialized();
    assert_eq!(BucketStore::len(&bl), 256);
    assert!(bl.iter().all(|b| b.is_none()));

    let bl = Vec::<VecBucket<u8, u8>>::initialized_with_capacity(3);
    assert_eq!(bl, vec![vec![], vec![], vec![]]);

    let store = Array4::<u8, u8, OptionBucket<u8, u8>>::initialized();
    assert_eq!(store.len(), 4);
    assert!(!store.is_empty());
    let mut i: usize = 0;
    while i < 4 {
        assert_eq!(Bucket::len(store.get(i)), 0);
        i += 1;
    }
}

#[test]
fn clear_empties_every_bucket() {
    let mut bl: Vec<VecBucket<u16, u32>> = vec![vec![(7, 70)], vec![], vec![(3, 30), (4, 40)]];
    BucketStore::clear(&mut bl);
    assert_eq!(bl, vec![vec![], vec![], vec![]]);
}

#[test]
fn each_mut_splits_a_slice_in_order() {
    let mut numbers = vec![1u8, 2, 3];
    {
        let refs = primitivemap::bucket::iteration::each_mut(numbers.as_mut_slice());
        assert_eq!(refs.len(), 3);
        let mut add: u8 = 10;
        for r in refs {
            *r += add;
            add += 10;
        }
    }
    assert_eq!(numbers, vec![11, 22, 33]);
    let mut none: Vec<u8> = vec![];
    assert!(primitivemap::bucket::iteration::each_mut(none.as_mut_slice()).is_empty());
}

#[test]
fn each_entry_mut_and_each_value_mut_keep_the_order() {
    let mut table: Vec<VecBucket<u8, u8>> = vec![vec![(1, 1), (2, 2)], vec![], vec![(3, 3)]];
    {
        let entries = primitivemap::bucket::iteration::each_entry_mut(table.as_mut_slice());
        let keys: Vec<u8> = entries.iter().map(|e| e.0).collect();
        assert_eq!(keys, vec![1, 2, 3]);
        let values = primitivemap::bucket::iteration::each_value_mut(entries);
        assert_eq!(values.len(), 3);
        let mut add: u8 = 10;
        for value in values {
            *value += add;
            add += 10;
        }
    }
    assert_eq!(table, vec![vec![(1, 11), (2, 22)], vec![], vec![(3, 33)]]);
}

#[test]
fn stores_duplicate_and_open_as_slices() {
    let table: Vec<VecBucket<u8, u8>> = vec![vec![(1, 1), (2, 2)], vec![], vec![(3, 3)]];
    let mut copy = BucketStore::duplicate(&table);
    assert_eq!(copy, table);
    BucketStore::as_mut_slice(&mut copy)[1].push((9, 9));
    assert_eq!(copy, vec![vec![(1, 1), (2, 2)], vec![(9, 9)], vec![(3, 3)]]);
    assert_eq!(table[1], vec![]);

    let mut store = Array4::<u8, u8, OptionBucket<u8, u8>>::initialized();
    *store.get_mut(2) = Some((2, 20));
    let mut copy = store.clone();
    copy.as_mut_slice()[0] = Some((4, 40));
    assert_eq!(copy.get(0), &Some((4, 40)));
    assert_eq!(copy.get(2), &Some((2, 20)));
    assert_eq!(store.get(0), &None);
    assert_eq!(store.duplicate().get(2), &Some((2, 20)));
}
