use primitivemap::bucket::helpers::IndexOf;
use primitivemap::bucket::{
    Bucket, OptionBucket, SmallVecBucket1, SmallVecBucket4, VecBucket,
};

#[test]
fn option_bucket_starts_empty() {
    let bucket: OptionBucket<u8, u32> = Bucket::new();
    assert_eq!(bucket, None);
    assert_eq!(Bucket::len(&bucket), 0);
    assert!(Bucket::is_empty(&bucket));
    assert!(!bucket.reached_max_capacity());
}

#[test]
fn option_bucket_is_full_once_occupied() {
    let mut bucket: OptionBucket<u8, u32> = Bucket::new();
    assert_eq!(Bucket::insert(&mut bucket, 7, 70), None);
    assert_eq!(bucket, Some((7, 70)));
    assert_eq!(Bucket::len(&bucket), 1);
    assert!(!Bucket::is_empty(&bucket));
    assert!(bucket.reached_max_capacity());
}

#[test]
fn option_bucket_overwrites_its_key() {
    let mut bucket: OptionBucket<u8, u32> = Some((7, 70));
    assert_eq!(Bucket::insert(&mut bucket, 7, 71), Some(70));
    assert_eq!(bucket, Some((7, 71)));
}

#[test]
fn option_bucket_get_compares_the_key() {
    let bucket: OptionBucket<u8, u32> = Some((7, 70));
    assert_eq!(Bucket::get(&bucket, 7), Some(&70));
    assert_eq!(Bucket::get(&bucket, 8), None);
    let empty: OptionBucket<u8, u32> = None;
    assert_eq!(Bucket::get(&empty, 7), None);
}

#[test]
fn option_bucket_get_mut_writes_through() {
    let mut bucket: OptionBucket<u8, u32> = Some((7, 70));
    assert!(Bucket::get_mut(&mut bucket, 8).is_none());
    *Bucket::get_mut(&mut bucket, 7).unwrap() = 77;
    assert_eq!(bucket, Some((7, 77)));
}

#[test]
fn option_bucket_remove() {
    let mut bucket: OptionBucket<u8, u32> = Some((7, 70));
    assert_eq!(Bucket::remove_entry(&mut bucket, 8), None);
    assert_eq!(bucket, Some((7, 70)));
    assert_eq!(Bucket::remove_entry(&mut bucket, 7), Some((7, 70)));
    assert_eq!(bucket, None);
    assert_eq!(Bucket::remove(&mut bucket, 7), None);

    let mut bucket: OptionBucket<u8, u32> = Some((7, 70));
    assert_eq!(Bucket::remove(&mut bucket, 7), Some(70));
    assert!(!bucket.reached_max_capacity());
}

#[test]
fn option_bucket_clear_entry_duplicate_into_entries() {
    let mut bucket: OptionBucket<u8, u32> = Some((7, 70));
    assert_eq!(bucket.entry(0), &(7, 70));
    assert_eq!(bucket.duplicate(), Some((7, 70)));
    assert_eq!(bucket.into_entries(), vec![(7, 70)]);
    Bucket::clear(&mut bucket);
    assert_eq!(bucket, None);
    assert_eq!(bucket.into_entries(), vec![]);
}

#[test]
fn vec_bucket_appends_new_keys() {
    let mut bucket: VecBucket<u16, u32> = Bucket::new();
    assert!(Bucket::is_empty(&bucket));
    assert_eq!(Bucket::insert(&mut bucket, 1, 10), None);
    assert_eq!(Bucket::insert(&mut bucket, 2, 20), None);
    assert_eq!(Bucket::insert(&mut bucket, 3, 30), None);
    assert_eq!(bucket, vec![(1, 10), (2, 20), (3, 30)]);
    assert_eq!(Bucket::len(&bucket), 3);
    assert!(!bucket.reached_max_capacity());
}

#[test]
fn vec_bucket_overwrites_an_existing_key() {
    let mut bucket: VecBucket<u16, u32> = vec![(1, 10), (2, 20), (3, 30)];
    assert_eq!(Bucket::insert(&mut bucket, 1, 11), Some(10));
    assert_eq!(Bucket::len(&bucket), 3);
    assert_eq!(Bucket::get(&bucket, 1), Some(&11));
    assert_eq!(Bucket::get(&bucket, 2), Some(&20));
    assert_eq!(Bucket::get(&bucket, 3), Some(&30));
    // the last entry took the place of the old one, the new one stands last
    assert_eq!(bucket, vec![(3, 30), (2, 20), (1, 11)]);
}

#[test]
fn vec_bucket_get_and_get_mut() {
    let mut bucket: VecBucket<i32, i32> = vec![(-1, 10), (2, 20)];
    assert_eq!(Bucket::get(&bucket, -1), Some(&10));
    assert_eq!(Bucket::get(&bucket, 5), None);
    assert!(Bucket::get_mut(&mut bucket, 5).is_none());
    *Bucket::get_mut(&mut bucket, 2).unwrap() += 1;
    assert_eq!(bucket, vec![(-1, 10), (2, 21)]);
}

#[test]
fn vec_bucket_remove() {
    let mut bucket: VecBucket<u16, u32> = vec![(1, 10), (2, 20), (3, 30)];
    assert_eq!(Bucket::remove_entry(&mut bucket, 9), None);
    assert_eq!(Bucket::remove_entry(&mut bucket, 1), Some((1, 10)));
    assert_eq!(bucket, vec![(3, 30), (2, 20)]);
    assert_eq!(Bucket::remove(&mut bucket, 2), Some(20));
    assert_eq!(Bucket::remove(&mut bucket, 2), None);
    assert_eq!(bucket, vec![(3, 30)]);
    Bucket::clear(&mut bucket);
    assert!(Bucket::is_empty(&bucket));
}

#[test]
fn vec_bucket_index_of() {
    let bucket: VecBucket<u16, u32> = vec![(1, 10), (2, 20), (3, 30)];
    assert_eq!(bucket.index_of(1), Some(0));
    assert_eq!(bucket.index_of(3), Some(2));
    assert_eq!(bucket.index_of(4), None);
    let empty: VecBucket<u16, u32> = vec![];
    assert_eq!(empty.index_of(1), None);
}

#[test]
fn vec_bucket_duplicate_entry_into_entries() {
    let bucket: VecBucket<u16, String> = vec![(1, "a".to_string()), (2, "b".to_string())];
    let mut copy = bucket.duplicate();
    assert_eq!(copy, bucket);
    Bucket::insert(&mut copy, 3, "c".to_string());
    assert_eq!(Bucket::len(&bucket), 2);
    assert_eq!(bucket.entry(1), &(2, "b".to_string()));
    assert_eq!(bucket.into_entries(), vec![(1, "a".to_string()), (2, "b".to_string())]);
}

#[test]
fn small_vec_bucket_spills_beyond_its_inline_size() {
    let mut bucket: SmallVecBucket4<u32, u32> = Bucket::new();
    assert!(bucket.is_empty());
    let mut key: u32 = 0;
    while key < 4 {
        assert_eq!(bucket.insert(key, key * 10), None);
        assert!(!bucket.spilled());
        assert!(!bucket.reached_max_capacity());
        key += 1;
    }
    assert_eq!(bucket.insert(4, 40), None);
    assert!(bucket.spilled());
    assert!(!bucket.reached_max_capacity());
    assert_eq!(bucket.len(), 5);
    let mut key: u32 = 0;
    while key < 5 {
        assert_eq!(bucket.get(key), Some(&(key * 10)));
        key += 1;
    }
}

#[test]
fn small_vec_bucket_behaves_as_a_map() {
    let mut bucket: SmallVecBucket1<u8, u8> = Bucket::new();
    assert_eq!(bucket.insert(1, 10), None);
    assert_eq!(bucket.insert(2, 20), None);
    assert_eq!(bucket.insert(1, 11), Some(10));
    assert_eq!(bucket.get(1), Some(&11));
    *bucket.get_mut(2).unwrap() = 22;
    assert_eq!(bucket.get(2), Some(&22));
    assert!(bucket.get_mut(3).is_none());
    assert_eq!(bucket.remove_entry(2), Some((2, 22)));
    assert_eq!(bucket.remove(2), None);
    assert_eq!(bucket.len(), 1);
    assert_eq!(bucket.entry(0), &(1, 11));
    let copy = bucket.clone();
    bucket.clear();
    assert!(bucket.is_empty());
    assert_eq!(copy.into_entries(), vec![(1, 11)]);
    assert_eq!(bucket.duplicate().into_entries(), vec![]);
}

#[test]
fn entries_mut_reaches_every_entry() {
    let mut bucket: VecBucket<u16, u32> = vec![(1, 10), (2, 20), (3, 30)];
    {
        let entries = Bucket::entries_mut(&mut bucket);
        assert_eq!(entries.len(), 3);
        for entry in entries {
            entry.1 += u32::from(entry.0);
        }
    }
    assert_eq!(bucket, vec![(1, 11), (2, 22), (3, 33)]);

    let mut single: OptionBucket<u8, u8> = Some((5, 50));
    {
        let mut entries = Bucket::entries_mut(&mut single);
        assert_eq!(entries.len(), 1);
        entries[0].1 = 51;
    }
    assert_eq!(single, Some((5, 51)));
    let mut empty: OptionBucket<u8, u8> = None;
    assert!(Bucket::entries_mut(&mut empty).is_empty());

    let mut small: SmallVecBucket4<u8, u8> = Bucket::new();
    small.insert(1, 1);
    small.insert(2, 2);
    for entry in small.entries_mut() {
        entry.1 *= 10;
    }
    assert_eq!(small.into_entries(), vec![(1, 10), (2, 20)]);
}
