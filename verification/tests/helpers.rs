use primitivemap::bucket::helpers::WrappingIndexIterator;

fn walk(start: usize, length: usize) -> Vec<usize> {
    WrappingIndexIterator::new(start, length).to_vec()
}

#[test]
fn helpers_wrapping_index_iterator() {
    let start: usize = 0;
    let length: usize = 5;
    let result = WrappingIndexIterator::new(start, length).to_vec();
    assert_eq!(&result[..], &[0, 1, 2, 3, 4]);

    let start: usize = 2;
    let length: usize = 5;
    let result = WrappingIndexIterator::new(start, length).to_vec();
    assert_eq!(&result[..], &[2, 3, 4, 0, 1]);

    let start: usize = 0;
    let length: usize = 1;
    let result = WrappingIndexIterator::new(start, length).to_vec();
    assert_eq!(&result[..], &[0]);

    let start: usize = 0;
    let length: usize = 0;
    let result = WrappingIndexIterator::new(start, length).to_vec();
    assert_eq!(&result[..], &[] as &[usize]);
}

#[test]
fn bucket_wrapping_index_iterator() {
    let start: usize = 0;
    let length: usize = 5;
    let result = WrappingIndexIterator::new(start, length).to_vec();
    assert_eq!(&result[..], &[0, 1, 2, 3, 4]);

    let start: usize = 2;
    let length: usize = 5;
    let result = WrappingIndexIterator::new(start, length).to_vec();
    assert_eq!(&result[..], &[2, 3, 4, 0, 1]);

    let start: usize = 0;
    let length: usize = 1;
    let result = WrappingIndexIterator::new(start, length).to_vec();
    assert_eq!(&result[..], &[0]);

    let start: usize = 0;
    let length: usize = 0;
    let result = WrappingIndexIterator::new(start, length).to_vec();
    assert_eq!(&result[..], &[] as &[usize]);
}

#[test]
fn next_hands_out_one_index_at_a_time() {
    let mut it = WrappingIndexIterator::new(1, 3);
    assert_eq!(it.next(), Some(1));
    assert_eq!(it.next(), Some(2));
    assert_eq!(it.next(), Some(0));
    assert_eq!(it.next(), None);
    assert_eq!(it.next(), None);
}

#[test]
fn walk_from_the_last_slot_wraps_at_once() {
    assert_eq!(walk(4, 5), vec![4, 0, 1, 2, 3]);
}

#[test]
fn walk_that_starts_behind_the_table_begins_at_zero() {
    assert_eq!(walk(5, 5), vec![0, 1, 2, 3, 4]);
    assert_eq!(walk(1, 1), vec![0]);
}

#[test]
fn walk_visits_every_index_once() {
    let n: usize = 17;
    let mut start: usize = 0;
    while start <= n {
        let visited = walk(start, n);
        assert_eq!(visited.len(), n);
        let mut seen = vec![false; n];
        for i in visited {
            assert!(i < n);
            assert!(!seen[i]);
            seen[i] = true;
        }
        start += 1;
    }
}

#[test]
fn walk_over_an_empty_table_is_empty() {
    assert_eq!(walk(0, 0), Vec::<usize>::new());
    let mut it = WrappingIndexIterator::new(0, 0);
    assert_eq!(it.next(), None);
}
