use slot_pool::EmptyEntry;
use slot_pool::FilledEntry;
use slot_pool::Pool;
use slot_pool::PoolEntry;

fn collect_free(pool: &Pool) -> Vec<usize> {
    let mut it = pool.free_indexes();
    let mut v: Vec<usize> = Vec::new();
    while let Some(i) = it.next() {
        v.push(i);
    }
    v
}

#[test]
fn test_get_empty() {
    let pool = Pool::new(12);

    assert_eq!(pool.first_free(), Some(0));
}

#[test]
fn test_free_iterator() {
    let pool = Pool::new(12);
    let free_indexes: Vec<usize> = collect_free(&pool);
    let all_indexes: Vec<usize> = (0..12).collect();

    assert_eq!(free_indexes, all_indexes);
}

#[test]
fn test_insert() {
    let mut pool = Pool::new(10);
    pool.set(0, FilledEntry { inner: Vec::new() });
    pool.set(2, FilledEntry { inner: Vec::new() });
    pool.set(4, FilledEntry { inner: Vec::new() });
    pool.set(6, FilledEntry { inner: Vec::new() });

    let free_indexes: Vec<usize> = collect_free(&pool);
    let expected_free: Vec<usize> = vec![1, 3, 5, 7, 8, 9];

    assert_eq!(free_indexes, expected_free);
}

#[test]
fn test_insert2() {
    let mut pool = Pool::new(4);
    pool.set(0, FilledEntry { inner: Vec::new() });

    assert_eq!(pool.first_free(), Some(1));
}

#[test]
fn test_free() {
    let mut pool = Pool::new(4);
    pool.set(0, FilledEntry { inner: Vec::new() });
    pool.set(2, FilledEntry { inner: Vec::new() });
    pool.free(0);

    let free_indexes: Vec<usize> = collect_free(&pool);
    let expected_free: Vec<usize> = vec![0, 1, 3];

    assert_eq!(free_indexes, expected_free);
    assert_eq!(pool.first_free(), Some(0));
}

#[test]
fn test_free2() {
    let mut pool = Pool::new(10);
    pool.set(0, FilledEntry { inner: Vec::new() });
    pool.set(2, FilledEntry { inner: Vec::new() });
    pool.set(4, FilledEntry { inner: Vec::new() });
    pool.set(6, FilledEntry { inner: Vec::new() });

    pool.free(0);
    pool.free(4);

    let free_indexes: Vec<usize> = collect_free(&pool);
    let expected_free: Vec<usize> = vec![0, 1, 3, 4, 5, 7, 8, 9];

    assert_eq!(free_indexes, expected_free);
    assert_eq!(pool.first_free(), Some(0));
}

#[test]
fn set_out_of_range_is_ignored() {
    let mut pool = Pool::new(3);

    assert_eq!(pool.set(3, FilledEntry { inner: vec![1] }), None);
    assert_eq!(pool.set(100, FilledEntry { inner: vec![2] }), None);
    assert_eq!(collect_free(&pool), vec![0, 1, 2]);
    assert_eq!(pool.first_free(), Some(0));
}

#[test]
fn free_out_of_range_is_ignored() {
    let mut pool = Pool::new(3);
    pool.set(1, FilledEntry { inner: Vec::new() });

    assert_eq!(pool.free(3), None);
    assert_eq!(pool.free(100), None);
    assert_eq!(collect_free(&pool), vec![0, 2]);
    assert_eq!(pool.first_free(), Some(0));
}

#[test]
fn new_zero_size() {
    let pool = Pool::new(0);

    assert_eq!(pool.first_free(), None);
    assert_eq!(collect_free(&pool), Vec::<usize>::new());
    assert!(pool.entry(0).is_none());
}

#[test]
fn new_single_slot() {
    let mut pool = Pool::new(1);

    assert_eq!(collect_free(&pool), vec![0]);
    assert_eq!(pool.set(0, FilledEntry { inner: Vec::new() }), Some(0));
    assert_eq!(pool.first_free(), None);
    assert_eq!(collect_free(&pool), Vec::<usize>::new());
    assert_eq!(pool.free(0), Some(0));
    assert_eq!(collect_free(&pool), vec![0]);
    assert_eq!(pool.first_free(), Some(0));
}

#[test]
fn new_links_slots_in_ascending_order() {
    let pool = Pool::new(3);

    match pool.entry(0) {
        Some(PoolEntry::Empty(e)) => {
            assert_eq!(e.prev, None);
            assert_eq!(e.next, Some(1));
        }
        _ => panic!("slot 0 should be free"),
    }
    match pool.entry(1) {
        Some(PoolEntry::Empty(e)) => {
            assert_eq!(e.prev, Some(0));
            assert_eq!(e.next, Some(2));
        }
        _ => panic!("slot 1 should be free"),
    }
    match pool.entry(2) {
        Some(PoolEntry::Empty(e)) => {
            assert_eq!(e.prev, Some(1));
            assert_eq!(e.next, None);
        }
        _ => panic!("slot 2 should be free"),
    }
}

#[test]
fn set_overwrites_payload_in_place() {
    let mut pool = Pool::new(2);

    assert_eq!(pool.set(0, FilledEntry { inner: vec![1, 2] }), Some(0));
    assert_eq!(pool.set(0, FilledEntry { inner: vec![3, 4] }), Some(0));
    match pool.entry(0) {
        Some(PoolEntry::Data(d)) => assert_eq!(d.inner, vec![3, 4]),
        _ => panic!("slot 0 should be occupied"),
    }
    assert_eq!(collect_free(&pool), vec![1]);
    assert_eq!(pool.first_free(), Some(1));
}

#[test]
fn free_twice_is_idempotent() {
    let mut pool = Pool::new(5);
    pool.set(2, FilledEntry { inner: vec![9] });

    assert_eq!(pool.free(2), Some(2));
    let once: Vec<usize> = collect_free(&pool);
    assert_eq!(pool.free(2), Some(2));
    let twice: Vec<usize> = collect_free(&pool);

    assert_eq!(once, vec![0, 1, 2, 3, 4]);
    assert_eq!(twice, once);
    assert_eq!(pool.first_free(), Some(0));
}

#[test]
fn free_on_already_free_slot_is_a_noop() {
    let mut pool = Pool::new(4);

    assert_eq!(pool.free(2), Some(2));
    assert_eq!(collect_free(&pool), vec![0, 1, 2, 3]);
    assert_eq!(pool.first_free(), Some(0));
}

#[test]
fn fill_then_release_round_trip() {
    let mut pool = Pool::new(6);
    pool.set(0, FilledEntry { inner: Vec::new() });
    pool.set(3, FilledEntry { inner: vec![7] });
    pool.set(5, FilledEntry { inner: Vec::new() });

    assert_eq!(collect_free(&pool), vec![1, 2, 4]);
    assert_eq!(pool.free(3), Some(3));
    match pool.entry(3) {
        Some(PoolEntry::Empty(_)) => {}
        _ => panic!("slot 3 should be free again"),
    }
    assert_eq!(collect_free(&pool), vec![1, 2, 3, 4]);
}

#[test]
fn enumeration_ascends_and_matches_entries() {
    let mut pool = Pool::new(8);
    pool.set(5, FilledEntry { inner: Vec::new() });
    pool.set(1, FilledEntry { inner: Vec::new() });
    pool.set(6, FilledEntry { inner: Vec::new() });
    pool.free(5);
    pool.set(0, FilledEntry { inner: Vec::new() });

    let free_indexes: Vec<usize> = collect_free(&pool);
    for w in free_indexes.windows(2) {
        assert!(w[0] < w[1]);
    }
    for j in 0..8 {
        let is_free = matches!(pool.entry(j), Some(PoolEntry::Empty(_)));
        assert_eq!(free_indexes.contains(&j), is_free);
    }
}

#[test]
fn iterator_restarts_from_current_head() {
    let mut pool = Pool::new(4);
    pool.set(1, FilledEntry { inner: Vec::new() });

    let first: Vec<usize> = collect_free(&pool);
    let second: Vec<usize> = collect_free(&pool);
    assert_eq!(first, vec![0, 2, 3]);
    assert_eq!(second, first);
}

#[test]
fn free_index_vec_matches_iterator() {
    let mut pool = Pool::new(7);
    pool.set(2, FilledEntry { inner: Vec::new() });
    pool.set(4, FilledEntry { inner: Vec::new() });

    assert_eq!(pool.free_index_vec(), collect_free(&pool));
    assert_eq!(pool.free_index_vec(), vec![0, 1, 3, 5, 6]);
}

#[test]
fn empty_entry_new_keeps_links() {
    let e = EmptyEntry::new(Some(4), None);

    assert_eq!(e.prev, Some(4));
    assert_eq!(e.next, None);
}
