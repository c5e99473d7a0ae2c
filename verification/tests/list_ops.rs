//! End-to-end exercises of the list engine: insertion, lookup, removal,
//! iteration, peeks and pops.
use candystore::{CandyStore, GetOrCreateStatus, ReplaceStatus, SetStatus};

fn drain(store: &CandyStore, list: &[u8]) -> Vec<(Vec<u8>, Vec<u8>)> {
    let mut out = Vec::new();
    let mut it = store.iter_list(list);
    while let Some(kv) = it.next(store).unwrap() {
        out.push(kv);
    }
    out
}

fn drain_back(store: &CandyStore, list: &[u8]) -> Vec<(Vec<u8>, Vec<u8>)> {
    let mut out = Vec::new();
    let mut it = store.iter_list_backwards(list);
    while let Some(kv) = it.next(store).unwrap() {
        out.push(kv);
    }
    out
}

#[test]
fn set_then_get_round_trip() {
    let mut store = CandyStore::new();
    assert_eq!(
        store.set_in_list(b"L", b"a", &[1, 2, 3]).unwrap(),
        SetStatus::CreatedNew
    );
    assert_eq!(store.get_from_list(b"L", b"a").unwrap(), Some(vec![1, 2, 3]));
    assert_eq!(store.get_from_list(b"L", b"b").unwrap(), None);
}

#[test]
fn overwrite_preserves_position() {
    let mut store = CandyStore::new();
    store.set_in_list(b"L", b"a", &[1]).unwrap();
    store.set_in_list(b"L", b"b", &[2]).unwrap();
    store.set_in_list(b"L", b"c", &[3]).unwrap();
    assert_eq!(
        store.set_in_list(b"L", b"b", &[9]).unwrap(),
        SetStatus::PrevValue(vec![2])
    );
    assert_eq!(
        drain(&store, b"L"),
        vec![
            (b"a".to_vec(), vec![1]),
            (b"b".to_vec(), vec![9]),
            (b"c".to_vec(), vec![3]),
        ]
    );
}

#[test]
fn insert_remove_and_implicit_destroy() {
    // fresh store; two inserts, then removals empty the list and drop its
    // descriptor row
    let mut store = CandyStore::new();
    store.set_in_list(b"L", b"a", &[0x01]).unwrap();
    store.set_in_list(b"L", b"b", &[0x02]).unwrap();
    assert_eq!(
        drain(&store, b"L"),
        vec![(b"a".to_vec(), vec![1]), (b"b".to_vec(), vec![2])]
    );
    assert_eq!(store.remove_from_list(b"L", b"a").unwrap(), Some(vec![1]));
    assert_eq!(drain(&store, b"L"), vec![(b"b".to_vec(), vec![2])]);
    assert_eq!(store.remove_from_list(b"L", b"b").unwrap(), Some(vec![2]));
    assert!(store.list_record(b"L").is_none());
    assert_eq!(store.list_len(b"L").unwrap(), 0);
}

#[test]
fn backward_iteration_reverses() {
    let mut store = CandyStore::new();
    store.set_in_list(b"L", b"a", &[1]).unwrap();
    store.set_in_list(b"L", b"b", &[2]).unwrap();
    store.set_in_list(b"L", b"c", &[3]).unwrap();
    let fwd = drain(&store, b"L");
    let mut bwd = drain_back(&store, b"L");
    bwd.reverse();
    assert_eq!(fwd, bwd);
}

#[test]
fn push_pop_fifo_lifo() {
    // pushes produce fresh 16-byte keys; head pops return the oldest and
    // tail pops the newest
    let mut store = CandyStore::new();
    let u1 = store.push_to_list(b"Q", b"x").unwrap();
    let u2 = store.push_to_list(b"Q", b"y").unwrap();
    assert_eq!(u1.len(), 16);
    assert_eq!(u2.len(), 16);
    assert_ne!(u1, u2);
    let (k1, v1) = store.pop_list_head(b"Q").unwrap().unwrap();
    assert_eq!((k1, v1), (u1.clone(), b"x".to_vec()));
    let (k2, v2) = store.pop_list_tail(b"Q").unwrap().unwrap();
    assert_eq!((k2, v2), (u2.clone(), b"y".to_vec()));
    assert_eq!(store.pop_list_head(b"Q").unwrap(), None);
}

#[test]
fn fifo_order_many() {
    let mut store = CandyStore::new();
    let mut keys = Vec::new();
    for i in 0..10u8 {
        keys.push(store.push_to_list(b"Q", &[i]).unwrap());
    }
    for i in 0..10u8 {
        let (k, v) = store.pop_list_head(b"Q").unwrap().unwrap();
        assert_eq!(k, keys[i as usize]);
        assert_eq!(v, vec![i]);
    }
    assert_eq!(store.pop_list_head(b"Q").unwrap(), None);
}

#[test]
fn lifo_order_many() {
    let mut store = CandyStore::new();
    let mut keys = Vec::new();
    for i in 0..10u8 {
        keys.push(store.push_to_list(b"Q", &[i]).unwrap());
    }
    for i in (0..10u8).rev() {
        let (k, v) = store.pop_list_tail(b"Q").unwrap().unwrap();
        assert_eq!(k, keys[i as usize]);
        assert_eq!(v, vec![i]);
    }
    assert_eq!(store.pop_list_tail(b"Q").unwrap(), None);
}

#[test]
fn peeks_do_not_mutate() {
    let mut store = CandyStore::new();
    store.set_in_list(b"L", b"a", &[1]).unwrap();
    store.set_in_list(b"L", b"b", &[2]).unwrap();
    assert_eq!(
        store.peek_list_head(b"L").unwrap(),
        Some((b"a".to_vec(), vec![1]))
    );
    assert_eq!(
        store.peek_list_tail(b"L").unwrap(),
        Some((b"b".to_vec(), vec![2]))
    );
    assert_eq!(store.list_len(b"L").unwrap(), 2);
    assert_eq!(store.peek_list_head(b"EMPTY").unwrap(), None);
}

#[test]
fn replace_with_guard() {
    // a wrong expected value rejects the write and reports the current one
    let mut store = CandyStore::new();
    store.set_in_list(b"L", b"k", &[1]).unwrap();
    assert_eq!(
        store.replace_in_list(b"L", b"k", &[2], Some(&[9][..])).unwrap(),
        ReplaceStatus::WrongValue(vec![1])
    );
    assert_eq!(
        store.replace_in_list(b"L", b"k", &[2], Some(&[1][..])).unwrap(),
        ReplaceStatus::PrevValue(vec![1])
    );
    assert_eq!(store.get_from_list(b"L", b"k").unwrap(), Some(vec![2]));
}

#[test]
fn replace_never_creates() {
    let mut store = CandyStore::new();
    assert_eq!(
        store.replace_in_list(b"L", b"missing", &[1], None).unwrap(),
        ReplaceStatus::DoesNotExist
    );
    assert_eq!(store.get_from_list(b"L", b"missing").unwrap(), None);
    assert_eq!(store.list_len(b"L").unwrap(), 0);
}

#[test]
fn get_or_create_keeps_existing() {
    let mut store = CandyStore::new();
    assert_eq!(
        store.get_or_create_in_list(b"L", b"k", &[7]).unwrap(),
        GetOrCreateStatus::CreatedNew(vec![7])
    );
    assert_eq!(
        store.get_or_create_in_list(b"L", b"k", &[8]).unwrap(),
        GetOrCreateStatus::ExistingValue(vec![7])
    );
    assert_eq!(store.get_from_list(b"L", b"k").unwrap(), Some(vec![7]));
}

#[test]
fn namespace_isolation_between_lists() {
    // the same item key in two different lists is independent
    let mut store = CandyStore::new();
    store.set_in_list(b"L1", b"k", &[1]).unwrap();
    store.set_in_list(b"L2", b"k", &[2]).unwrap();
    store.set_in_list(b"L1", b"k", &[3]).unwrap();
    assert_eq!(store.get_from_list(b"L1", b"k").unwrap(), Some(vec![3]));
    assert_eq!(store.get_from_list(b"L2", b"k").unwrap(), Some(vec![2]));
    store.remove_from_list(b"L1", b"k").unwrap();
    assert_eq!(store.get_from_list(b"L1", b"k").unwrap(), None);
    assert_eq!(store.get_from_list(b"L2", b"k").unwrap(), Some(vec![2]));
}

#[test]
fn empty_keys_and_empty_values() {
    let mut store = CandyStore::new();
    store.set_in_list(b"", b"", &[]).unwrap();
    assert_eq!(store.get_from_list(b"", b"").unwrap(), Some(vec![]));
    assert_eq!(drain(&store, b""), vec![(b"".to_vec(), vec![])]);
}

#[test]
fn owned_variants_match_borrowed() {
    let mut store = CandyStore::new();
    store
        .owned_set_in_list(b"L".to_vec(), b"a".to_vec(), vec![5], false)
        .unwrap();
    assert_eq!(
        store
            .owned_get_from_list(b"L".to_vec(), b"a".to_vec())
            .unwrap(),
        Some(vec![5])
    );
    assert_eq!(store.owned_list_len(b"L".to_vec()).unwrap(), 1);
    assert_eq!(
        store.owned_remove_from_list(b"L".to_vec(), b"a".to_vec()).unwrap(),
        Some(vec![5])
    );
    assert_eq!(store.owned_pop_list_head(b"L".to_vec()).unwrap(), None);
    assert_eq!(store.owned_pop_list_tail(b"L".to_vec()).unwrap(), None);
    assert!(!store.owned_discard_list(b"L".to_vec()).unwrap());
}

#[test]
fn iteration_skips_concurrent_removal() {
    // a reader holding a snapshot sees an element vanish between yields:
    // its index is skipped silently
    let mut store = CandyStore::new();
    store.set_in_list(b"L", b"a", &[1]).unwrap();
    store.set_in_list(b"L", b"b", &[2]).unwrap();
    store.set_in_list(b"L", b"c", &[3]).unwrap();
    let mut it = store.iter_list(b"L");
    assert_eq!(it.next(&store).unwrap(), Some((b"a".to_vec(), vec![1])));
    store.remove_from_list(b"L", b"b").unwrap();
    assert_eq!(it.next(&store).unwrap(), Some((b"c".to_vec(), vec![3])));
    assert_eq!(it.next(&store).unwrap(), None);
}
