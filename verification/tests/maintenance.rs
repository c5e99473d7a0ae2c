//! Holes, compaction, promotion, retention, discard, and the layout
//! primitives.
use candystore::hashing::{hash_bytes, ph_bytes, ph_parse};
use candystore::{CandyStore, ListCompactionParams};

fn drain(store: &CandyStore, list: &[u8]) -> Vec<(Vec<u8>, Vec<u8>)> {
    let mut out = Vec::new();
    let mut it = store.iter_list(list);
    while let Some(kv) = it.next(store).unwrap() {
        out.push(kv);
    }
    out
}

#[test]
fn holes_then_compaction() {
    // removing from the middle leaves a hole; compaction rewrites it away
    let mut store = CandyStore::new();
    store.set_in_list(b"L", b"a", &[]).unwrap();
    store.set_in_list(b"L", b"b", &[]).unwrap();
    store.set_in_list(b"L", b"c", &[]).unwrap();
    store.remove_from_list(b"L", b"b").unwrap();
    let rec = store.list_record(b"L").unwrap();
    assert_eq!(rec.span_len(), 3);
    assert_eq!(rec.holes(), 1);
    assert_eq!(store.list_len(b"L").unwrap(), 2);
    assert_eq!(
        drain(&store, b"L"),
        vec![(b"a".to_vec(), vec![]), (b"c".to_vec(), vec![])]
    );
    let params = ListCompactionParams { min_length: 1, min_holes_num: 1, min_holes_den: 10 };
    assert!(store.compact_list_if_needed(b"L", params).unwrap());
    let rec = store.list_record(b"L").unwrap();
    assert_eq!(rec.span_len(), 2);
    assert_eq!(rec.holes(), 0);
    assert_eq!(store.list_len(b"L").unwrap(), 2);
    assert_eq!(
        drain(&store, b"L"),
        vec![(b"a".to_vec(), vec![]), (b"c".to_vec(), vec![])]
    );
}

#[test]
fn compaction_preserves_order_and_membership() {
    let mut store = CandyStore::new();
    for i in 0..8u8 {
        store.set_in_list(b"L", &[i], &[i, i]).unwrap();
    }
    for i in [1u8, 3, 5] {
        store.remove_from_list(b"L", &[i]).unwrap();
    }
    let before = drain(&store, b"L");
    let params = ListCompactionParams { min_length: 2, min_holes_num: 1, min_holes_den: 4 };
    assert!(store.compact_list_if_needed(b"L", params).unwrap());
    assert_eq!(drain(&store, b"L"), before);
    assert_eq!(store.list_record(b"L").unwrap().holes(), 0);
    assert_eq!(store.get_from_list(b"L", &[2]).unwrap(), Some(vec![2, 2]));
}

#[test]
fn compaction_thresholds_hold_it_back() {
    let mut store = CandyStore::new();
    store.set_in_list(b"L", b"a", &[]).unwrap();
    store.set_in_list(b"L", b"b", &[]).unwrap();
    // span 2, no holes: the ratio threshold fails
    let params = ListCompactionParams { min_length: 1, min_holes_num: 1, min_holes_den: 10 };
    assert!(!store.compact_list_if_needed(b"L", params).unwrap());
    // min_length above the span fails too
    store.remove_from_list(b"L", b"a").unwrap();
    let params = ListCompactionParams { min_length: 5, min_holes_num: 1, min_holes_den: 10 };
    assert!(!store.compact_list_if_needed(b"L", params).unwrap());
    // and an absent list is never compacted
    let params = ListCompactionParams::default();
    assert!(!store.compact_list_if_needed(b"NONE", params).unwrap());
}

#[test]
fn promote_moves_to_tail() {
    let mut store = CandyStore::new();
    store.set_in_list(b"L", b"a", &[1]).unwrap();
    store.set_in_list(b"L", b"b", &[2]).unwrap();
    store.set_in_list(b"L", b"c", &[3]).unwrap();
    store.set_in_list_promoting(b"L", b"a", &[9]).unwrap();
    assert_eq!(
        drain(&store, b"L"),
        vec![
            (b"b".to_vec(), vec![2]),
            (b"c".to_vec(), vec![3]),
            (b"a".to_vec(), vec![9]),
        ]
    );
}

#[test]
fn promote_absent_key_appends() {
    let mut store = CandyStore::new();
    store.set_in_list(b"L", b"a", &[1]).unwrap();
    store.set_in_list_promoting(b"L", b"new", &[2]).unwrap();
    assert_eq!(
        drain(&store, b"L"),
        vec![(b"a".to_vec(), vec![1]), (b"new".to_vec(), vec![2])]
    );
}

#[test]
fn discard_empties_everything() {
    let mut store = CandyStore::new();
    store.set_in_list(b"L", b"a", &[1]).unwrap();
    store.set_in_list(b"L", b"b", &[2]).unwrap();
    store.set_in_list(b"OTHER", b"x", &[7]).unwrap();
    assert!(store.discard_list(b"L").unwrap());
    assert_eq!(drain(&store, b"L"), vec![]);
    assert_eq!(store.get_from_list(b"L", b"a").unwrap(), None);
    assert_eq!(store.get_from_list(b"L", b"b").unwrap(), None);
    assert_eq!(store.list_len(b"L").unwrap(), 0);
    assert!(store.list_record(b"L").is_none());
    // a second discard reports that nothing was there
    assert!(!store.discard_list(b"L").unwrap());
    // other lists are untouched
    assert_eq!(store.get_from_list(b"OTHER", b"x").unwrap(), Some(vec![7]));
}

#[test]
fn retain_keeps_matching_and_compacts() {
    let mut store = CandyStore::new();
    for i in 0..6u8 {
        store.set_in_list(b"L", &[i], &[i]).unwrap();
    }
    store
        .retain_in_list(b"L", |_k: &[u8], v: &[u8]| v[0] % 2 == 0)
        .unwrap();
    assert_eq!(
        drain(&store, b"L"),
        vec![
            (vec![0], vec![0]),
            (vec![2], vec![2]),
            (vec![4], vec![4]),
        ]
    );
    let rec = store.list_record(b"L").unwrap();
    assert_eq!(rec.holes(), 0);
    assert_eq!(rec.span_len(), 3);
}

#[test]
fn retain_nothing_drops_the_list() {
    let mut store = CandyStore::new();
    store.set_in_list(b"L", b"a", &[1]).unwrap();
    store.set_in_list(b"L", b"b", &[2]).unwrap();
    store.retain_in_list(b"L", |_k: &[u8], _v: &[u8]| false).unwrap();
    assert_eq!(drain(&store, b"L"), vec![]);
    assert!(store.list_record(b"L").is_none());
}

#[test]
fn retain_everything_keeps_order() {
    let mut store = CandyStore::new();
    for i in 0..4u8 {
        store.set_in_list(b"L", &[i], &[i]).unwrap();
    }
    let before = drain(&store, b"L");
    store.retain_in_list(b"L", |_k: &[u8], _v: &[u8]| true).unwrap();
    assert_eq!(drain(&store, b"L"), before);
}

#[test]
fn fingerprints_are_deterministic_and_round_trip() {
    let a = hash_bytes(b"hello");
    let b = hash_bytes(b"hello");
    let c = hash_bytes(b"hellp");
    assert_eq!(a, b);
    assert_ne!(a, c);
    let bytes = ph_bytes(&a);
    assert_eq!(bytes.len(), 8);
    assert_eq!(ph_parse(&bytes), a);
}

#[test]
fn default_compaction_params() {
    let p = ListCompactionParams::default();
    assert_eq!(p.min_length, 100);
    assert_eq!(p.min_holes_num, 1);
    assert_eq!(p.min_holes_den, 4);
}

#[test]
fn many_items_remove_half_compact() {
    let mut store = CandyStore::new();
    for i in 0..50u8 {
        store.set_in_list(b"BIG", &[i], &[i, 0xAA]).unwrap();
    }
    for i in 0..50u8 {
        if i % 2 == 1 {
            assert_eq!(
                store.remove_from_list(b"BIG", &[i]).unwrap(),
                Some(vec![i, 0xAA])
            );
        }
    }
    assert_eq!(store.list_len(b"BIG").unwrap(), 25);
    let params = ListCompactionParams { min_length: 10, min_holes_num: 1, min_holes_den: 4 };
    assert!(store.compact_list_if_needed(b"BIG", params).unwrap());
    let rec = store.list_record(b"BIG").unwrap();
    assert_eq!(rec.holes(), 0);
    assert_eq!(rec.span_len(), 25);
    let got = drain(&store, b"BIG");
    let want: Vec<(Vec<u8>, Vec<u8>)> = (0..50u8)
        .filter(|i| i % 2 == 0)
        .map(|i| (vec![i], vec![i, 0xAA]))
        .collect();
    assert_eq!(got, want);
}
