use ledger_equiv::datastore::Datastore;

fn store(pairs: &[(&[u8], &[u8])]) -> Datastore {
    let mut store = Datastore::new();
    for (key, value) in pairs {
        store.insert(key.to_vec(), value.to_vec());
    }
    store
}

#[test]
fn new_store_is_empty() {
    let store = Datastore::new();
    assert_eq!(store.len(), 0);
    assert!(store.keys().is_empty());
    assert_eq!(store.get(&[1]), None);
}

#[test]
fn insert_then_get() {
    let mut store = Datastore::new();
    assert_eq!(store.insert(vec![1, 2], vec![10]), None);
    assert_eq!(store.insert(vec![3], vec![20, 21]), None);
    assert_eq!(store.len(), 2);
    assert_eq!(store.get(&[1, 2]), Some(&vec![10]));
    assert_eq!(store.get(&[3]), Some(&vec![20, 21]));
    assert_eq!(store.get(&[1]), None);
    assert_eq!(store.get(&[]), None);
}

#[test]
fn insert_overwrites_and_returns_the_old_value() {
    let mut store = Datastore::new();
    assert_eq!(store.insert(vec![5], vec![1]), None);
    assert_eq!(store.insert(vec![5], vec![2]), Some(vec![1]));
    assert_eq!(store.len(), 1);
    assert_eq!(store.get(&[5]), Some(&vec![2]));
}

#[test]
fn keys_come_in_increasing_order() {
    let store = store(&[(&[9], &[0]), (&[1, 1], &[0]), (&[], &[0]), (&[1], &[0]), (&[200, 0], &[0])]);
    let keys: Vec<Vec<u8>> = store.keys().into_iter().cloned().collect();
    assert_eq!(keys, vec![vec![], vec![1], vec![1, 1], vec![9], vec![200, 0]]);
    assert_eq!(store.len(), 5);
}

#[test]
fn insertion_order_does_not_show() {
    let forward = store(&[(&[1], &[10]), (&[2], &[20]), (&[3], &[30])]);
    let backward = store(&[(&[3], &[30]), (&[2], &[20]), (&[1], &[10])]);
    let mixed = store(&[(&[2], &[0]), (&[1], &[10]), (&[3], &[30]), (&[2], &[20])]);
    assert_eq!(forward, backward);
    assert_eq!(forward, mixed);
}

#[test]
fn many_keys_are_all_found() {
    let mut store = Datastore::new();
    let mut n: u32 = 0;
    while n < 300 {
        let key = ((n * 7919) % 1000).to_be_bytes().to_vec();
        store.insert(key, n.to_le_bytes().to_vec());
        n += 1;
    }
    assert_eq!(store.len(), 300);
    let mut n: u32 = 0;
    while n < 300 {
        let key = ((n * 7919) % 1000).to_be_bytes().to_vec();
        assert_eq!(store.get(&key), Some(&n.to_le_bytes().to_vec()));
        n += 1;
    }
    let keys = store.keys();
    let mut i: usize = 1;
    while i < keys.len() {
        assert!(keys[i - 1] < keys[i]);
        i += 1;
    }
}

#[test]
fn clone_holds_the_same_pairs() {
    let first = store(&[(&[1], &[10]), (&[2], &[20])]);
    let mut copy = first.clone();
    assert_eq!(copy, first);
    copy.insert(vec![3], vec![30]);
    assert_eq!(first.len(), 2);
    assert_eq!(copy.len(), 3);
}

#[test]
fn keys_within_the_limit() {
    let store = store(&[(&[1, 2, 3], &[0]), (&[4], &[0])]);
    assert!(store.keys_within(3));
    assert!(store.keys_within(255));
    assert!(!store.keys_within(2));
    assert!(!store.keys_within(0));
    assert!(Datastore::new().keys_within(0));
}
