use ledger_equiv::address::Address;
use ledger_equiv::amount::Amount;
use ledger_equiv::bootstrap::{assert_eq_ledger, create_final_ledger, LedgerMismatch};
use ledger_equiv::config::LedgerConfig;
use ledger_equiv::controller::LedgerController;
use ledger_equiv::datastore::Datastore;
use ledger_equiv::entry::{EntryMismatch, LedgerEntry};
use ledger_equiv::final_ledger::FinalLedger;
use ledger_equiv::ledger_db::{entries_within, LedgerDB, StorageInitError};

fn config() -> LedgerConfig {
    LedgerConfig { thread_count: 32, max_datastore_key_length: 255, max_ledger_part_size: 1_000_000 }
}

fn address(first: u8, last: u8) -> Address {
    let mut bytes = [0u8; 32];
    bytes[0] = first;
    bytes[31] = last;
    Address::from_bytes(bytes)
}

fn entry(sequential: u64, parallel: u64, bytecode: &[u8], data: &[(&[u8], &[u8])]) -> LedgerEntry {
    let mut datastore = Datastore::new();
    for (key, value) in data {
        datastore.insert(key.to_vec(), value.to_vec());
    }
    LedgerEntry {
        sequential_balance: Amount::from_raw(sequential),
        parallel_balance: Amount::from_raw(parallel),
        bytecode: bytecode.to_vec(),
        datastore,
    }
}

fn build(entries: Vec<(Address, LedgerEntry)>) -> FinalLedger {
    assert!(entries_within(&entries, config().max_datastore_key_length));
    create_final_ledger(Some(entries), config(), String::from("ledger")).unwrap()
}

fn boxed(entries: Vec<(Address, LedgerEntry)>) -> Box<dyn LedgerController> {
    Box::new(build(entries))
}

fn sample() -> Vec<(Address, LedgerEntry)> {
    vec![
        (address(3, 0), entry(1, 2, &[1, 2], &[(&[1], &[10]), (&[2], &[20])])),
        (address(1, 0), entry(3, 4, &[], &[])),
        (address(2, 9), entry(5, 6, &[7], &[(&[9, 9], &[])])),
    ]
}

#[test]
fn ledger_compares_as_equal_to_itself() {
    let a = boxed(sample());
    let b = boxed(sample());
    assert_eq!(assert_eq_ledger(&a, &b), Ok(()));
    assert_eq!(assert_eq_ledger(&a, &a), Ok(()));
}

#[test]
fn order_of_the_initial_entries_does_not_show() {
    let mut reversed = sample();
    reversed.reverse();
    let a = boxed(sample());
    let b = boxed(reversed);
    assert_eq!(assert_eq_ledger(&a, &b), Ok(()));
    assert_eq!(a.get_every_address(), b.get_every_address());
}

#[test]
fn empty_ledgers_compare_as_equal() {
    let a: Box<dyn LedgerController> =
        Box::new(create_final_ledger(Some(vec![]), config(), String::from("a")).unwrap());
    let b: Box<dyn LedgerController> =
        Box::new(create_final_ledger(None, config(), String::from("b")).unwrap());
    assert_eq!(assert_eq_ledger(&a, &b), Ok(()));
    assert!(a.get_every_address().is_empty());
}

#[test]
fn size_mismatch_gives_both_sizes() {
    let a = boxed(sample());
    let b = boxed(vec![(address(1, 0), entry(3, 4, &[], &[]))]);
    assert_eq!(assert_eq_ledger(&a, &b), Err(LedgerMismatch::LedgerSizeMismatch(3, 1)));
    assert_eq!(assert_eq_ledger(&b, &a), Err(LedgerMismatch::LedgerSizeMismatch(1, 3)));
    let none = boxed(vec![]);
    assert_eq!(assert_eq_ledger(&none, &b), Err(LedgerMismatch::LedgerSizeMismatch(0, 1)));
}

#[test]
fn smaller_second_ledger_is_a_size_mismatch() {
    let e1 = entry(1, 2, &[1], &[]);
    let e2 = entry(3, 4, &[2], &[]);
    let a = boxed(vec![(address(1, 0), e1.clone()), (address(2, 0), e2)]);
    let b = boxed(vec![(address(1, 0), e1)]);
    assert_eq!(assert_eq_ledger(&a, &b), Err(LedgerMismatch::LedgerSizeMismatch(2, 1)));
}

#[test]
fn missing_address_is_named() {
    let e1 = entry(1, 2, &[1], &[]);
    let e2 = entry(3, 4, &[2], &[]);
    let a = boxed(vec![(address(1, 0), e1.clone()), (address(2, 0), e2.clone())]);
    let b = boxed(vec![(address(1, 0), e1), (address(3, 0), e2)]);
    assert_eq!(assert_eq_ledger(&a, &b), Err(LedgerMismatch::LedgerKeyMissing(address(2, 0))));
    assert_eq!(assert_eq_ledger(&b, &a), Err(LedgerMismatch::LedgerKeyMissing(address(3, 0))));
}

#[test]
fn least_missing_address_is_named() {
    let e = entry(1, 2, &[1], &[]);
    let a = boxed(vec![
        (address(9, 0), e.clone()),
        (address(4, 1), e.clone()),
        (address(4, 0), e.clone()),
    ]);
    let b = boxed(vec![
        (address(4, 0), e.clone()),
        (address(5, 0), e.clone()),
        (address(6, 0), e.clone()),
    ]);
    assert_eq!(assert_eq_ledger(&a, &b), Err(LedgerMismatch::LedgerKeyMissing(address(4, 1))));
}

#[test]
fn missing_address_comes_before_entry_mismatch() {
    let a = boxed(vec![
        (address(1, 0), entry(1, 2, &[1], &[])),
        (address(2, 0), entry(1, 2, &[1], &[])),
    ]);
    let b = boxed(vec![
        (address(1, 0), entry(1, 3, &[1], &[])),
        (address(3, 0), entry(1, 2, &[1], &[])),
    ]);
    assert_eq!(assert_eq_ledger(&a, &b), Err(LedgerMismatch::LedgerKeyMissing(address(2, 0))));
}

#[test]
fn entry_mismatch_is_reported_with_its_address() {
    let a = boxed(sample());
    let mut changed = sample();
    changed[0].1.bytecode = vec![1, 3];
    let b = boxed(changed);
    assert_eq!(
        assert_eq_ledger(&a, &b),
        Err(LedgerMismatch::Entry(address(3, 0), EntryMismatch::BytecodeMismatch))
    );
}

#[test]
fn parallel_balance_of_the_second_ledger_is_read() {
    let a = boxed(vec![(address(1, 0), entry(1, 2, &[], &[]))]);
    let b = boxed(vec![(address(1, 0), entry(1, 3, &[], &[]))]);
    assert_eq!(
        assert_eq_ledger(&a, &b),
        Err(LedgerMismatch::Entry(address(1, 0), EntryMismatch::ParallelBalanceMismatch))
    );
}

#[test]
fn least_differing_address_is_reported() {
    let a = boxed(vec![
        (address(7, 0), entry(1, 2, &[], &[(&[1], &[1])])),
        (address(5, 0), entry(1, 2, &[], &[(&[1], &[1])])),
        (address(6, 0), entry(1, 2, &[], &[(&[1], &[1])])),
    ]);
    let b = boxed(vec![
        (address(5, 0), entry(1, 2, &[], &[(&[1], &[1])])),
        (address(6, 0), entry(1, 2, &[], &[(&[1], &[2])])),
        (address(7, 0), entry(1, 2, &[], &[(&[2], &[1])])),
    ]);
    assert_eq!(
        assert_eq_ledger(&a, &b),
        Err(LedgerMismatch::Entry(address(6, 0), EntryMismatch::DatastoreValueMismatch(vec![1])))
    );
}

#[test]
fn sequential_balances_do_not_make_ledgers_differ() {
    let a = boxed(vec![(address(1, 0), entry(1, 2, &[9], &[]))]);
    let b = boxed(vec![(address(1, 0), entry(100, 2, &[9], &[]))]);
    assert_eq!(assert_eq_ledger(&a, &b), Ok(()));
    assert_eq!(a.get_every_address(), vec![(address(1, 0), Amount::from_raw(1))]);
    assert_eq!(b.get_every_address(), vec![(address(1, 0), Amount::from_raw(100))]);
}

#[test]
fn every_initial_entry_can_be_read_back() {
    let ledger = build(sample());
    for (addr, expected) in sample() {
        assert_eq!(ledger.get_parallel_balance(&addr), Some(expected.parallel_balance));
        assert_eq!(ledger.get_bytecode(&addr), Some(expected.bytecode));
        assert_eq!(ledger.get_entire_datastore(&addr), expected.datastore);
    }
    assert_eq!(
        ledger.get_every_address(),
        vec![
            (address(1, 0), Amount::from_raw(3)),
            (address(2, 9), Amount::from_raw(5)),
            (address(3, 0), Amount::from_raw(1)),
        ]
    );
}

#[test]
fn unknown_address_reads_as_nothing() {
    let ledger = build(sample());
    let unknown = address(8, 8);
    assert_eq!(ledger.get_parallel_balance(&unknown), None);
    assert_eq!(ledger.get_bytecode(&unknown), None);
    assert_eq!(ledger.get_entire_datastore(&unknown), Datastore::new());
}

#[test]
fn last_entry_of_a_repeated_address_stays() {
    let ledger = build(vec![
        (address(1, 0), entry(1, 2, &[1], &[])),
        (address(2, 0), entry(3, 4, &[2], &[])),
        (address(1, 0), entry(5, 6, &[3], &[])),
    ]);
    assert_eq!(
        ledger.get_every_address(),
        vec![(address(1, 0), Amount::from_raw(5)), (address(2, 0), Amount::from_raw(3))]
    );
    assert_eq!(ledger.get_bytecode(&address(1, 0)), Some(vec![3]));
}

#[test]
fn ledger_keeps_its_parameters() {
    let cfg = LedgerConfig { thread_count: 4, max_datastore_key_length: 9, max_ledger_part_size: 77 };
    let ledger = create_final_ledger(None, cfg, String::from("/tmp/ledger")).unwrap();
    assert_eq!(ledger.config(), cfg);
    assert_eq!(ledger.sorted_ledger().path(), "/tmp/ledger");
    assert_eq!(ledger.sorted_ledger().thread_count(), 4);
    assert_eq!(ledger.sorted_ledger().max_datastore_key_length(), 9);
    assert_eq!(ledger.sorted_ledger().max_ledger_part_size(), 77);
}

#[test]
fn empty_path_cannot_be_opened() {
    assert_eq!(
        create_final_ledger(None, config(), String::new()).err(),
        Some(StorageInitError::UnusablePath)
    );
    assert_eq!(
        create_final_ledger(Some(sample()), config(), String::new()).err(),
        Some(StorageInitError::UnusablePath)
    );
    assert_eq!(LedgerDB::new(String::new(), 32, 255, 1).err(), Some(StorageInitError::UnusablePath));
    assert!(LedgerDB::new(String::from("x"), 32, 255, 1).is_ok());
}

#[test]
fn key_of_the_greatest_length_round_trips() {
    let cfg = LedgerConfig { thread_count: 32, max_datastore_key_length: 255, max_ledger_part_size: 1_000_000 };
    let key: Vec<u8> = vec![0xAB; 255];
    let entries = || vec![(address(1, 0), entry(1, 2, &[], &[(&key, &[1, 2, 3])]))];
    assert!(entries_within(&entries(), cfg.max_datastore_key_length));
    let first = create_final_ledger(Some(entries()), cfg, String::from("a")).unwrap();
    let datastore = first.get_entire_datastore(&address(1, 0));
    assert_eq!(datastore.keys(), vec![&key]);
    assert_eq!(datastore.get(&key), Some(&vec![1, 2, 3]));
    let second = create_final_ledger(Some(entries()), cfg, String::from("b")).unwrap();
    let a: Box<dyn LedgerController> = Box::new(first);
    let b: Box<dyn LedgerController> = Box::new(second);
    assert_eq!(assert_eq_ledger(&a, &b), Ok(()));
}

#[test]
fn key_at_a_smaller_limit_round_trips() {
    let cfg = LedgerConfig { thread_count: 1, max_datastore_key_length: 4, max_ledger_part_size: 10 };
    let at_limit = vec![(address(1, 0), entry(0, 0, &[], &[(&[1, 2, 3, 4], &[5])]))];
    let over_limit = vec![(address(1, 0), entry(0, 0, &[], &[(&[1, 2, 3, 4, 5], &[5])]))];
    assert!(entries_within(&at_limit, cfg.max_datastore_key_length));
    assert!(!entries_within(&over_limit, cfg.max_datastore_key_length));
    let ledger = create_final_ledger(Some(at_limit), cfg, String::from("a")).unwrap();
    assert_eq!(ledger.get_entire_datastore(&address(1, 0)).get(&[1, 2, 3, 4]), Some(&vec![5]));
}

#[test]
fn put_entry_replaces_and_keeps_order() {
    let mut db = LedgerDB::new(String::from("db"), 32, 255, 1_000_000).unwrap();
    db.put_entry(address(2, 0), entry(1, 1, &[], &[]));
    db.put_entry(address(1, 0), entry(2, 2, &[], &[]));
    db.put_entry(address(2, 0), entry(3, 3, &[], &[]));
    assert_eq!(
        db.get_every_address(),
        vec![(address(1, 0), Amount::from_raw(2)), (address(2, 0), Amount::from_raw(3))]
    );
    assert_eq!(db.get_parallel_balance(&address(2, 0)), Some(Amount::from_raw(3)));
    db.load_initial_ledger(vec![(address(0, 5), entry(9, 9, &[9], &[]))]);
    assert_eq!(db.get_every_address().len(), 3);
    assert_eq!(db.get_every_address()[0], (address(0, 5), Amount::from_raw(9)));
}
