use ledger_equiv::address::Address;
use ledger_equiv::amount::Amount;
use ledger_equiv::bootstrap::{assert_eq_ledger, create_final_ledger, LedgerMismatch};
use ledger_equiv::config::LedgerConfig;
use ledger_equiv::controller::LedgerController;
use ledger_equiv::datastore::Datastore;
use ledger_equiv::entry::{EntryMismatch, LedgerEntry};

/// A ledger that answers `None` wherever a balance is zero or a bytecode is
/// empty.
struct Sparse {
    entries: Vec<(Address, LedgerEntry)>,
}

impl Sparse {
    fn find(&self, addr: &Address) -> Option<&LedgerEntry> {
        self.entries.iter().find(|(known, _)| known == addr).map(|(_, entry)| entry)
    }
}

impl LedgerController for Sparse {
    fn get_every_address(&self) -> Vec<(Address, Amount)> {
        let mut listed: Vec<(Address, Amount)> =
            self.entries.iter().map(|(addr, entry)| (*addr, entry.sequential_balance)).collect();
        listed.sort();
        listed
    }

    fn get_parallel_balance(&self, addr: &Address) -> Option<Amount> {
        self.find(addr).map(|entry| entry.parallel_balance).filter(|amount| amount.to_raw() != 0)
    }

    fn get_bytecode(&self, addr: &Address) -> Option<Vec<u8>> {
        self.find(addr).map(|entry| entry.bytecode.clone()).filter(|code| !code.is_empty())
    }

    fn get_entire_datastore(&self, addr: &Address) -> Datastore {
        match self.find(addr) {
            Some(entry) => entry.datastore.clone(),
            None => Datastore::new(),
        }
    }
}

fn address(first: u8) -> Address {
    let mut bytes = [0u8; 32];
    bytes[0] = first;
    Address::from_bytes(bytes)
}

fn entry(sequential: u64, parallel: u64, bytecode: &[u8]) -> LedgerEntry {
    LedgerEntry {
        sequential_balance: Amount::from_raw(sequential),
        parallel_balance: Amount::from_raw(parallel),
        bytecode: bytecode.to_vec(),
        datastore: Datastore::new(),
    }
}

fn entries() -> Vec<(Address, LedgerEntry)> {
    vec![(address(2), entry(1, 0, &[])), (address(1), entry(2, 5, &[1]))]
}

fn full() -> Box<dyn LedgerController> {
    let config =
        LedgerConfig { thread_count: 2, max_datastore_key_length: 8, max_ledger_part_size: 100 };
    Box::new(create_final_ledger(Some(entries()), config, String::from("full")).unwrap())
}

#[test]
fn absent_balance_reads_as_zero_and_absent_bytecode_as_empty() {
    let sparse: Box<dyn LedgerController> = Box::new(Sparse { entries: entries() });
    assert_eq!(sparse.get_parallel_balance(&address(2)), None);
    assert_eq!(sparse.get_bytecode(&address(2)), None);
    assert_eq!(assert_eq_ledger(&sparse, &full()), Ok(()));
    assert_eq!(assert_eq_ledger(&full(), &sparse), Ok(()));
}

#[test]
fn absent_balance_differs_from_a_positive_one() {
    let mut changed = entries();
    changed[0].1.parallel_balance = Amount::from_raw(1);
    let sparse: Box<dyn LedgerController> = Box::new(Sparse { entries: changed });
    assert_eq!(
        assert_eq_ledger(&full(), &sparse),
        Err(LedgerMismatch::Entry(address(2), EntryMismatch::ParallelBalanceMismatch))
    );
}

#[test]
fn absent_bytecode_differs_from_some_bytecode() {
    let mut changed = entries();
    changed[1].1.bytecode = vec![];
    let sparse: Box<dyn LedgerController> = Box::new(Sparse { entries: changed });
    assert_eq!(
        assert_eq_ledger(&full(), &sparse),
        Err(LedgerMismatch::Entry(address(1), EntryMismatch::BytecodeMismatch))
    );
}
