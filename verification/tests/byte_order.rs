use ledger_equiv::address::Address;
use ledger_equiv::amount::Amount;
use ledger_equiv::bytes::{bytes_order, ByteOrder};

#[test]
fn equal_strings_are_the_same() {
    assert_eq!(bytes_order(&[1, 2, 3], &[1, 2, 3]), ByteOrder::Same);
    assert_eq!(bytes_order(&[], &[]), ByteOrder::Same);
}

#[test]
fn first_differing_byte_decides() {
    assert_eq!(bytes_order(&[1, 2, 3], &[1, 3, 0]), ByteOrder::Before);
    assert_eq!(bytes_order(&[1, 3, 0], &[1, 2, 3]), ByteOrder::After);
    assert_eq!(bytes_order(&[0, 255], &[1]), ByteOrder::Before);
    assert_eq!(bytes_order(&[200], &[100, 255, 255]), ByteOrder::After);
}

#[test]
fn proper_prefix_comes_first() {
    assert_eq!(bytes_order(&[1, 2], &[1, 2, 0]), ByteOrder::Before);
    assert_eq!(bytes_order(&[1, 2, 0], &[1, 2]), ByteOrder::After);
    assert_eq!(bytes_order(&[], &[0]), ByteOrder::Before);
    assert_eq!(bytes_order(&[0], &[]), ByteOrder::After);
}

#[test]
fn byte_order_agrees_with_slice_order() {
    let samples: Vec<Vec<u8>> = vec![
        vec![],
        vec![0],
        vec![0, 0],
        vec![0, 1],
        vec![1],
        vec![1, 0],
        vec![127, 255],
        vec![128],
        vec![255],
        vec![255, 0],
    ];
    for a in samples.iter() {
        for b in samples.iter() {
            let expected = if a < b {
                ByteOrder::Before
            } else if a == b {
                ByteOrder::Same
            } else {
                ByteOrder::After
            };
            assert_eq!(bytes_order(a, b), expected);
        }
    }
}

#[test]
fn address_keeps_its_bytes() {
    let mut bytes = [0u8; 32];
    bytes[0] = 7;
    bytes[31] = 9;
    let address = Address::from_bytes(bytes);
    assert_eq!(address.to_bytes(), bytes);
    assert_eq!(address, Address(bytes));
}

#[test]
fn addresses_are_ordered_by_their_bytes() {
    let mut low = [0u8; 32];
    low[31] = 1;
    let mut high = [0u8; 32];
    high[0] = 1;
    let low = Address::from_bytes(low);
    let high = Address::from_bytes(high);
    assert_eq!(low.order(&high), ByteOrder::Before);
    assert_eq!(high.order(&low), ByteOrder::After);
    assert_eq!(low.order(&low), ByteOrder::Same);
    assert!(low < high);
}

#[test]
fn amount_keeps_its_units() {
    assert_eq!(Amount::from_raw(42).to_raw(), 42);
    assert_eq!(Amount::zero().to_raw(), 0);
    assert_eq!(Amount::from_raw(u64::MAX).to_raw(), u64::MAX);
    assert_eq!(Amount::zero(), Amount::from_raw(0));
    assert_ne!(Amount::from_raw(1), Amount::from_raw(2));
    assert!(Amount::from_raw(1) < Amount::from_raw(2));
}

#[test]
fn amounts_add_up_without_overflow() {
    assert_eq!(Amount::from_raw(40).checked_add(Amount::from_raw(2)), Some(Amount::from_raw(42)));
    assert_eq!(
        Amount::from_raw(u64::MAX - 1).checked_add(Amount::from_raw(1)),
        Some(Amount::from_raw(u64::MAX))
    );
    assert_eq!(Amount::from_raw(u64::MAX).checked_add(Amount::from_raw(1)), None);
    assert_eq!(Amount::zero().checked_add(Amount::zero()), Some(Amount::zero()));
}
