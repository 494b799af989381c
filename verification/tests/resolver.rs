use txpool::ids::{Bytes32, UtxoRef};
use txpool::resolver::{consumes, created_outputs, shares_input};
use txpool::transaction::{Output, Transaction};

fn word(n: u8) -> Bytes32 {
    Bytes32::new([n; 32])
}

#[test]
fn resolver_lists_what_a_transaction_consumes_and_creates() {
    let coin = Output::Coin { to: word(1), amount: 5, asset_id: Bytes32::zeroed() };
    let tx = Transaction {
        id: word(7),
        inputs: vec![UtxoRef::new(word(1), 0), UtxoRef::new(word(1), 2)],
        outputs: vec![coin, coin, coin],
        gas_price: 1,
        payload: vec![],
    };
    assert!(consumes(&tx, &UtxoRef::new(word(1), 2)));
    assert!(!consumes(&tx, &UtxoRef::new(word(1), 1)));
    assert!(!consumes(&tx, &UtxoRef::new(word(2), 0)));
    assert_eq!(
        created_outputs(&tx),
        vec![UtxoRef::new(word(7), 0), UtxoRef::new(word(7), 1), UtxoRef::new(word(7), 2)]
    );
}

#[test]
fn inputs_overlap_when_they_name_a_common_output() {
    let a = vec![UtxoRef::new(word(1), 0), UtxoRef::new(word(2), 0)];
    let b = vec![UtxoRef::new(word(3), 0), UtxoRef::new(word(2), 0)];
    let c = vec![UtxoRef::new(word(2), 1)];
    assert!(shares_input(&a, &b));
    assert!(!shares_input(&a, &c));
    assert!(!shares_input(&a, &vec![]));
    assert!(!shares_input(&vec![], &vec![]));
}

#[test]
fn words_compare_byte_by_byte() {
    let mut bytes = [0u8; 32];
    assert_eq!(Bytes32::new(bytes), Bytes32::zeroed());
    bytes[31] = 1;
    assert_ne!(Bytes32::new(bytes), Bytes32::zeroed());
    assert_ne!(UtxoRef::new(word(1), 0), UtxoRef::new(word(1), 1));
    assert_eq!(UtxoRef::new(word(1), 4), UtxoRef { tx_id: word(1), output_index: 4 });
}
