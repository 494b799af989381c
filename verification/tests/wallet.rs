use txpool::ids::{Bytes32, UtxoRef};
use txpool::status::TxStatus;
use txpool::transaction::Output;
use txpool::wallet::{deployment_accepted, select_coins, Coin, CoinType, Scan, StorageSlot, Wallet, BASE_AMOUNT, GAS_PRICE};

fn word(n: u8) -> Bytes32 {
    Bytes32::new([n; 32])
}

fn coin(n: u8, amount: u64) -> Coin {
    Coin { utxo_id: UtxoRef::new(word(n), 0), amount, asset_id: Bytes32::zeroed(), maturity: 0 }
}

#[test]
fn spend_query_adds_the_base_amount() {
    let wallet = Wallet::new(word(1));
    assert_eq!(BASE_AMOUNT, 10_000);
    assert_eq!(wallet.spend_query(5, None), Some((Bytes32::zeroed(), 10_005)));
    assert_eq!(wallet.spend_query(0, Some(word(7))), Some((word(7), 10_000)));
    assert_eq!(wallet.spend_query(u64::MAX - 10_000, None), Some((Bytes32::zeroed(), u64::MAX)));
    assert_eq!(wallet.spend_query(u64::MAX - 9_999, None), None);
}

#[test]
fn transfer_spends_coins_and_returns_change() {
    let wallet = Wallet::new(word(1));
    let offered = vec![CoinType::Coin(coin(10, 6_000)), CoinType::Other, CoinType::Coin(coin(11, 7_000))];
    let draft = wallet.transfer_tx(word(2), 500, None, &offered);
    assert_eq!(draft.gas_price, GAS_PRICE);
    assert_eq!(draft.gas_price, 1);
    assert_eq!(draft.gas_limit, 10_000);
    assert_eq!(draft.inputs, vec![coin(10, 6_000), coin(11, 7_000)]);
    assert_eq!(
        draft.outputs,
        vec![
            Output::Coin { to: word(2), amount: 500, asset_id: Bytes32::zeroed() },
            Output::Change { to: word(1), amount: 0, asset_id: Bytes32::zeroed() },
        ]
    );
    let named = wallet.transfer_tx(word(2), 500, Some(word(9)), &vec![]);
    assert!(named.inputs.is_empty());
    assert_eq!(named.outputs[0], Output::Coin { to: word(2), amount: 500, asset_id: word(9) });
    assert_eq!(named.outputs[1], Output::Change { to: word(1), amount: 0, asset_id: word(9) });
    assert_eq!(select_coins(&vec![CoinType::Other]), vec![]);
}

#[test]
fn page_scan_finds_continues_or_gives_up() {
    let wallet = Wallet::new(word(1));
    let page = vec![coin(10, 1), coin(11, 1)];
    assert_eq!(wallet.owns_coin(&UtxoRef::new(word(11), 0), &page), Scan::Found);
    assert_eq!(wallet.owns_coin(&UtxoRef::new(word(11), 1), &page), Scan::NextPage);
    assert_eq!(wallet.owns_coin(&UtxoRef::new(word(11), 0), &vec![]), Scan::Exhausted);
}

#[test]
fn transfer_result_names_the_first_output() {
    let wallet = Wallet::new(word(1));
    let done = wallet.transfer(word(5), TxStatus::Success);
    assert_eq!(done.tx_id, word(5));
    assert_eq!(done.transferred_utxo, UtxoRef::new(word(5), 0));
    assert!(done.success);
    assert_eq!(done.status, TxStatus::Success);
    assert!(!wallet.transfer(word(5), TxStatus::Failure).success);
    assert!(!wallet.transfer(word(5), TxStatus::SqueezedOut).success);
    assert!(!wallet.transfer(word(5), TxStatus::Submitted).success);
}

#[test]
fn deployment_fails_on_failure_and_squeeze_out() {
    assert!(deployment_accepted(TxStatus::Success));
    assert!(deployment_accepted(TxStatus::Submitted));
    assert!(!deployment_accepted(TxStatus::Failure));
    assert!(!deployment_accepted(TxStatus::SqueezedOut));
}

#[test]
fn deployment_creates_the_contract_with_the_state_root_of_its_slots() {
    let wallet = Wallet::new(word(1));
    let slots = vec![StorageSlot { key: word(3), value: word(4) }, StorageSlot { key: word(5), value: word(6) }];
    let fuel_slots: Vec<fuel_core_types::fuel_tx::StorageSlot> = slots
        .iter()
        .map(|slot| fuel_core_types::fuel_tx::StorageSlot::new(slot.key.bytes.into(), slot.value.bytes.into()))
        .collect();
    let expected: [u8; 32] = fuel_core_types::fuel_tx::Contract::initial_state_root(fuel_slots.iter()).into();
    let empty: [u8; 32] = fuel_core_types::fuel_tx::Contract::default_state_root().into();
    assert_ne!(expected, empty);

    let draft = wallet.deploy_contract(word(8), &slots, &vec![CoinType::Coin(coin(10, 20_000))]);
    assert_eq!(draft.gas_price, 1);
    assert_eq!(draft.gas_limit, 10_000);
    assert_eq!(draft.inputs, vec![coin(10, 20_000)]);
    assert_eq!(
        draft.outputs,
        vec![
            Output::ContractCreated { contract_id: word(8), state_root: Bytes32::new(expected) },
            Output::Change { to: word(1), amount: 0, asset_id: Bytes32::zeroed() },
        ]
    );
    let bare = wallet.deploy_contract(word(8), &vec![], &vec![]);
    assert_eq!(bare.outputs[0], Output::ContractCreated { contract_id: word(8), state_root: Bytes32::new(empty) });
    let known = wallet.deployment(word(8), word(9), &vec![]);
    assert_eq!(known.outputs[0], Output::ContractCreated { contract_id: word(8), state_root: word(9) });
}

#[test]
fn wallet_address_is_the_owner_of_its_key() {
    let mut secret = [0u8; 32];
    secret[31] = 1;
    let key = fuel_core_types::fuel_crypto::SecretKey::try_from(&secret[..]).unwrap();
    let public_key = fuel_core_types::fuel_crypto::PublicKey::from(&key);
    let expected: [u8; 32] = fuel_core_types::fuel_tx::Input::owner(&public_key).into();
    let wallet = Wallet::from_secret(&secret).unwrap();
    assert_eq!(wallet.address, Bytes32::new(expected));
    assert_ne!(wallet.address.bytes, secret);

    secret[31] = 2;
    assert_ne!(Wallet::from_secret(&secret).unwrap().address, wallet.address);
    // zero is no secret key
    assert_eq!(Wallet::from_secret(&[0u8; 32]), None);
    assert_eq!(Wallet::from_secret(&[0xffu8; 32]), None);
}
