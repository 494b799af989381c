use txpool::gossip::{InboundGossip, OutboundGossip};
use txpool::ids::{Bytes32, TxId, UtxoRef};
use txpool::pool::PoolError;
use txpool::service::{Request, Response, Service};
use txpool::status::{ExecutionOutcome, Membership, Provenance, RemovalReason, StatusEvent, TxStatus, UpdateEvent};
use txpool::transaction::{Output, Transaction};

fn tx_id(n: u8) -> TxId {
    Bytes32::new([n; 32])
}

fn setup_script_tx(n: u8, gas_price: u64) -> Transaction {
    Transaction {
        id: tx_id(n),
        inputs: vec![UtxoRef::new(tx_id(200 + n % 50), 0)],
        outputs: vec![Output::Coin { to: Bytes32::zeroed(), amount: 1, asset_id: Bytes32::zeroed() }],
        gas_price,
        payload: vec![n, 1, 2, 3],
    }
}

#[test]
fn can_insert_from_p2p() {
    let mut service = Service::new(16, 8);
    let tx1 = setup_script_tx(1, 10);
    let receiver = service.subscribe_updates().unwrap();
    let res = service.on_gossip(InboundGossip::NewTransaction(tx1.clone()));
    assert!(res.is_ok());
    assert!(service.poll_update(receiver).is_some());

    let out = match service.handle(Request::Find { ids: vec![tx1.id] }) {
        Response::Found(out) => out,
        other => panic!("unexpected response {:?}", other),
    };
    let got_tx: Transaction = out[0].as_ref().unwrap().tx.clone();
    assert_eq!(tx1, got_tx);
}

#[test]
fn insert_from_local_broadcasts_to_p2p() {
    let mut service = Service::new(16, 8);
    let tx1 = setup_script_tx(1, 10);
    let subscribe_status = service.subscribe_status().unwrap();
    let subscribe_update = service.subscribe_updates().unwrap();

    let out = service.handle(Request::Insert { tx: tx1.clone(), provenance: Provenance::Local });

    if let Response::Inserted(Ok(result)) = &out {
        assert_eq!(
            service.poll_status(subscribe_status).map(|event| event.status),
            Some(TxStatus::Submitted),
            "First added should be tx1"
        );
        let update = service.poll_update(subscribe_update).unwrap();
        assert_eq!(update.id, result.inserted.id(), "First added should be tx1");
    } else {
        panic!("Tx1 should be OK, got err");
    }

    let mut ret = service.take_outbound();
    assert_eq!(ret.len(), 1);
    let OutboundGossip::BroadcastNewTransaction(transaction) = ret.remove(0);
    assert_eq!(tx1, transaction);
}

#[test]
fn test_insert_from_p2p_does_not_broadcast_to_p2p() {
    let mut service = Service::new(16, 8);
    let tx1 = setup_script_tx(1, 10);
    let receiver = service.subscribe_updates().unwrap();
    let res = service.on_gossip(InboundGossip::NewTransaction(tx1.clone()));
    assert!(res.is_ok());
    assert_eq!(
        service.poll_update(receiver),
        Some(UpdateEvent { id: tx1.id, event: Membership::Inserted })
    );

    let ret = service.take_outbound();
    assert!(ret.is_empty());
    assert_eq!(service.pending(), 1);
}

#[test]
fn local_insert_reaches_status_stream_and_gossip() {
    let mut service = Service::new(4, 4);
    let status = service.subscribe_status().unwrap();
    let tx = setup_script_tx(7, 3);
    let result = service.insert(tx.clone(), Provenance::Local);
    assert!(result.is_ok());
    assert_eq!(service.poll_status(status), Some(StatusEvent { id: tx_id(7), status: TxStatus::Submitted }));
    assert_eq!(service.poll_status(status), None);
    assert_eq!(service.take_outbound(), vec![OutboundGossip::BroadcastNewTransaction(tx)]);
    assert_eq!(service.take_outbound(), Vec::<OutboundGossip>::new());
}

#[test]
fn conflicting_insert_fails_and_first_stays_pending() {
    let mut service = Service::new(4, 4);
    let status = service.subscribe_status().unwrap();
    let a = Transaction { id: tx_id(1), inputs: vec![UtxoRef::new(tx_id(9), 3)], outputs: vec![], gas_price: 1, payload: vec![] };
    let b = Transaction { id: tx_id(2), inputs: vec![UtxoRef::new(tx_id(9), 3)], outputs: vec![], gas_price: 9, payload: vec![] };
    assert!(service.insert(a.clone(), Provenance::Local).is_ok());
    assert_eq!(service.take_outbound().len(), 1);
    assert!(service.poll_status(status).is_some());
    let refused = service.insert(b, Provenance::Local);
    assert_eq!(refused, Err(PoolError::ConflictingInput(vec![tx_id(1)])));
    assert_eq!(service.poll_status(status), None);
    assert!(service.take_outbound().is_empty());
    match service.handle(Request::Find { ids: vec![tx_id(1), tx_id(2)] }) {
        Response::Found(found) => {
            assert_eq!(found[0].as_ref().map(|e| e.tx.clone()), Some(a));
            assert_eq!(found[1], None);
        },
        other => panic!("unexpected response {:?}", other),
    }
}

#[test]
fn network_insert_twice_grows_the_pool_by_one() {
    let mut service = Service::new(4, 4);
    let updates = service.subscribe_updates().unwrap();
    let a = setup_script_tx(1, 10);
    let before = service.pending();
    let first = service.on_gossip(InboundGossip::NewTransaction(a.clone()));
    let second = service.on_gossip(InboundGossip::NewTransaction(a));
    assert!(first.is_ok() && second.is_ok());
    assert_eq!(first, second);
    assert_eq!(service.pending(), before + 1);
    assert!(service.poll_update(updates).is_some());
    assert_eq!(service.poll_update(updates), None);
}

#[test]
fn full_pool_refuses_lower_priority_and_keeps_its_content() {
    let mut service = Service::new(3, 4);
    for n in 1..=3u8 {
        assert!(service.insert(setup_script_tx(n, 100 + n as u64), Provenance::Local).is_ok());
    }
    let updates = service.subscribe_updates().unwrap();
    let refused = service.insert(setup_script_tx(4, 100), Provenance::Local);
    assert_eq!(refused, Err(PoolError::PoolFull));
    assert_eq!(service.pending(), 3);
    assert_eq!(service.poll_update(updates), None);
    match service.handle(Request::Find { ids: vec![tx_id(1), tx_id(2), tx_id(3), tx_id(4)] }) {
        Response::Found(found) => {
            assert!(found[0].is_some() && found[1].is_some() && found[2].is_some());
            assert!(found[3].is_none());
        },
        other => panic!("unexpected response {:?}", other),
    }
}

#[test]
fn requests_are_answered_in_kind() {
    let mut service = Service::new(4, 4);
    let status = service.subscribe_status().unwrap();
    let updates = service.subscribe_updates().unwrap();
    assert!(service.insert(setup_script_tx(1, 10), Provenance::Network).is_ok());
    assert!(service.insert(setup_script_tx(2, 10), Provenance::Network).is_ok());
    assert_eq!(
        service.handle(Request::MarkConfirmed { id: tx_id(1), outcome: ExecutionOutcome::Success }),
        Response::Confirmed(true)
    );
    assert_eq!(service.handle(Request::MarkConflictsResolved { ids: vec![tx_id(1), tx_id(2), tx_id(3)] }), Response::Resolved(1));
    assert_eq!(
        service.handle(Request::Remove { ids: vec![tx_id(1), tx_id(3)], reason: RemovalReason::Confirmed }),
        Response::Removed(1)
    );
    let mut seen = vec![];
    while let Some(event) = service.poll_status(status) {
        seen.push((event.id, event.status));
    }
    assert_eq!(
        seen,
        vec![
            (tx_id(1), TxStatus::Submitted),
            (tx_id(2), TxStatus::Submitted),
            (tx_id(1), TxStatus::Success),
            (tx_id(2), TxStatus::SqueezedOut),
        ]
    );
    let mut moves = vec![];
    while let Some(event) = service.poll_update(updates) {
        moves.push((event.id, event.event));
    }
    assert_eq!(
        moves,
        vec![
            (tx_id(1), Membership::Inserted),
            (tx_id(2), Membership::Inserted),
            (tx_id(1), Membership::Removed(RemovalReason::Confirmed)),
        ]
    );
}

#[test]
fn subscribers_see_only_what_follows_their_subscription() {
    let mut service = Service::new(4, 2);
    assert!(service.insert(setup_script_tx(1, 10), Provenance::Local).is_ok());
    let late = service.subscribe_status().unwrap();
    assert_eq!(service.poll_status(late), None);
    assert!(service.insert(setup_script_tx(2, 10), Provenance::Local).is_ok());
    assert_eq!(service.poll_status(late).map(|e| e.id), Some(tx_id(2)));
    assert!(service.unsubscribe_status(late));
    assert!(!service.unsubscribe_status(late));
    assert!(!service.unsubscribe_updates(late));
    assert!(service.insert(setup_script_tx(3, 10), Provenance::Local).is_ok());
    assert_eq!(service.poll_status(late), None);
}

#[test]
fn slow_subscriber_loses_the_oldest_events() {
    let mut service = Service::new(8, 2);
    let slow = service.subscribe_status().unwrap();
    let other = service.subscribe_status().unwrap();
    assert_ne!(slow, other);
    for n in 1..=3u8 {
        assert!(service.insert(setup_script_tx(n, 10), Provenance::Network).is_ok());
        assert_eq!(service.poll_status(other).map(|e| e.id), Some(tx_id(n)));
    }
    assert_eq!(service.poll_status(slow).map(|e| e.id), Some(tx_id(2)));
    assert_eq!(service.poll_status(slow).map(|e| e.id), Some(tx_id(3)));
    assert_eq!(service.poll_status(slow), None);
}

#[test]
fn refused_gossip_is_dropped_without_a_trace() {
    let mut service = Service::new(1, 4);
    let status = service.subscribe_status().unwrap();
    let updates = service.subscribe_updates().unwrap();
    let held = Transaction { id: tx_id(1), inputs: vec![UtxoRef::new(tx_id(9), 0)], outputs: vec![], gas_price: 5, payload: vec![] };
    let rival = Transaction { id: tx_id(2), inputs: vec![UtxoRef::new(tx_id(9), 0)], outputs: vec![], gas_price: 50, payload: vec![] };
    let cheap = Transaction { id: tx_id(3), inputs: vec![UtxoRef::new(tx_id(9), 1)], outputs: vec![], gas_price: 4, payload: vec![] };
    assert!(service.on_gossip(InboundGossip::NewTransaction(held)).is_ok());
    assert!(service.poll_status(status).is_some());
    assert!(service.poll_update(updates).is_some());
    assert_eq!(
        service.on_gossip(InboundGossip::NewTransaction(rival)),
        Err(PoolError::ConflictingInput(vec![tx_id(1)]))
    );
    assert_eq!(service.on_gossip(InboundGossip::NewTransaction(cheap)), Err(PoolError::PoolFull));
    assert_eq!(service.poll_status(status), None);
    assert_eq!(service.poll_update(updates), None);
    assert!(service.take_outbound().is_empty());
    assert_eq!(service.pending(), 1);
}

#[test]
fn eviction_reaches_both_streams() {
    let mut service = Service::new(1, 8);
    let status = service.subscribe_status().unwrap();
    let updates = service.subscribe_updates().unwrap();
    assert!(service.insert(setup_script_tx(1, 5), Provenance::Network).is_ok());
    assert!(service.insert(setup_script_tx(2, 5), Provenance::Local).is_ok());
    let mut seen = vec![];
    while let Some(event) = service.poll_status(status) {
        seen.push((event.id, event.status));
    }
    assert_eq!(
        seen,
        vec![(tx_id(1), TxStatus::Submitted), (tx_id(1), TxStatus::SqueezedOut), (tx_id(2), TxStatus::Submitted)]
    );
    let mut moves = vec![];
    while let Some(event) = service.poll_update(updates) {
        moves.push((event.id, event.event));
    }
    assert_eq!(
        moves,
        vec![
            (tx_id(1), Membership::Inserted),
            (tx_id(1), Membership::Removed(RemovalReason::SqueezedOut)),
            (tx_id(2), Membership::Inserted),
        ]
    );
    assert_eq!(service.take_outbound().len(), 1);
}

#[test]
fn each_stream_numbers_its_own_subscriptions() {
    let mut service = Service::new(4, 4);
    assert_eq!(service.subscribe_status(), Some(0));
    assert_eq!(service.subscribe_updates(), Some(0));
    assert_eq!(service.subscribe_status(), Some(1));
    assert!(service.insert(setup_script_tx(1, 10), Provenance::Local).is_ok());
    assert!(service.unsubscribe_status(0));
    assert_eq!(service.subscribe_status(), Some(2));
    assert_eq!(service.subscribe_updates(), Some(1));
    assert_eq!(service.poll_status(1).map(|e| e.id), Some(tx_id(1)));
    assert_eq!(service.poll_status(2), None);
    assert_eq!(service.poll_update(0).map(|e| e.id), Some(tx_id(1)));
    assert_eq!(service.poll_update(1), None);
}
