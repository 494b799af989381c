use txpool::gossip::OutboundGossip;
use txpool::ids::{Bytes32, TxId, UtxoRef};
use txpool::pool::{Pool, PoolError};
use txpool::status::{ExecutionOutcome, Membership, Provenance, RemovalReason, StatusEvent, TxStatus, UpdateEvent};
use txpool::transaction::Transaction;

fn id(n: u8) -> TxId {
    Bytes32::new([n; 32])
}

fn utxo(n: u8, index: u64) -> UtxoRef {
    UtxoRef::new(id(n), index)
}

fn tx(n: u8, inputs: Vec<UtxoRef>, gas_price: u64) -> Transaction {
    Transaction { id: id(n), inputs, outputs: vec![], gas_price, payload: vec![n] }
}

#[test]
fn local_insert_is_published_and_broadcast() {
    let mut pool = Pool::new(8);
    let t = tx(1, vec![utxo(100, 0)], 10);
    let (result, effects) = pool.insert(t.clone(), Provenance::Local);
    let outcome = result.expect("a fresh transaction is admitted");
    assert_eq!(outcome.inserted.tx, t);
    assert_eq!(outcome.inserted.provenance, Provenance::Local);
    assert_eq!(outcome.inserted.status, TxStatus::Submitted);
    assert_eq!(effects.statuses, vec![StatusEvent { id: id(1), status: TxStatus::Submitted }]);
    assert_eq!(effects.updates, vec![UpdateEvent { id: id(1), event: Membership::Inserted }]);
    assert_eq!(effects.broadcasts, vec![OutboundGossip::BroadcastNewTransaction(t)]);
    assert_eq!(pool.len(), 1);
}

#[test]
fn network_insert_is_published_but_not_broadcast() {
    let mut pool = Pool::new(8);
    let t = tx(1, vec![utxo(100, 0)], 10);
    let (result, effects) = pool.insert(t.clone(), Provenance::Network);
    assert!(result.is_ok());
    assert_eq!(effects.statuses, vec![StatusEvent { id: id(1), status: TxStatus::Submitted }]);
    assert_eq!(effects.updates, vec![UpdateEvent { id: id(1), event: Membership::Inserted }]);
    assert!(effects.broadcasts.is_empty());
    assert_eq!(pool.find(&vec![id(1)])[0].as_ref().map(|e| e.tx.clone()), Some(t));
}

#[test]
fn conflicting_insert_names_the_holder() {
    let mut pool = Pool::new(8);
    let a = tx(1, vec![utxo(100, 0), utxo(100, 1)], 10);
    let b = tx(2, vec![utxo(101, 0), utxo(100, 1)], 50);
    assert!(pool.insert(a.clone(), Provenance::Local).0.is_ok());
    let (result, effects) = pool.insert(b, Provenance::Local);
    assert_eq!(result, Err(PoolError::ConflictingInput(vec![id(1)])));
    assert!(effects.statuses.is_empty() && effects.updates.is_empty() && effects.broadcasts.is_empty());
    assert_eq!(pool.len(), 1);
    assert!(pool.contains(&id(1)));
    assert!(!pool.contains(&id(2)));
    assert_eq!(pool.holder(&utxo(100, 1)), Some(id(1)));
    assert_eq!(pool.holder(&utxo(101, 0)), None);
}

#[test]
fn conflicts_come_in_admission_order() {
    let mut pool = Pool::new(8);
    assert!(pool.insert(tx(3, vec![utxo(100, 0)], 10), Provenance::Network).0.is_ok());
    assert!(pool.insert(tx(1, vec![utxo(100, 1)], 10), Provenance::Network).0.is_ok());
    assert!(pool.insert(tx(2, vec![utxo(100, 2)], 10), Provenance::Network).0.is_ok());
    let candidate = tx(9, vec![utxo(100, 2), utxo(100, 0), utxo(100, 2)], 10);
    assert_eq!(pool.conflicts(&candidate), vec![id(3), id(2)]);
    assert_eq!(pool.conflicts(&tx(8, vec![utxo(100, 3)], 10)), Vec::<TxId>::new());
}

#[test]
fn duplicate_insert_is_a_no_op_success() {
    let mut pool = Pool::new(8);
    let a = tx(1, vec![utxo(100, 0)], 10);
    let (first, _) = pool.insert(a.clone(), Provenance::Network);
    let (second, effects) = pool.insert(a, Provenance::Network);
    assert!(first.is_ok());
    assert_eq!(first, second);
    assert!(effects.statuses.is_empty() && effects.updates.is_empty() && effects.broadcasts.is_empty());
    assert_eq!(pool.len(), 1);
}

#[test]
fn duplicate_insert_keeps_the_first_provenance() {
    let mut pool = Pool::new(8);
    let a = tx(1, vec![utxo(100, 0)], 10);
    assert!(pool.insert(a.clone(), Provenance::Network).0.is_ok());
    let (second, effects) = pool.insert(a, Provenance::Local);
    assert_eq!(second.unwrap().inserted.provenance, Provenance::Network);
    assert!(effects.broadcasts.is_empty());
}

#[test]
fn full_pool_refuses_a_lower_price() {
    let mut pool = Pool::new(2);
    assert!(pool.insert(tx(1, vec![utxo(100, 0)], 20), Provenance::Local).0.is_ok());
    assert!(pool.insert(tx(2, vec![utxo(100, 1)], 30), Provenance::Local).0.is_ok());
    let (result, effects) = pool.insert(tx(3, vec![utxo(100, 2)], 19), Provenance::Local);
    assert_eq!(result, Err(PoolError::PoolFull));
    assert!(effects.statuses.is_empty() && effects.updates.is_empty() && effects.broadcasts.is_empty());
    assert_eq!(pool.len(), 2);
    let found = pool.find(&vec![id(1), id(2), id(3)]);
    assert!(found[0].is_some() && found[1].is_some() && found[2].is_none());
}

#[test]
fn full_pool_evicts_the_lowest_price() {
    let mut pool = Pool::new(3);
    assert!(pool.insert(tx(1, vec![utxo(100, 0)], 20), Provenance::Local).0.is_ok());
    assert!(pool.insert(tx(2, vec![utxo(100, 1)], 5), Provenance::Local).0.is_ok());
    assert!(pool.insert(tx(3, vec![utxo(100, 2)], 30), Provenance::Local).0.is_ok());
    let (result, effects) = pool.insert(tx(4, vec![utxo(100, 3)], 6), Provenance::Network);
    assert!(result.is_ok());
    assert_eq!(
        effects.statuses,
        vec![
            StatusEvent { id: id(2), status: TxStatus::SqueezedOut },
            StatusEvent { id: id(4), status: TxStatus::Submitted },
        ]
    );
    assert_eq!(
        effects.updates,
        vec![
            UpdateEvent { id: id(2), event: Membership::Removed(RemovalReason::SqueezedOut) },
            UpdateEvent { id: id(4), event: Membership::Inserted },
        ]
    );
    assert_eq!(pool.len(), 3);
    assert!(!pool.contains(&id(2)));
    assert_eq!(pool.holder(&utxo(100, 1)), None);
    assert_eq!(pool.holder(&utxo(100, 3)), Some(id(4)));
}

#[test]
fn eviction_breaks_ties_by_age() {
    let mut pool = Pool::new(3);
    assert!(pool.insert(tx(1, vec![utxo(100, 0)], 7), Provenance::Local).0.is_ok());
    assert!(pool.insert(tx(2, vec![utxo(100, 1)], 5), Provenance::Local).0.is_ok());
    assert!(pool.insert(tx(3, vec![utxo(100, 2)], 5), Provenance::Local).0.is_ok());
    let (result, effects) = pool.insert(tx(4, vec![utxo(100, 3)], 5), Provenance::Local);
    assert!(result.is_ok());
    assert_eq!(effects.updates[0], UpdateEvent { id: id(2), event: Membership::Removed(RemovalReason::SqueezedOut) });
    assert!(pool.contains(&id(3)) && pool.contains(&id(4)) && !pool.contains(&id(2)));
}

#[test]
fn pool_without_capacity_is_always_full() {
    let mut pool = Pool::new(0);
    let (result, _) = pool.insert(tx(1, vec![], u64::MAX), Provenance::Local);
    assert_eq!(result, Err(PoolError::PoolFull));
    assert_eq!(pool.len(), 0);
    assert_eq!(pool.capacity(), 0);
}

#[test]
fn find_keeps_request_order() {
    let mut pool = Pool::new(8);
    assert!(pool.insert(tx(1, vec![utxo(100, 0)], 10), Provenance::Local).0.is_ok());
    assert!(pool.insert(tx(2, vec![utxo(100, 1)], 10), Provenance::Network).0.is_ok());
    let found = pool.find(&vec![id(2), id(7), id(1), id(2)]);
    let ids: Vec<Option<TxId>> = found.iter().map(|slot| slot.as_ref().map(|e| e.id())).collect();
    assert_eq!(ids, vec![Some(id(2)), None, Some(id(1)), Some(id(2))]);
    assert_eq!(pool.find(&vec![]).len(), 0);
    assert_eq!(pool.get(&id(2)).map(|e| e.provenance), Some(Provenance::Network));
    assert_eq!(pool.get(&id(9)), None);
}

#[test]
fn remove_counts_and_publishes_each_removal() {
    let mut pool = Pool::new(8);
    assert!(pool.insert(tx(1, vec![utxo(100, 0)], 10), Provenance::Local).0.is_ok());
    assert!(pool.insert(tx(2, vec![utxo(100, 1)], 10), Provenance::Local).0.is_ok());
    assert!(pool.insert(tx(3, vec![utxo(100, 2)], 10), Provenance::Local).0.is_ok());
    let (count, effects) = pool.remove(&vec![id(3), id(9), id(1), id(3)], RemovalReason::Dropped);
    assert_eq!(count, 2);
    assert_eq!(
        effects.updates,
        vec![
            UpdateEvent { id: id(3), event: Membership::Removed(RemovalReason::Dropped) },
            UpdateEvent { id: id(1), event: Membership::Removed(RemovalReason::Dropped) },
        ]
    );
    assert!(effects.statuses.is_empty());
    assert_eq!(pool.len(), 1);
    assert_eq!(pool.holder(&utxo(100, 0)), None);
    assert_eq!(pool.holder(&utxo(100, 1)), Some(id(2)));
    // the outputs are free again
    assert!(pool.insert(tx(4, vec![utxo(100, 0), utxo(100, 2)], 10), Provenance::Local).0.is_ok());
}

#[test]
fn confirmation_moves_submitted_to_terminal_once() {
    let mut pool = Pool::new(8);
    assert!(pool.insert(tx(1, vec![utxo(100, 0)], 10), Provenance::Local).0.is_ok());
    let (moved, effects) = pool.mark_confirmed(&id(1), ExecutionOutcome::Failure);
    assert!(moved);
    assert_eq!(effects.statuses, vec![StatusEvent { id: id(1), status: TxStatus::Failure }]);
    assert_eq!(pool.get(&id(1)).unwrap().status, TxStatus::Failure);
    let (again, effects) = pool.mark_confirmed(&id(1), ExecutionOutcome::Success);
    assert!(!again);
    assert!(effects.statuses.is_empty());
    assert_eq!(pool.get(&id(1)).unwrap().status, TxStatus::Failure);
    let (unknown, _) = pool.mark_confirmed(&id(2), ExecutionOutcome::Success);
    assert!(!unknown);
    assert_eq!(pool.remove(&vec![id(1)], RemovalReason::Confirmed).0, 1);
}

#[test]
fn squeezing_out_skips_terminal_and_unknown_ids() {
    let mut pool = Pool::new(8);
    assert!(pool.insert(tx(1, vec![utxo(100, 0)], 10), Provenance::Local).0.is_ok());
    assert!(pool.insert(tx(2, vec![utxo(100, 1)], 10), Provenance::Local).0.is_ok());
    assert!(pool.mark_confirmed(&id(2), ExecutionOutcome::Success).0);
    let (count, effects) = pool.mark_conflicts_resolved(&vec![id(2), id(1), id(5), id(1)]);
    assert_eq!(count, 1);
    assert_eq!(effects.statuses, vec![StatusEvent { id: id(1), status: TxStatus::SqueezedOut }]);
    assert_eq!(pool.get(&id(1)).unwrap().status, TxStatus::SqueezedOut);
    assert_eq!(pool.get(&id(2)).unwrap().status, TxStatus::Success);
    assert_eq!(pool.len(), 2);
}

#[test]
fn evicting_a_settled_entry_publishes_no_status() {
    let mut pool = Pool::new(1);
    assert!(pool.insert(tx(1, vec![utxo(100, 0)], 10), Provenance::Local).0.is_ok());
    assert!(pool.mark_confirmed(&id(1), ExecutionOutcome::Success).0);
    let (result, effects) = pool.insert(tx(2, vec![utxo(100, 1)], 10), Provenance::Local);
    assert!(result.is_ok());
    assert_eq!(effects.statuses, vec![StatusEvent { id: id(2), status: TxStatus::Submitted }]);
    assert_eq!(effects.updates.len(), 2);
}

#[test]
fn status_is_terminal_but_for_submitted() {
    assert!(!TxStatus::Submitted.is_terminal());
    assert!(TxStatus::Success.is_terminal());
    assert!(TxStatus::Failure.is_terminal());
    assert!(TxStatus::SqueezedOut.is_terminal());
    assert_eq!(ExecutionOutcome::Success.to_status(), TxStatus::Success);
    assert_eq!(ExecutionOutcome::Failure.to_status(), TxStatus::Failure);
}

#[test]
fn pending_transactions_never_share_an_input() {
    let mut pool = Pool::new(3);
    let offers = vec![
        tx(1, vec![utxo(100, 0), utxo(100, 1)], 4),
        tx(2, vec![utxo(100, 1)], 9),
        tx(3, vec![utxo(100, 2)], 2),
        tx(4, vec![utxo(100, 0)], 7),
        tx(5, vec![utxo(100, 3), utxo(100, 4)], 5),
        tx(6, vec![utxo(100, 5)], 8),
        tx(7, vec![utxo(100, 2), utxo(100, 6)], 1),
    ];
    let ids: Vec<TxId> = (1..=7).map(id).collect();
    for offer in offers {
        let _ = pool.insert(offer, Provenance::Network);
        let pending: Vec<Transaction> = pool.find(&ids).into_iter().flatten().map(|e| e.tx).collect();
        assert!(pending.len() <= 3);
        for (i, a) in pending.iter().enumerate() {
            for b in pending.iter().skip(i + 1) {
                assert_ne!(a.id, b.id);
                assert!(a.inputs.iter().all(|input| !b.inputs.contains(input)));
            }
            for input in &a.inputs {
                assert_eq!(pool.holder(input), Some(a.id));
            }
        }
    }
    assert!(pool.contains(&id(1)) && pool.contains(&id(5)) && pool.contains(&id(6)));
    assert_eq!(pool.holder(&utxo(100, 2)), None);
}

#[test]
fn outputs_in_one_bucket_are_told_apart() {
    // Two transaction ids that agree in their first eight bytes.
    let mut left = [7u8; 32];
    let mut right = [7u8; 32];
    left[31] = 1;
    right[31] = 2;
    let a = UtxoRef::new(Bytes32::new(left), 3);
    let b = UtxoRef::new(Bytes32::new(right), 3);
    let mut pool = Pool::new(4);
    assert!(pool.insert(tx(1, vec![a], 1), Provenance::Local).0.is_ok());
    assert_eq!(pool.holder(&a), Some(id(1)));
    assert_eq!(pool.holder(&b), None);
    assert!(pool.insert(tx(2, vec![b], 1), Provenance::Local).0.is_ok());
    assert_eq!(pool.holder(&b), Some(id(2)));
    assert_eq!(pool.remove(&vec![id(1)], RemovalReason::Dropped).0, 1);
    assert_eq!(pool.holder(&a), None);
    assert_eq!(pool.holder(&b), Some(id(2)));
    assert_eq!(pool.insert(tx(3, vec![a, b], 1), Provenance::Local).0, Err(PoolError::ConflictingInput(vec![id(2)])));
}
