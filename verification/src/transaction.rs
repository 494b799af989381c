//! Transactions as the pool sees them.

use vstd::prelude::*;
use crate::ids::{Address, AssetId, Bytes32, ContractId, TxId, UtxoRef};
use crate::status::{Provenance, TxStatus};

verus! {

/// An output produced by a transaction.
#[derive(Clone, Copy, Debug, PartialEq, Eq)]
pub enum Output {
    /// A coin paid to `to`.
    Coin { to: Address, amount: u64, asset_id: AssetId },
    /// The new state of the contract named by input `input_index`.
    Contract { input_index: u8, balance_root: Bytes32, state_root: Bytes32 },
    /// What is left of the inputs, returned to `to`.
    Change { to: Address, amount: u64, asset_id: AssetId },
    /// A coin whose recipient and amount are set during execution.
    Variable { to: Address, amount: u64, asset_id: AssetId },
    /// A contract deployed by the transaction.
    ContractCreated { contract_id: ContractId, state_root: Bytes32 },
}

/// A candidate transaction: its identifier, what it consumes and produces,
/// the price it offers, and its canonical encoding.
#[derive(Debug, PartialEq, Eq)]
pub struct Transaction {
    /// Content-derived identifier.
    pub id: TxId,
    /// The outputs of earlier transactions that this one consumes, in order.
    pub inputs: Vec<UtxoRef>,
    /// The outputs that this one produces, in order.
    pub outputs: Vec<Output>,
    /// The price offered per unit of gas: the pool's priority metric.
    pub gas_price: u64,
    /// The canonical encoding, carried unchanged.
    pub payload: Vec<u8>,
}

/// The mathematical content of a [`Transaction`].
pub struct TransactionView {
    pub id: TxId,
    pub inputs: Seq<UtxoRef>,
    pub outputs: Seq<Output>,
    pub gas_price: u64,
    pub payload: Seq<u8>,
}

impl View for Transaction {
    type V = TransactionView;

    open spec fn view(&self) -> TransactionView {
        TransactionView {
            id: self.id,
            inputs: self.inputs@,
            outputs: self.outputs@,
            gas_price: self.gas_price,
            payload: self.payload@,
        }
    }
}

impl Clone for Transaction {
    fn clone(&self) -> (r: Transaction)
        ensures
            r@ == self@,
    {
        let r = Transaction {
            id: self.id,
            inputs: self.inputs.clone(),
            outputs: self.outputs.clone(),
            gas_price: self.gas_price,
            payload: self.payload.clone(),
        };
        assert(r.inputs@ =~= self.inputs@);
        assert(r.outputs@ =~= self.outputs@);
        assert(r.payload@ =~= self.payload@);
        r
    }
}

/// A transaction held by the pool, with the pool's own record of it.
#[derive(Debug, PartialEq, Eq)]
pub struct PooledTransaction {
    /// The transaction as it was submitted.
    pub tx: Transaction,
    /// Where it came from; fixed at admission.
    pub provenance: Provenance,
    /// Where it stands in its life.
    pub status: TxStatus,
}

/// The mathematical content of a [`PooledTransaction`].
pub struct PooledView {
    pub tx: TransactionView,
    pub provenance: Provenance,
    pub status: TxStatus,
}

impl View for PooledTransaction {
    type V = PooledView;

    open spec fn view(&self) -> PooledView {
        PooledView { tx: self.tx@, provenance: self.provenance, status: self.status }
    }
}

impl Clone for PooledTransaction {
    fn clone(&self) -> (r: PooledTransaction)
        ensures
            r@ == self@,
    {
        PooledTransaction { tx: self.tx.clone(), provenance: self.provenance, status: self.status }
    }
}

impl PooledTransaction {
    /// The identifier of the transaction.
    pub fn id(&self) -> (r: TxId)
        ensures
            r == self@.tx.id,
    {
        self.tx.id
    }
}

/// The mathematical content of a list of pending entries.
pub open spec fn entry_views(entries: Seq<PooledTransaction>) -> Seq<PooledView> {
    entries.map_values(|e: PooledTransaction| e@)
}

/// The mathematical content of a list of lookup results.
pub open spec fn slot_views(slots: Seq<Option<PooledTransaction>>) -> Seq<Option<PooledView>> {
    slots.map_values(
        |s: Option<PooledTransaction>|
            match s {
                Some(e) => Some(e@),
                None => None,
            },
    )
}


} // verus!
