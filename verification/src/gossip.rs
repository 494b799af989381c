//! The gossip layer: which admitted transactions are sent on to peers.

use vstd::prelude::*;
use crate::status::Provenance;
use crate::transaction::{Transaction, TransactionView};

verus! {

/// What arrives from the peer-broadcast subsystem.
#[derive(Debug, PartialEq, Eq)]
pub enum InboundGossip {
    /// A peer announces a transaction.
    NewTransaction(Transaction),
}

impl View for InboundGossip {
    type V = TransactionView;

    /// The transaction that the event carries.
    open spec fn view(&self) -> TransactionView {
        match self {
            InboundGossip::NewTransaction(tx) => tx@,
        }
    }
}

/// What the gossip layer sends out for an admitted transaction: the
/// transaction itself if it was submitted locally, nothing if it came from
/// the network.
pub open spec fn outbound(provenance: Provenance, tx: TransactionView) -> Seq<TransactionView> {
    if provenance == Provenance::Local {
        seq![tx]
    } else {
        Seq::empty()
    }
}

/// What is asked of the peer-to-peer layer.
#[derive(Debug, PartialEq, Eq)]
pub enum OutboundGossip {
    /// Broadcast a transaction to peers.
    BroadcastNewTransaction(Transaction),
}

impl View for OutboundGossip {
    type V = TransactionView;

    /// The transaction that the request carries.
    open spec fn view(&self) -> TransactionView {
        match self {
            OutboundGossip::BroadcastNewTransaction(tx) => tx@,
        }
    }
}

/// The transactions that a list of requests carries.
pub open spec fn outbound_views(requests: Seq<OutboundGossip>) -> Seq<TransactionView> {
    requests.map_values(|r: OutboundGossip| r@)
}

/// What to send out for an admitted transaction.
pub fn forward(provenance: Provenance, tx: &Transaction) -> (r: Vec<OutboundGossip>)
    ensures
        outbound_views(r@) == outbound(provenance, tx@),
{
    let mut out: Vec<OutboundGossip> = Vec::new();
    if provenance == Provenance::Local {
        out.push(OutboundGossip::BroadcastNewTransaction(tx.clone()));
    }
    assert(outbound_views(out@) =~= outbound(provenance, tx@));
    out
}

} // verus!
