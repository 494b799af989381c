//! Provenance, lifecycle status and the events published about them.

use vstd::prelude::*;
use crate::ids::TxId;

verus! {

/// Where a transaction entered the node.
#[derive(Clone, Copy, Debug, PartialEq, Eq, Structural)]
pub enum Provenance {
    /// Submitted through this node's own interface.
    Local,
    /// Received from a peer through gossip.
    Network,
}

/// Where a pooled transaction stands in its life.
#[derive(Clone, Copy, Debug, PartialEq, Eq, Structural)]
pub enum TxStatus {
    /// Admitted to the pool and waiting for a block.
    Submitted,
    /// Included in a block and executed successfully.
    Success,
    /// Included in a block and reverted.
    Failure,
    /// Dropped from the pool without being included.
    SqueezedOut,
}

impl TxStatus {
    /// A terminal status is never left again.
    pub open spec fn terminal(self) -> bool {
        self != TxStatus::Submitted
    }

    /// Whether this status is terminal.
    pub fn is_terminal(&self) -> (r: bool)
        ensures
            r == self.terminal(),
    {
        match self {
            TxStatus::Submitted => false,
            _ => true,
        }
    }
}

/// The result of executing a transaction in a block.
#[derive(Clone, Copy, Debug, PartialEq, Eq, Structural)]
pub enum ExecutionOutcome {
    /// The transaction ran to completion.
    Success,
    /// The transaction reverted.
    Failure,
}

impl ExecutionOutcome {
    /// The terminal status that records this outcome.
    pub open spec fn status(self) -> TxStatus {
        match self {
            ExecutionOutcome::Success => TxStatus::Success,
            ExecutionOutcome::Failure => TxStatus::Failure,
        }
    }

    /// The terminal status that records this outcome.
    pub fn to_status(&self) -> (r: TxStatus)
        ensures
            r == self.status(),
    {
        match self {
            ExecutionOutcome::Success => TxStatus::Success,
            ExecutionOutcome::Failure => TxStatus::Failure,
        }
    }
}

/// Why a transaction left the pool.
#[derive(Clone, Copy, Debug, PartialEq, Eq, Structural)]
pub enum RemovalReason {
    /// It was included in a block.
    Confirmed,
    /// It was evicted, or a conflicting transaction was confirmed first.
    SqueezedOut,
    /// A caller asked for it to be dropped.
    Dropped,
}

/// A change in pool membership.
#[derive(Clone, Copy, Debug, PartialEq, Eq, Structural)]
pub enum Membership {
    /// The transaction entered the pool.
    Inserted,
    /// The transaction left the pool.
    Removed(RemovalReason),
}

/// An entry of the status stream.
#[derive(Clone, Copy, Debug, PartialEq, Eq)]
pub struct StatusEvent {
    pub id: TxId,
    pub status: TxStatus,
}

/// An entry of the update stream.
#[derive(Clone, Copy, Debug, PartialEq, Eq)]
pub struct UpdateEvent {
    pub id: TxId,
    pub event: Membership,
}

/// The statuses published for one id, in publication order.
pub open spec fn statuses_of(events: Seq<StatusEvent>, id: TxId) -> Seq<TxStatus>
    decreases events.len(),
{
    if events.len() == 0 {
        Seq::empty()
    } else {
        let rest = statuses_of(events.drop_last(), id);
        if events.last().id == id {
            rest.push(events.last().status)
        } else {
            rest
        }
    }
}

/// The first status is `Submitted`, and every terminal status comes directly
/// after a `Submitted`.
pub open spec fn follows_lifecycle(seen: Seq<TxStatus>) -> bool {
    &&& seen.len() > 0 ==> seen[0] == TxStatus::Submitted
    &&& forall|j: int, k: int|
        0 <= j && k == j + 1 && k < seen.len() && (#[trigger] seen[k]).terminal() ==> #[trigger] seen[j]
            == TxStatus::Submitted
}

/// `Submitted` occurs at most once.
pub open spec fn submitted_at_most_once(seen: Seq<TxStatus>) -> bool {
    forall|i: int, j: int|
        0 <= i < seen.len() && 0 <= j < seen.len() && #[trigger] seen[i] == TxStatus::Submitted && #[trigger] seen[j]
            == TxStatus::Submitted ==> i == j
}

/// The statuses of a list of events are those of its parts, one after the
/// other.
pub proof fn lemma_statuses_of_concat(a: Seq<StatusEvent>, b: Seq<StatusEvent>, id: TxId)
    ensures
        statuses_of(a + b, id) == statuses_of(a, id) + statuses_of(b, id),
    decreases b.len(),
{
    if b.len() == 0 {
        assert(a + b =~= a);
        assert(statuses_of(a, id) + statuses_of(b, id) =~= statuses_of(a, id));
    } else {
        lemma_statuses_of_concat(a, b.drop_last(), id);
        assert((a + b).drop_last() =~= a + b.drop_last());
        assert((a + b).last() == b.last());
        assert(statuses_of(a + b, id) =~= statuses_of(a, id) + statuses_of(b, id));
    }
}

/// The statuses of a single event.
pub proof fn lemma_statuses_of_one(event: StatusEvent, id: TxId)
    ensures
        statuses_of(seq![event], id) == (if event.id == id {
            seq![event.status]
        } else {
            Seq::empty()
        }),
{
    let one = seq![event];
    assert(one.drop_last() =~= Seq::<StatusEvent>::empty());
    assert(statuses_of(one.drop_last(), id) =~= Seq::<TxStatus>::empty());
    assert(one.last() == event);
    assert(statuses_of(one, id) =~= (if event.id == id {
        seq![event.status]
    } else {
        Seq::empty()
    }));
}

} // verus!
