//! The mathematical model of the pool: its state, and what each operation
//! makes of a state.
//!
//! The executable pool is specified against these functions, and the laws
//! of the pool are proved about them.

use vstd::prelude::*;
use crate::gossip::outbound;
use crate::ids::{TxId, UtxoRef};
use crate::resolver::{conflict_ids, lemma_conflict_free, lemma_overlap_symmetric, overlap};
use crate::status::{ExecutionOutcome, Membership, Provenance, RemovalReason, StatusEvent, TxStatus, UpdateEvent};
use crate::transaction::{PooledView, TransactionView};

verus! {

/// The position of the entry to evict first: the lowest gas price, and among
/// equals the one admitted earliest. Entries stand in admission order.
pub open spec fn victim(entries: Seq<PooledView>) -> int
    decreases entries.len(),
{
    if entries.len() <= 1 {
        0
    } else {
        let v = victim(entries.drop_last());
        if entries.last().tx.gas_price < entries[v].tx.gas_price {
            entries.len() - 1
        } else {
            v
        }
    }
}

/// What an operation publishes.
pub struct EffectsView {
    /// Entries for the status stream, in publication order.
    pub statuses: Seq<StatusEvent>,
    /// Entries for the update stream, in publication order.
    pub updates: Seq<UpdateEvent>,
    /// Transactions to broadcast to peers, in order.
    pub broadcasts: Seq<TransactionView>,
}

impl EffectsView {
    /// Nothing is published.
    pub open spec fn none() -> EffectsView {
        EffectsView { statuses: Seq::empty(), updates: Seq::empty(), broadcasts: Seq::empty() }
    }

    /// First what `self` publishes, then what `later` publishes.
    pub open spec fn followed_by(self, later: EffectsView) -> EffectsView {
        EffectsView {
            statuses: self.statuses + later.statuses,
            updates: self.updates + later.updates,
            broadcasts: self.broadcasts + later.broadcasts,
        }
    }
}

/// Why an insertion was refused.
pub enum PoolErrorView {
    /// The candidate consumes an output that these pending transactions consume.
    ConflictingInput(Seq<TxId>),
    /// The pool is full and no pending transaction has a lower priority.
    PoolFull,
}

/// What an operation makes of a state.
pub struct Step<R> {
    /// The state after the operation.
    pub next: PoolState,
    /// What the caller is told.
    pub result: R,
    /// What is published.
    pub effects: EffectsView,
}

/// The state of the pool: the pending transactions in admission order, and
/// the number of them that the pool may hold.
pub struct PoolState {
    pub entries: Seq<PooledView>,
    pub capacity: nat,
}

impl PoolState {
    /// The empty pool of the given capacity.
    pub open spec fn empty(capacity: nat) -> PoolState {
        PoolState { entries: Seq::empty(), capacity }
    }

    /// Whether a transaction with this id is pending.
    pub open spec fn contains(self, id: TxId) -> bool {
        exists|i: int| 0 <= i < self.entries.len() && (#[trigger] self.entries[i]).tx.id == id
    }

    /// The position of a pending transaction with this id.
    pub open spec fn position(self, id: TxId) -> int {
        choose|i: int| 0 <= i < self.entries.len() && (#[trigger] self.entries[i]).tx.id == id
    }

    /// The pending transaction with this id, if there is one.
    pub open spec fn lookup(self, id: TxId) -> Option<PooledView> {
        if self.contains(id) {
            Some(self.entries[self.position(id)])
        } else {
            None
        }
    }

    /// The pending set as a mapping from id to entry.
    pub open spec fn pending(self) -> Map<TxId, PooledView> {
        Map::new(|id: TxId| self.contains(id), |id: TxId| self.entries[self.position(id)])
    }

    /// The conflict index: which pending transaction consumes which output.
    pub open spec fn holder(self, utxo: UtxoRef) -> Option<TxId> {
        if exists|i: int| 0 <= i < self.entries.len() && (#[trigger] self.entries[i]).tx.inputs.contains(utxo) {
            Some(
                self.entries[choose|i: int| 0 <= i < self.entries.len() && (#[trigger] self.entries[i]).tx.inputs.contains(utxo)].tx.id,
            )
        } else {
            None
        }
    }

    /// No two entries share an id.
    pub open spec fn distinct_ids(self) -> bool {
        forall|i: int, j: int|
            0 <= i < j < self.entries.len() ==> (#[trigger] self.entries[i]).tx.id != (#[trigger] self.entries[j]).tx.id
    }

    /// No two entries consume the same output.
    pub open spec fn no_double_spend(self) -> bool {
        forall|i: int, j: int|
            0 <= i < self.entries.len() && 0 <= j < self.entries.len() && i != j ==> !overlap(
                (#[trigger] self.entries[i]).tx.inputs,
                (#[trigger] self.entries[j]).tx.inputs,
            )
    }

    /// The invariant of the pool.
    pub open spec fn wf(self) -> bool {
        &&& self.distinct_ids()
        &&& self.no_double_spend()
        &&& self.entries.len() <= self.capacity
    }

    /// The ids of the pending transactions that conflict with a candidate.
    pub open spec fn conflicts(self, tx: TransactionView) -> Seq<TxId> {
        conflict_ids(self.entries, tx.inputs)
    }

    /// Whether a candidate is admitted: its id is new, it collides with
    /// nothing, and there is room for it or a pending transaction whose gas
    /// price is not above its own.
    pub open spec fn admits(self, tx: TransactionView) -> bool {
        &&& !self.contains(tx.id)
        &&& self.conflicts(tx).len() == 0
        &&& (self.entries.len() < self.capacity || (self.entries.len() > 0 && tx.gas_price
            >= self.entries[victim(self.entries)].tx.gas_price))
    }

    /// Whether admitting a candidate evicts a pending transaction.
    pub open spec fn evicts(self, tx: TransactionView) -> bool {
        self.admits(tx) && self.entries.len() >= self.capacity
    }

    /// What admitting `tx` publishes.
    pub open spec fn admission_effects(tx: TransactionView, provenance: Provenance) -> EffectsView {
        EffectsView {
            statuses: seq![StatusEvent { id: tx.id, status: TxStatus::Submitted }],
            updates: seq![UpdateEvent { id: tx.id, event: Membership::Inserted }],
            broadcasts: outbound(provenance, tx),
        }
    }

    /// What evicting `out` publishes.
    pub open spec fn eviction_effects(out: PooledView) -> EffectsView {
        EffectsView {
            statuses: if out.status == TxStatus::Submitted {
                seq![StatusEvent { id: out.tx.id, status: TxStatus::SqueezedOut }]
            } else {
                Seq::empty()
            },
            updates: seq![
                UpdateEvent { id: out.tx.id, event: Membership::Removed(RemovalReason::SqueezedOut) },
            ],
            broadcasts: Seq::empty(),
        }
    }

    /// Insertion of a candidate.
    ///
    /// A candidate whose id is pending is answered with the pending entry and
    /// changes nothing. One that conflicts is refused with the ids it collides
    /// with. If there is room it is admitted. If the pool is full, it is refused
    /// when its gas price is below that of every pending transaction; otherwise
    /// the victim is evicted and the candidate admitted in its place.
    pub open spec fn insert(self, tx: TransactionView, provenance: Provenance) -> Step<Result<PooledView, PoolErrorView>> {
        let fresh = PooledView { tx, provenance, status: TxStatus::Submitted };
        if self.contains(tx.id) {
            Step { next: self, result: Ok(self.entries[self.position(tx.id)]), effects: EffectsView::none() }
        } else if self.conflicts(tx).len() > 0 {
            Step {
                next: self,
                result: Err(PoolErrorView::ConflictingInput(self.conflicts(tx))),
                effects: EffectsView::none(),
            }
        } else if self.entries.len() < self.capacity {
            Step {
                next: PoolState { entries: self.entries.push(fresh), ..self },
                result: Ok(fresh),
                effects: Self::admission_effects(tx, provenance),
            }
        } else if self.entries.len() == 0 || tx.gas_price < self.entries[victim(self.entries)].tx.gas_price {
            Step { next: self, result: Err(PoolErrorView::PoolFull), effects: EffectsView::none() }
        } else {
            let v = victim(self.entries);
            Step {
                next: PoolState { entries: self.entries.remove(v).push(fresh), ..self },
                result: Ok(fresh),
                effects: Self::eviction_effects(self.entries[v]).followed_by(Self::admission_effects(tx, provenance)),
            }
        }
    }

    /// One slot per requested id, in request order.
    pub open spec fn find(self, ids: Seq<TxId>) -> Seq<Option<PooledView>> {
        Seq::new(ids.len(), |i: int| self.lookup(ids[i]))
    }

    /// Removal of one id: the entry leaves and one update is published, or
    /// nothing happens if the id is not pending. The result counts the removals.
    pub open spec fn remove_one(self, id: TxId, reason: RemovalReason) -> Step<nat> {
        if self.contains(id) {
            Step {
                next: PoolState { entries: self.entries.remove(self.position(id)), ..self },
                result: 1,
                effects: EffectsView {
                    updates: seq![UpdateEvent { id, event: Membership::Removed(reason) }],
                    ..EffectsView::none()
                },
            }
        } else {
            Step { next: self, result: 0, effects: EffectsView::none() }
        }
    }

    /// Removal of the ids one after another, in request order.
    pub open spec fn remove(self, ids: Seq<TxId>, reason: RemovalReason) -> Step<nat>
        decreases ids.len(),
    {
        if ids.len() == 0 {
            Step { next: self, result: 0, effects: EffectsView::none() }
        } else {
            let before = self.remove(ids.drop_last(), reason);
            let last = before.next.remove_one(ids.last(), reason);
            Step {
                next: last.next,
                result: before.result + last.result,
                effects: before.effects.followed_by(last.effects),
            }
        }
    }

    /// A status transition of one pending transaction out of `Submitted`: the
    /// entry takes the new status and the transition is published. Nothing
    /// happens if the id is not pending or its status is already terminal.
    /// The result says whether the transition took place.
    pub open spec fn settle(self, id: TxId, status: TxStatus) -> Step<bool> {
        if self.contains(id) && self.entries[self.position(id)].status == TxStatus::Submitted {
            let at = self.position(id);
            Step {
                next: PoolState {
                    entries: self.entries.update(at, PooledView { status, ..self.entries[at] }),
                    ..self
                },
                result: true,
                effects: EffectsView { statuses: seq![StatusEvent { id, status }], ..EffectsView::none() },
            }
        } else {
            Step { next: self, result: false, effects: EffectsView::none() }
        }
    }

    /// A block has executed the transaction.
    pub open spec fn mark_confirmed(self, id: TxId, outcome: ExecutionOutcome) -> Step<bool> {
        self.settle(id, outcome.status())
    }

    /// Conflicting transactions were confirmed first: each of the ids that is
    /// still `Submitted` becomes `SqueezedOut`, in request order. The result
    /// counts the transitions.
    pub open spec fn mark_conflicts_resolved(self, ids: Seq<TxId>) -> Step<nat>
        decreases ids.len(),
    {
        if ids.len() == 0 {
            Step { next: self, result: 0, effects: EffectsView::none() }
        } else {
            let before = self.mark_conflicts_resolved(ids.drop_last());
            let last = before.next.settle(ids.last(), TxStatus::SqueezedOut);
            Step {
                next: last.next,
                result: before.result + if last.result { 1nat } else { 0nat },
                effects: before.effects.followed_by(last.effects),
            }
        }
    }
}

/// A request to the pool.
pub enum Operation {
    /// Offer a transaction.
    Insert { tx: TransactionView, provenance: Provenance },
    /// Look transactions up.
    Find { ids: Seq<TxId> },
    /// Remove transactions.
    Remove { ids: Seq<TxId>, reason: RemovalReason },
    /// Record the execution of a transaction.
    MarkConfirmed { id: TxId, outcome: ExecutionOutcome },
    /// Squeeze out transactions whose rivals were confirmed.
    MarkConflictsResolved { ids: Seq<TxId> },
}

/// The answer to a request.
pub enum Reply {
    Inserted(Result<PooledView, PoolErrorView>),
    Found(Seq<Option<PooledView>>),
    Removed(nat),
    Confirmed(bool),
    Resolved(nat),
}

impl PoolState {
    /// What one request makes of the pool.
    pub open spec fn apply(self, op: Operation) -> Step<Reply> {
        match op {
            Operation::Insert { tx, provenance } => {
                let step = self.insert(tx, provenance);
                Step { next: step.next, result: Reply::Inserted(step.result), effects: step.effects }
            },
            Operation::Find { ids } => Step {
                next: self,
                result: Reply::Found(self.find(ids)),
                effects: EffectsView::none(),
            },
            Operation::Remove { ids, reason } => {
                let step = self.remove(ids, reason);
                Step { next: step.next, result: Reply::Removed(step.result), effects: step.effects }
            },
            Operation::MarkConfirmed { id, outcome } => {
                let step = self.mark_confirmed(id, outcome);
                Step { next: step.next, result: Reply::Confirmed(step.result), effects: step.effects }
            },
            Operation::MarkConflictsResolved { ids } => {
                let step = self.mark_conflicts_resolved(ids);
                Step { next: step.next, result: Reply::Resolved(step.result), effects: step.effects }
            },
        }
    }

    /// What a series of requests, served one at a time, makes of the pool.
    pub open spec fn run(self, ops: Seq<Operation>) -> Step<Seq<Reply>>
        decreases ops.len(),
    {
        if ops.len() == 0 {
            Step { next: self, result: Seq::empty(), effects: EffectsView::none() }
        } else {
            let before = self.run(ops.drop_last());
            let last = before.next.apply(ops.last());
            Step {
                next: last.next,
                result: before.result.push(last.result),
                effects: before.effects.followed_by(last.effects),
            }
        }
    }
}

/// Among distinct ids, the entry at `i` is the one found for its id.
pub proof fn lemma_position(state: PoolState, i: int)
    requires
        state.distinct_ids(),
        0 <= i < state.entries.len(),
    ensures
        state.contains(state.entries[i].tx.id),
        state.position(state.entries[i].tx.id) == i,
        state.lookup(state.entries[i].tx.id) == Some(state.entries[i]),
{
    let id = state.entries[i].tx.id;
    let k = state.position(id);
    assert(state.entries[k].tx.id == id);
    if k < i {
        assert(state.entries[k].tx.id != state.entries[i].tx.id);
    } else if i < k {
        assert(state.entries[i].tx.id != state.entries[k].tx.id);
    }
}

/// The victim has the lowest gas price, and is the earliest entry with it.
pub proof fn lemma_victim(entries: Seq<PooledView>)
    requires
        entries.len() > 0,
    ensures
        0 <= victim(entries) < entries.len(),
        forall|j: int| 0 <= j < entries.len() ==> entries[victim(entries)].tx.gas_price <= (#[trigger] entries[j]).tx.gas_price,
        forall|j: int| 0 <= j < victim(entries) ==> entries[victim(entries)].tx.gas_price < (#[trigger] entries[j]).tx.gas_price,
    decreases entries.len(),
{
    if entries.len() > 1 {
        let front = entries.drop_last();
        lemma_victim(front);
        let v = victim(front);
        assert(front[v] == entries[v]);
        assert forall|j: int| 0 <= j < entries.len() implies entries[victim(entries)].tx.gas_price <= (#[trigger] entries[j]).tx.gas_price by {
            if j < front.len() {
                assert(front[j] == entries[j]);
            }
        }
        assert forall|j: int| 0 <= j < victim(entries) implies entries[victim(entries)].tx.gas_price < (#[trigger] entries[j]).tx.gas_price by {
            assert(front[j] == entries[j]);
        }
    }
}

/// Taking an entry out keeps the invariant.
pub proof fn lemma_remove_at_wf(state: PoolState, at: int)
    requires
        state.wf(),
        0 <= at < state.entries.len(),
    ensures
        (PoolState { entries: state.entries.remove(at), ..state }).wf(),
{
    let before = state.entries;
    let after = before.remove(at);
    assert forall|i: int, j: int| 0 <= i < j < after.len() implies (#[trigger] after[i]).tx.id != (#[trigger] after[j]).tx.id by {
        let i0 = if i < at { i } else { i + 1 };
        let j0 = if j < at { j } else { j + 1 };
        assert(before[i0].tx.id != before[j0].tx.id);
    }
    assert forall|i: int, j: int| 0 <= i < after.len() && 0 <= j < after.len() && i != j implies !overlap(
        (#[trigger] after[i]).tx.inputs,
        (#[trigger] after[j]).tx.inputs,
    ) by {
        let i0 = if i < at { i } else { i + 1 };
        let j0 = if j < at { j } else { j + 1 };
        assert(!overlap(before[i0].tx.inputs, before[j0].tx.inputs));
    }
}

/// Adding an entry whose id is new and whose inputs collide with nothing
/// keeps the invariant, if there is room.
pub proof fn lemma_push_wf(state: PoolState, fresh: PooledView)
    requires
        state.wf(),
        !state.contains(fresh.tx.id),
        conflict_ids(state.entries, fresh.tx.inputs).len() == 0,
        state.entries.len() < state.capacity,
    ensures
        (PoolState { entries: state.entries.push(fresh), ..state }).wf(),
{
    let before = state.entries;
    let after = before.push(fresh);
    let n = before.len() as int;
    lemma_conflict_free(before, fresh.tx.inputs);
    assert forall|i: int, j: int| 0 <= i < j < after.len() implies (#[trigger] after[i]).tx.id != (#[trigger] after[j]).tx.id by {
        if j < n {
            assert(before[i].tx.id != before[j].tx.id);
        } else {
            assert(before[i].tx.id != fresh.tx.id);
        }
    }
    assert forall|i: int, j: int| 0 <= i < after.len() && 0 <= j < after.len() && i != j implies !overlap(
        (#[trigger] after[i]).tx.inputs,
        (#[trigger] after[j]).tx.inputs,
    ) by {
        if i < n && j < n {
            assert(!overlap(before[i].tx.inputs, before[j].tx.inputs));
        } else if i < n {
            assert(!overlap(before[i].tx.inputs, fresh.tx.inputs));
        } else {
            assert(!overlap(before[j].tx.inputs, fresh.tx.inputs));
            lemma_overlap_symmetric(before[j].tx.inputs, fresh.tx.inputs);
        }
    }
}

/// Changing the status of an entry keeps the invariant.
pub proof fn lemma_restatus_wf(state: PoolState, at: int, status: TxStatus)
    requires
        state.wf(),
        0 <= at < state.entries.len(),
    ensures
        (PoolState {
            entries: state.entries.update(at, PooledView { status, ..state.entries[at] }),
            ..state
        }).wf(),
{
    let before = state.entries;
    let after = before.update(at, PooledView { status, ..before[at] });
    assert forall|i: int, j: int| 0 <= i < j < after.len() implies (#[trigger] after[i]).tx.id != (#[trigger] after[j]).tx.id by {
        assert(before[i].tx.id != before[j].tx.id);
    }
    assert forall|i: int, j: int| 0 <= i < after.len() && 0 <= j < after.len() && i != j implies !overlap(
        (#[trigger] after[i]).tx.inputs,
        (#[trigger] after[j]).tx.inputs,
    ) by {
        assert(!overlap(before[i].tx.inputs, before[j].tx.inputs));
    }
}

/// Taking the entry at `at` out leaves a candidate that was new and free of
/// conflicts new and free of conflicts.
pub proof fn lemma_remove_at_keeps_clear(state: PoolState, at: int, tx: TransactionView)
    requires
        0 <= at < state.entries.len(),
        !state.contains(tx.id),
        state.conflicts(tx).len() == 0,
    ensures
        !(PoolState { entries: state.entries.remove(at), ..state }).contains(tx.id),
        (PoolState { entries: state.entries.remove(at), ..state }).conflicts(tx).len() == 0,
{
    let before = state.entries;
    let rest = PoolState { entries: before.remove(at), ..state };
    lemma_conflict_free(before, tx.inputs);
    assert forall|i: int| 0 <= i < rest.entries.len() implies !overlap((#[trigger] rest.entries[i]).tx.inputs, tx.inputs) by {
        let i0 = if i < at { i } else { i + 1 };
        assert(rest.entries[i] == before[i0]);
    }
    lemma_conflict_free(rest.entries, tx.inputs);
    if rest.contains(tx.id) {
        let i = rest.position(tx.id);
        let i0 = if i < at { i } else { i + 1 };
        assert(before[i0].tx.id == tx.id);
    }
}

} // verus!
