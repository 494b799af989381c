//! What holds of the pool in every state and for every input.

use vstd::prelude::*;
use crate::fanout::{queue_history, subscriber_sees_a_subsequence, QueueOp};
use crate::ids::{TxId, UtxoRef};
use crate::model::{lemma_position, lemma_push_wf, lemma_remove_at_keeps_clear, lemma_remove_at_wf, lemma_restatus_wf, lemma_victim, victim, EffectsView, Operation, PoolState};
use crate::order::{
    is_subsequence, subsequence_of_extension, subsequence_push_both, subsequence_push_right, subsequence_transitive,
};
use crate::resolver::{conflict_ids, consumed, overlap};
use crate::status::{follows_lifecycle, lemma_statuses_of_concat, lemma_statuses_of_one, statuses_of, submitted_at_most_once, ExecutionOutcome, Provenance, RemovalReason, StatusEvent, TxStatus};
use crate::transaction::{PooledView, TransactionView};

verus! {

/// Two input lists overlap exactly when the sets of outputs they name meet.
pub proof fn overlap_is_intersection(a: Seq<UtxoRef>, b: Seq<UtxoRef>)
    ensures
        overlap(a, b) <==> !a.to_set().disjoint(b.to_set()),
{
    if overlap(a, b) {
        let (i, j) = choose|i: int, j: int| 0 <= i < a.len() && 0 <= j < b.len() && #[trigger] a[i] == #[trigger] b[j];
        assert(a.contains(a[i]));
        assert(b.contains(a[i]));
        assert(a.to_set().contains(a[i]) && b.to_set().contains(a[i]));
    }
    if !a.to_set().disjoint(b.to_set()) {
        let u = choose|u: UtxoRef| a.to_set().contains(u) && b.to_set().contains(u);
        let i = choose|i: int| 0 <= i < a.len() && a[i] == u;
        let j = choose|j: int| 0 <= j < b.len() && b[j] == u;
        assert(a[i] == b[j]);
    }
}

/// No double-spend: in a pool that meets its invariant, two distinct pending
/// transactions consume disjoint sets of outputs.
pub proof fn no_double_spend(pool: PoolState, a: TxId, b: TxId)
    requires
        pool.wf(),
        pool.contains(a),
        pool.contains(b),
        a != b,
    ensures
        consumed(pool.lookup(a).unwrap().tx).disjoint(consumed(pool.lookup(b).unwrap().tx)),
{
    let i = pool.position(a);
    let j = pool.position(b);
    assert(pool.entries[i].tx.id == a && pool.entries[j].tx.id == b);
    assert(!overlap(pool.entries[i].tx.inputs, pool.entries[j].tx.inputs));
    overlap_is_intersection(pool.entries[i].tx.inputs, pool.entries[j].tx.inputs);
}

/// Insertion keeps the invariant of the pool, whatever it is offered.
pub proof fn insert_keeps_invariant(pool: PoolState, tx: TransactionView, provenance: Provenance)
    requires
        pool.wf(),
    ensures
        pool.insert(tx, provenance).next.wf(),
{
    let fresh = PooledView { tx, provenance, status: TxStatus::Submitted };
    if pool.contains(tx.id) || pool.conflicts(tx).len() > 0 {
    } else if pool.entries.len() < pool.capacity {
        lemma_push_wf(pool, fresh);
    } else if pool.entries.len() == 0 || tx.gas_price < pool.entries[victim(pool.entries)].tx.gas_price {
    } else {
        let v = victim(pool.entries);
        lemma_victim(pool.entries);
        let rest = PoolState { entries: pool.entries.remove(v), ..pool };
        lemma_remove_at_wf(pool, v);
        lemma_remove_at_keeps_clear(pool, v, tx);
        lemma_push_wf(rest, fresh);
    }
}

/// Removing one id keeps the invariant of the pool.
pub proof fn remove_one_keeps_invariant(pool: PoolState, id: TxId, reason: RemovalReason)
    requires
        pool.wf(),
    ensures
        pool.remove_one(id, reason).next.wf(),
{
    if pool.contains(id) {
        lemma_remove_at_wf(pool, pool.position(id));
    }
}

/// Removal keeps the invariant of the pool.
pub proof fn remove_keeps_invariant(pool: PoolState, ids: Seq<TxId>, reason: RemovalReason)
    requires
        pool.wf(),
    ensures
        pool.remove(ids, reason).next.wf(),
    decreases ids.len(),
{
    if ids.len() > 0 {
        remove_keeps_invariant(pool, ids.drop_last(), reason);
        remove_one_keeps_invariant(pool.remove(ids.drop_last(), reason).next, ids.last(), reason);
    }
}

/// A status transition keeps the invariant of the pool.
pub proof fn settle_keeps_invariant(pool: PoolState, id: TxId, status: TxStatus)
    requires
        pool.wf(),
    ensures
        pool.settle(id, status).next.wf(),
{
    if pool.contains(id) {
        lemma_restatus_wf(pool, pool.position(id), status);
    }
}

/// Confirmation keeps the invariant of the pool.
pub proof fn mark_confirmed_keeps_invariant(pool: PoolState, id: TxId, outcome: ExecutionOutcome)
    requires
        pool.wf(),
    ensures
        pool.mark_confirmed(id, outcome).next.wf(),
{
    settle_keeps_invariant(pool, id, outcome.status());
}

/// Squeezing out keeps the invariant of the pool.
pub proof fn mark_conflicts_resolved_keeps_invariant(pool: PoolState, ids: Seq<TxId>)
    requires
        pool.wf(),
    ensures
        pool.mark_conflicts_resolved(ids).next.wf(),
    decreases ids.len(),
{
    if ids.len() > 0 {
        mark_conflicts_resolved_keeps_invariant(pool, ids.drop_last());
        settle_keeps_invariant(pool.mark_conflicts_resolved(ids.drop_last()).next, ids.last(), TxStatus::SqueezedOut);
    }
}

/// Idempotent insert: offering a transaction a second time, right after it
/// was accepted, gives the same answer as the first time, changes nothing,
/// publishes nothing, and leaves exactly one pending entry with its id.
pub proof fn insert_is_idempotent(pool: PoolState, tx: TransactionView, first: Provenance, second: Provenance)
    requires
        pool.wf(),
        pool.insert(tx, first).result is Ok,
    ensures
        ({
            let once = pool.insert(tx, first);
            let twice = once.next.insert(tx, second);
            &&& twice.result == once.result
            &&& twice.next == once.next
            &&& twice.effects == EffectsView::none()
            &&& once.next.contains(tx.id)
            &&& forall|i: int, j: int|
                0 <= i < once.next.entries.len() && 0 <= j < once.next.entries.len() && (
                #[trigger] once.next.entries[i]).tx.id == tx.id && (#[trigger] once.next.entries[j]).tx.id == tx.id
                    ==> i == j
        }),
{
    let once = pool.insert(tx, first);
    insert_keeps_invariant(pool, tx, first);
    if !pool.contains(tx.id) {
        let last = once.next.entries.len() - 1;
        assert(once.next.entries[last].tx.id == tx.id);
        lemma_position(once.next, last);
    }
    assert forall|i: int, j: int|
        0 <= i < once.next.entries.len() && 0 <= j < once.next.entries.len() && (#[trigger] once.next.entries[i]).tx.id
            == tx.id && (#[trigger] once.next.entries[j]).tx.id == tx.id implies i == j by {
        if i < j {
            assert(once.next.entries[i].tx.id != once.next.entries[j].tx.id);
        } else if j < i {
            assert(once.next.entries[j].tx.id != once.next.entries[i].tx.id);
        }
    }
}

/// An insertion grows the pending set by at most one entry, and by none if
/// the id was already pending.
pub proof fn insert_grows_by_at_most_one(pool: PoolState, tx: TransactionView, provenance: Provenance)
    requires
        pool.wf(),
    ensures
        pool.insert(tx, provenance).next.entries.len() <= pool.entries.len() + 1,
        pool.contains(tx.id) ==> pool.insert(tx, provenance).next == pool,
        pool.insert(tx, provenance).result is Err ==> pool.insert(tx, provenance).next == pool,
{
    if pool.entries.len() > 0 {
        lemma_victim(pool.entries);
    }
}

/// Gossip loop prevention: an insertion hands the gossip layer exactly one
/// broadcast, carrying the transaction, if the transaction was submitted
/// locally and newly admitted; in every other case, and so for every
/// transaction that came from the network, it hands over none.
pub proof fn gossip_loop_prevention(pool: PoolState, tx: TransactionView, provenance: Provenance)
    requires
        pool.wf(),
    ensures
        ({
            let step = pool.insert(tx, provenance);
            let admitted = step.result is Ok && !pool.contains(tx.id);
            step.effects.broadcasts == (if admitted && provenance == Provenance::Local {
                seq![tx]
            } else {
                Seq::empty()
            })
        }),
{
    let step = pool.insert(tx, provenance);
    assert(step.effects.broadcasts =~= (if step.result is Ok && !pool.contains(tx.id) && provenance == Provenance::Local {
        seq![tx]
    } else {
        Seq::empty()
    }));
}

/// An insertion that is refused, or that finds the id pending, publishes
/// nothing at all.
pub proof fn refused_insertions_are_silent(pool: PoolState, tx: TransactionView, provenance: Provenance)
    requires
        pool.wf(),
        pool.insert(tx, provenance).result is Err || pool.contains(tx.id),
    ensures
        pool.insert(tx, provenance).effects == EffectsView::none(),
{
}

/// Find correctness: asking for one id gives one slot, which holds the
/// pending entry with that id if there is one, and nothing otherwise.
pub proof fn find_correctness(pool: PoolState, id: TxId)
    requires
        pool.wf(),
    ensures
        pool.find(seq![id]).len() == 1,
        pool.find(seq![id])[0] is Some <==> pool.pending().contains_key(id),
        pool.pending().contains_key(id) ==> pool.find(seq![id])[0] == Some(pool.pending()[id]) && pool.pending()[id].tx.id
            == id,
{
    if pool.contains(id) {
        let i = pool.position(id);
        assert(pool.entries[i].tx.id == id);
    }
}

/// The conflict list names exactly the pending transactions whose consumed
/// outputs meet those of the candidate, each once.
pub proof fn conflicts_are_the_colliding_entries(pool: PoolState, tx: TransactionView)
    requires
        pool.wf(),
    ensures
        pool.conflicts(tx).no_duplicates(),
        forall|id: TxId| #[trigger]
            pool.conflicts(tx).contains(id) <==> pool.contains(id) && !consumed(pool.lookup(id).unwrap().tx).disjoint(
                consumed(tx),
            ),
{
    lemma_conflict_members(pool.entries, tx.inputs);
    assert forall|id: TxId| #[trigger]
        pool.conflicts(tx).contains(id) <==> pool.contains(id) && !consumed(pool.lookup(id).unwrap().tx).disjoint(
            consumed(tx),
        ) by {
        if pool.contains(id) {
            let i = pool.position(id);
            assert(pool.entries[i].tx.id == id);
            overlap_is_intersection(pool.entries[i].tx.inputs, tx.inputs);
        }
        if pool.conflicts(tx).contains(id) {
            let i = choose|i: int| 0 <= i < pool.entries.len() && (#[trigger] pool.entries[i]).tx.id == id && overlap(pool.entries[i].tx.inputs, tx.inputs);
            lemma_position(pool, i);
        }
    }
    lemma_conflicts_distinct(pool.entries, tx.inputs);
}

/// An id is in the conflict list exactly when an entry with that id overlaps
/// the inputs.
proof fn lemma_conflict_members(entries: Seq<PooledView>, inputs: Seq<UtxoRef>)
    ensures
        forall|id: TxId| #[trigger]
            conflict_ids(entries, inputs).contains(id) <==> exists|i: int|
                0 <= i < entries.len() && (#[trigger] entries[i]).tx.id == id && overlap(entries[i].tx.inputs, inputs),
    decreases entries.len(),
{
    if entries.len() > 0 {
        let front = entries.drop_last();
        let n = front.len() as int;
        lemma_conflict_members(front, inputs);
        let rest = conflict_ids(front, inputs);
        assert forall|id: TxId| #[trigger]
            conflict_ids(entries, inputs).contains(id) <==> exists|i: int|
                0 <= i < entries.len() && (#[trigger] entries[i]).tx.id == id && overlap(entries[i].tx.inputs, inputs) by {
            let all = conflict_ids(entries, inputs);
            if all.contains(id) {
                let k = choose|k: int| 0 <= k < all.len() && all[k] == id;
                if k < rest.len() {
                    assert(rest[k] == id);
                    assert(rest.contains(id));
                    let i = choose|i: int| 0 <= i < front.len() && (#[trigger] front[i]).tx.id == id && overlap(front[i].tx.inputs, inputs);
                    assert(entries[i] == front[i]);
                } else {
                    assert(entries[n].tx.id == id);
                }
            }
            if exists|i: int| 0 <= i < entries.len() && (#[trigger] entries[i]).tx.id == id && overlap(entries[i].tx.inputs, inputs) {
                let i = choose|i: int| 0 <= i < entries.len() && (#[trigger] entries[i]).tx.id == id && overlap(entries[i].tx.inputs, inputs);
                if i < n {
                    assert(front[i] == entries[i]);
                    assert(rest.contains(id));
                    let k = choose|k: int| 0 <= k < rest.len() && rest[k] == id;
                    assert(all[k] == id);
                } else {
                    assert(all[all.len() - 1] == id);
                }
            }
        }
    }
}

/// Among distinct ids the conflict list has no duplicates.
proof fn lemma_conflicts_distinct(entries: Seq<PooledView>, inputs: Seq<UtxoRef>)
    requires
        forall|i: int, j: int| 0 <= i < j < entries.len() ==> (#[trigger] entries[i]).tx.id != (#[trigger] entries[j]).tx.id,
    ensures
        conflict_ids(entries, inputs).no_duplicates(),
    decreases entries.len(),
{
    if entries.len() > 0 {
        let front = entries.drop_last();
        let n = front.len() as int;
        assert forall|i: int, j: int| 0 <= i < j < front.len() implies (#[trigger] front[i]).tx.id != (#[trigger] front[j]).tx.id by {
            assert(entries[i].tx.id != entries[j].tx.id);
        }
        lemma_conflicts_distinct(front, inputs);
        lemma_conflict_members(front, inputs);
        let rest = conflict_ids(front, inputs);
        if rest.contains(entries[n].tx.id) {
            let i = choose|i: int| 0 <= i < front.len() && (#[trigger] front[i]).tx.id == entries[n].tx.id && overlap(front[i].tx.inputs, inputs);
            assert(entries[i].tx.id != entries[n].tx.id);
        }
    }
}

/// Taking an entry out removes its id from the pending set and leaves
/// every other id as it was.
pub proof fn lookup_after_removal(pool: PoolState, at: int, id: TxId)
    requires
        pool.wf(),
        0 <= at < pool.entries.len(),
    ensures
        (PoolState { entries: pool.entries.remove(at), ..pool }).lookup(id) == (if pool.entries[at].tx.id == id {
            None
        } else {
            pool.lookup(id)
        }),
{
    let next = PoolState { entries: pool.entries.remove(at), ..pool };
    lemma_remove_at_wf(pool, at);
    if next.contains(id) {
        let k = next.position(id);
        let k0 = if k < at { k } else { k + 1 };
        assert(pool.entries[k0].tx.id == id);
        lemma_position(pool, k0);
        if k0 < at {
            assert(pool.entries[k0].tx.id != pool.entries[at].tx.id);
        } else {
            assert(pool.entries[at].tx.id != pool.entries[k0].tx.id);
        }
    } else if pool.contains(id) {
        let k0 = pool.position(id);
        if k0 != at {
            let k = if k0 < at { k0 } else { k0 - 1 };
            assert(next.entries[k].tx.id == id);
        }
    }
}

/// Adding an entry with a new id makes it the entry found for that id and
/// leaves every other id as it was.
pub proof fn lookup_after_admission(pool: PoolState, fresh: PooledView, id: TxId)
    requires
        pool.wf(),
        !pool.contains(fresh.tx.id),
    ensures
        (PoolState { entries: pool.entries.push(fresh), ..pool }).lookup(id) == (if fresh.tx.id == id {
            Some(fresh)
        } else {
            pool.lookup(id)
        }),
{
    let next = PoolState { entries: pool.entries.push(fresh), ..pool };
    let n = pool.entries.len() as int;
    assert(next.entries[n] == fresh);
    assert forall|i: int, j: int| 0 <= i < j < next.entries.len() implies (#[trigger] next.entries[i]).tx.id != (#[trigger] next.entries[j]).tx.id by {
        if j < n {
            assert(pool.entries[i].tx.id != pool.entries[j].tx.id);
        } else {
            assert(pool.entries[i].tx.id != fresh.tx.id);
        }
    }
    if next.contains(id) {
        let k = next.position(id);
        if k < n {
            assert(pool.entries[k].tx.id == id);
            lemma_position(pool, k);
        }
    } else if pool.contains(id) {
        let k = pool.position(id);
        assert(next.entries[k].tx.id == id);
    }
}

/// Changing the status of an entry changes what is found for its id, and
/// leaves every other id as it was.
pub proof fn lookup_after_transition(pool: PoolState, at: int, status: TxStatus, id: TxId)
    requires
        pool.wf(),
        0 <= at < pool.entries.len(),
    ensures
        (PoolState { entries: pool.entries.update(at, PooledView { status, ..pool.entries[at] }), ..pool }).lookup(id) == (
        if pool.entries[at].tx.id == id {
            Some(PooledView { status, ..pool.entries[at] })
        } else {
            pool.lookup(id)
        }),
{
    let next = PoolState { entries: pool.entries.update(at, PooledView { status, ..pool.entries[at] }), ..pool };
    lemma_restatus_wf(pool, at, status);
    if next.contains(id) {
        let k = next.position(id);
        assert(pool.entries[k].tx.id == id);
        lemma_position(pool, k);
        lemma_position(next, k);
        lemma_position(pool, at);
    } else if pool.contains(id) {
        let k = pool.position(id);
        assert(next.entries[k].tx.id == id);
    }
}

/// What an insertion publishes on the status stream for any one id: the
/// squeeze-out of that id if it is evicted while `Submitted`, then its
/// submission if it is the one admitted.
pub proof fn statuses_of_insertion(pool: PoolState, tx: TransactionView, provenance: Provenance, id: TxId)
    ensures
        statuses_of(pool.insert(tx, provenance).effects.statuses, id) == (if !pool.admits(tx) {
            Seq::<TxStatus>::empty()
        } else if tx.id == id {
            seq![TxStatus::Submitted]
        } else if pool.evicts(tx) && pool.entries[victim(pool.entries)].tx.id == id && pool.entries[victim(
            pool.entries,
        )].status == TxStatus::Submitted {
            seq![TxStatus::SqueezedOut]
        } else {
            Seq::<TxStatus>::empty()
        }),
{
    let step = pool.insert(tx, provenance);
    let admitted = StatusEvent { id: tx.id, status: TxStatus::Submitted };
    lemma_statuses_of_one(admitted, id);
    if !pool.admits(tx) {
        assert(step.effects.statuses =~= Seq::<StatusEvent>::empty());
    } else if !pool.evicts(tx) {
        assert(step.effects.statuses =~= seq![admitted]);
    } else {
        let out = pool.entries[victim(pool.entries)];
        let squeezed = StatusEvent { id: out.tx.id, status: TxStatus::SqueezedOut };
        let gone = PoolState::eviction_effects(out).statuses;
        lemma_victim(pool.entries);
        lemma_statuses_of_one(squeezed, id);
        lemma_statuses_of_concat(gone, seq![admitted], id);
        assert(step.effects.statuses == gone + seq![admitted]);
        if out.status == TxStatus::Submitted {
            assert(gone =~= seq![squeezed]);
        } else {
            assert(gone =~= Seq::<StatusEvent>::empty());
        }
        assert(statuses_of(step.effects.statuses, id) =~= statuses_of(gone, id) + statuses_of(seq![admitted], id));
    }
}

/// What an insertion does to any one id: the admitted transaction becomes
/// pending as `Submitted`, the evicted one leaves, and every other id stays as
/// it was. An insertion that admits nothing changes nothing.
pub proof fn lookup_after_insertion(pool: PoolState, tx: TransactionView, provenance: Provenance, id: TxId)
    requires
        pool.wf(),
    ensures
        pool.insert(tx, provenance).next.lookup(id) == (if !pool.admits(tx) {
            pool.lookup(id)
        } else if tx.id == id {
            Some(PooledView { tx, provenance, status: TxStatus::Submitted })
        } else if pool.evicts(tx) && pool.entries[victim(pool.entries)].tx.id == id {
            None
        } else {
            pool.lookup(id)
        }),
{
    let fresh = PooledView { tx, provenance, status: TxStatus::Submitted };
    if !pool.admits(tx) {
    } else if !pool.evicts(tx) {
        lookup_after_admission(pool, fresh, id);
    } else {
        let v = victim(pool.entries);
        let rest = PoolState { entries: pool.entries.remove(v), ..pool };
        lemma_victim(pool.entries);
        lemma_remove_at_wf(pool, v);
        lemma_remove_at_keeps_clear(pool, v, tx);
        lookup_after_removal(pool, v, id);
        lookup_after_admission(rest, fresh, id);
    }
}

/// What ties the statuses published for an id to the pool: they follow the
/// lifecycle, and while the id is pending the last of them is its status.
#[verifier::opaque]
spec fn tidy(pool: PoolState, seen: Seq<TxStatus>, id: TxId) -> bool {
    &&& follows_lifecycle(seen)
    &&& pool.lookup(id) matches Some(entry) ==> seen.len() > 0 && seen.last() == entry.status
}

/// Nothing is published for the id, and it stays as it was or leaves.
proof fn lemma_tidy_quiet(pool: PoolState, next: PoolState, seen: Seq<TxStatus>, id: TxId)
    requires
        tidy(pool, seen, id),
        next.lookup(id) == pool.lookup(id) || next.lookup(id) is None,
    ensures
        tidy(next, seen, id),
{
    reveal(tidy);
}

/// The id is admitted and its submission published.
proof fn lemma_tidy_submitted(pool: PoolState, next: PoolState, seen: Seq<TxStatus>, id: TxId)
    requires
        tidy(pool, seen, id),
        next.lookup(id) matches Some(entry) && entry.status == TxStatus::Submitted,
    ensures
        tidy(next, seen.push(TxStatus::Submitted), id),
{
    reveal(tidy);
}

/// The id leaves `Submitted` for a terminal status, which is published; it
/// stays pending with that status or leaves.
proof fn lemma_tidy_settled(pool: PoolState, next: PoolState, seen: Seq<TxStatus>, status: TxStatus, id: TxId)
    requires
        tidy(pool, seen, id),
        pool.lookup(id) matches Some(entry) && entry.status == TxStatus::Submitted,
        status.terminal(),
        next.lookup(id) matches Some(entry) ==> entry.status == status,
    ensures
        tidy(next, seen.push(status), id),
{
    reveal(tidy);
}

proof fn lemma_insert_tidy(pool: PoolState, tx: TransactionView, provenance: Provenance, seen: Seq<TxStatus>, id: TxId)
    requires
        pool.wf(),
        tidy(pool, seen, id),
    ensures
        tidy(
            pool.insert(tx, provenance).next,
            seen + statuses_of(pool.insert(tx, provenance).effects.statuses, id),
            id,
        ),
{
    let step = pool.insert(tx, provenance);
    let published = statuses_of(step.effects.statuses, id);
    statuses_of_insertion(pool, tx, provenance, id);
    lookup_after_insertion(pool, tx, provenance, id);
    if published.len() == 0 {
        assert(seen + published =~= seen);
        lemma_tidy_quiet(pool, step.next, seen, id);
    } else if tx.id == id {
        assert(seen + published =~= seen.push(TxStatus::Submitted));
        lemma_tidy_submitted(pool, step.next, seen, id);
    } else {
        assert(seen + published =~= seen.push(TxStatus::SqueezedOut));
        lemma_victim(pool.entries);
        lemma_position(pool, victim(pool.entries));
        lemma_tidy_settled(pool, step.next, seen, TxStatus::SqueezedOut, id);
    }
}

proof fn lemma_remove_one_tidy(pool: PoolState, target: TxId, reason: RemovalReason, seen: Seq<TxStatus>, id: TxId)
    requires
        pool.wf(),
        tidy(pool, seen, id),
    ensures
        tidy(
            pool.remove_one(target, reason).next,
            seen + statuses_of(pool.remove_one(target, reason).effects.statuses, id),
            id,
        ),
{
    let step = pool.remove_one(target, reason);
    assert(seen + statuses_of(step.effects.statuses, id) =~= seen);
    if pool.contains(target) {
        lookup_after_removal(pool, pool.position(target), id);
    }
    lemma_tidy_quiet(pool, step.next, seen, id);
}

proof fn lemma_remove_tidy(pool: PoolState, ids: Seq<TxId>, reason: RemovalReason, seen: Seq<TxStatus>, id: TxId)
    requires
        pool.wf(),
        tidy(pool, seen, id),
    ensures
        tidy(pool.remove(ids, reason).next, seen + statuses_of(pool.remove(ids, reason).effects.statuses, id), id),
    decreases ids.len(),
{
    if ids.len() == 0 {
        assert(seen + statuses_of(pool.remove(ids, reason).effects.statuses, id) =~= seen);
    } else {
        let before = pool.remove(ids.drop_last(), reason);
        let last = before.next.remove_one(ids.last(), reason);
        let middle = seen + statuses_of(before.effects.statuses, id);
        lemma_remove_tidy(pool, ids.drop_last(), reason, seen, id);
        remove_keeps_invariant(pool, ids.drop_last(), reason);
        lemma_remove_one_tidy(before.next, ids.last(), reason, middle, id);
        lemma_statuses_of_concat(before.effects.statuses, last.effects.statuses, id);
        assert(seen + statuses_of(pool.remove(ids, reason).effects.statuses, id) =~= middle + statuses_of(
            last.effects.statuses,
            id,
        ));
    }
}

proof fn lemma_settle_tidy(pool: PoolState, target: TxId, status: TxStatus, seen: Seq<TxStatus>, id: TxId)
    requires
        pool.wf(),
        tidy(pool, seen, id),
        status.terminal(),
    ensures
        tidy(
            pool.settle(target, status).next,
            seen + statuses_of(pool.settle(target, status).effects.statuses, id),
            id,
        ),
{
    let step = pool.settle(target, status);
    if pool.contains(target) && pool.entries[pool.position(target)].status == TxStatus::Submitted {
        let at = pool.position(target);
        let event = StatusEvent { id: target, status };
        lookup_after_transition(pool, at, status, id);
        lemma_statuses_of_one(event, id);
        assert(step.effects.statuses =~= seq![event]);
        if target == id {
            assert(seen + statuses_of(step.effects.statuses, id) =~= seen.push(status));
            lemma_tidy_settled(pool, step.next, seen, status, id);
        } else {
            assert(seen + statuses_of(step.effects.statuses, id) =~= seen);
            lemma_tidy_quiet(pool, step.next, seen, id);
        }
    } else {
        assert(seen + statuses_of(step.effects.statuses, id) =~= seen);
        lemma_tidy_quiet(pool, step.next, seen, id);
    }
}

proof fn lemma_resolve_tidy(pool: PoolState, ids: Seq<TxId>, seen: Seq<TxStatus>, id: TxId)
    requires
        pool.wf(),
        tidy(pool, seen, id),
    ensures
        tidy(
            pool.mark_conflicts_resolved(ids).next,
            seen + statuses_of(pool.mark_conflicts_resolved(ids).effects.statuses, id),
            id,
        ),
    decreases ids.len(),
{
    if ids.len() == 0 {
        assert(seen + statuses_of(pool.mark_conflicts_resolved(ids).effects.statuses, id) =~= seen);
    } else {
        let before = pool.mark_conflicts_resolved(ids.drop_last());
        let last = before.next.settle(ids.last(), TxStatus::SqueezedOut);
        let middle = seen + statuses_of(before.effects.statuses, id);
        lemma_resolve_tidy(pool, ids.drop_last(), seen, id);
        mark_conflicts_resolved_keeps_invariant(pool, ids.drop_last());
        lemma_settle_tidy(before.next, ids.last(), TxStatus::SqueezedOut, middle, id);
        lemma_statuses_of_concat(before.effects.statuses, last.effects.statuses, id);
        assert(seen + statuses_of(pool.mark_conflicts_resolved(ids).effects.statuses, id) =~= middle + statuses_of(
            last.effects.statuses,
            id,
        ));
    }
}

/// Every request keeps the invariant of the pool.
pub proof fn apply_keeps_invariant(pool: PoolState, op: Operation)
    requires
        pool.wf(),
    ensures
        pool.apply(op).next.wf(),
{
    match op {
        Operation::Insert { tx, provenance } => insert_keeps_invariant(pool, tx, provenance),
        Operation::Find { ids } => {},
        Operation::Remove { ids, reason } => remove_keeps_invariant(pool, ids, reason),
        Operation::MarkConfirmed { id, outcome } => mark_confirmed_keeps_invariant(pool, id, outcome),
        Operation::MarkConflictsResolved { ids } => mark_conflicts_resolved_keeps_invariant(pool, ids),
    }
}

/// Every series of requests keeps the invariant of the pool: at every point
/// in time no two pending transactions share an id or consume the same
/// output.
pub proof fn run_keeps_invariant(pool: PoolState, ops: Seq<Operation>)
    requires
        pool.wf(),
    ensures
        pool.run(ops).next.wf(),
    decreases ops.len(),
{
    if ops.len() > 0 {
        run_keeps_invariant(pool, ops.drop_last());
        apply_keeps_invariant(pool.run(ops.drop_last()).next, ops.last());
    }
}

proof fn lemma_apply_tidy(pool: PoolState, op: Operation, seen: Seq<TxStatus>, id: TxId)
    requires
        pool.wf(),
        tidy(pool, seen, id),
    ensures
        tidy(pool.apply(op).next, seen + statuses_of(pool.apply(op).effects.statuses, id), id),
{
    match op {
        Operation::Insert { tx, provenance } => lemma_insert_tidy(pool, tx, provenance, seen, id),
        Operation::Find { ids } => {
            assert(seen + statuses_of(pool.apply(op).effects.statuses, id) =~= seen);
        },
        Operation::Remove { ids, reason } => lemma_remove_tidy(pool, ids, reason, seen, id),
        Operation::MarkConfirmed { id: target, outcome } => lemma_settle_tidy(pool, target, outcome.status(), seen, id),
        Operation::MarkConflictsResolved { ids } => lemma_resolve_tidy(pool, ids, seen, id),
    }
}

proof fn lemma_run_tidy(pool: PoolState, ops: Seq<Operation>, seen: Seq<TxStatus>, id: TxId)
    requires
        pool.wf(),
        tidy(pool, seen, id),
    ensures
        tidy(pool.run(ops).next, seen + statuses_of(pool.run(ops).effects.statuses, id), id),
    decreases ops.len(),
{
    if ops.len() == 0 {
        assert(seen + statuses_of(pool.run(ops).effects.statuses, id) =~= seen);
    } else {
        let before = pool.run(ops.drop_last());
        let last = before.next.apply(ops.last());
        let middle = seen + statuses_of(before.effects.statuses, id);
        lemma_run_tidy(pool, ops.drop_last(), seen, id);
        run_keeps_invariant(pool, ops.drop_last());
        lemma_apply_tidy(before.next, ops.last(), middle, id);
        lemma_statuses_of_concat(before.effects.statuses, last.effects.statuses, id);
        assert(seen + statuses_of(pool.run(ops).effects.statuses, id) =~= middle + statuses_of(last.effects.statuses, id));
    }
}

/// An empty pool that has published nothing is tidy.
proof fn lemma_tidy_at_creation(capacity: nat, id: TxId)
    ensures
        PoolState::empty(capacity).wf(),
        tidy(PoolState::empty(capacity), Seq::empty(), id),
{
    reveal(tidy);
}

/// What is tidy follows the lifecycle.
proof fn lemma_tidy_follows_lifecycle(pool: PoolState, seen: Seq<TxStatus>, id: TxId)
    requires
        tidy(pool, seen, id),
    ensures
        follows_lifecycle(seen),
{
    reveal(tidy);
}

/// Whatever requests a pool serves from its creation on, the statuses it
/// publishes for any one id follow the lifecycle: the first is `Submitted`,
/// and each terminal status comes directly after a `Submitted` for that id.
pub proof fn statuses_follow_lifecycle(capacity: nat, ops: Seq<Operation>, id: TxId)
    ensures
        follows_lifecycle(statuses_of(PoolState::empty(capacity).run(ops).effects.statuses, id)),
{
    let start = PoolState::empty(capacity);
    let published = statuses_of(start.run(ops).effects.statuses, id);
    lemma_tidy_at_creation(capacity, id);
    lemma_run_tidy(start, ops, Seq::empty(), id);
    assert(Seq::<TxStatus>::empty() + published =~= published);
    lemma_tidy_follows_lifecycle(start.run(ops).next, published, id);
}

/// Statuses that follow the lifecycle and hold `Submitted` at most once are
/// a prefix of `Submitted` followed by one terminal status.
pub proof fn lifecycle_admitted_once(seen: Seq<TxStatus>)
    requires
        follows_lifecycle(seen),
        submitted_at_most_once(seen),
    ensures
        seen.len() <= 2,
        seen.len() >= 1 ==> seen[0] == TxStatus::Submitted,
        seen.len() == 2 ==> seen[1].terminal(),
{
    if seen.len() >= 2 {
        if seen[1] == TxStatus::Submitted {
            assert(seen[0] == TxStatus::Submitted);
        }
    }
    if seen.len() >= 3 {
        if seen[2].terminal() {
            assert(seen[1] == TxStatus::Submitted);
        } else {
            assert(seen[2] == TxStatus::Submitted && seen[0] == TxStatus::Submitted);
        }
    }
}

/// Notification ordering: whatever requests a pool serves from its creation
/// on, the statuses it publishes for an id that it admits at most once are a
/// prefix of `Submitted` followed by one terminal status.
pub proof fn notification_ordering(capacity: nat, ops: Seq<Operation>, id: TxId)
    requires
        submitted_at_most_once(statuses_of(PoolState::empty(capacity).run(ops).effects.statuses, id)),
    ensures
        ({
            let seen = statuses_of(PoolState::empty(capacity).run(ops).effects.statuses, id);
            &&& seen.len() <= 2
            &&& seen.len() >= 1 ==> seen[0] == TxStatus::Submitted
            &&& seen.len() == 2 ==> seen[1].terminal()
        }),
{
    statuses_follow_lifecycle(capacity, ops, id);
    lifecycle_admitted_once(statuses_of(PoolState::empty(capacity).run(ops).effects.statuses, id));
}

/// The statuses of a part of the events are a part of the statuses of the
/// events.
pub proof fn statuses_of_subsequence(part: Seq<StatusEvent>, all: Seq<StatusEvent>, id: TxId)
    requires
        is_subsequence(part, all),
    ensures
        is_subsequence(statuses_of(part, id), statuses_of(all, id)),
    decreases all.len(),
{
    if part.len() == 0 {
    } else {
        let front = all.drop_last();
        if part.last() == all.last() && is_subsequence(part.drop_last(), front) {
            statuses_of_subsequence(part.drop_last(), front, id);
            if all.last().id == id {
                subsequence_push_both(statuses_of(part.drop_last(), id), statuses_of(front, id), all.last().status);
            }
        } else {
            statuses_of_subsequence(part, front, id);
            if all.last().id == id {
                subsequence_push_right(statuses_of(part, id), statuses_of(front, id), all.last().status);
            }
        }
    }
}

/// Notification ordering, as a subscriber sees it. Take a pool that serves
/// any requests from its creation on and admits the id at most once, and a
/// subscriber whose queue is fed from what the pool publishes, from any point
/// on, and who polls whenever it likes. The statuses that the subscriber polls
/// for the id are `Submitted` followed by one terminal status, with some of
/// the two possibly left out.
pub proof fn subscriber_sees_ordered_statuses(
    capacity: nat,
    ops: Seq<Operation>,
    buffer: nat,
    queue: Seq<QueueOp<StatusEvent>>,
    id: TxId,
)
    requires
        is_subsequence(queue_history(queue, buffer).published, PoolState::empty(capacity).run(ops).effects.statuses),
        submitted_at_most_once(statuses_of(PoolState::empty(capacity).run(ops).effects.statuses, id)),
    ensures
        exists|end: TxStatus| #[trigger]
            end.terminal() && is_subsequence(
                statuses_of(queue_history(queue, buffer).polled, id),
                seq![TxStatus::Submitted, end],
            ),
{
    let all = PoolState::empty(capacity).run(ops).effects.statuses;
    let history = queue_history(queue, buffer);
    let published = statuses_of(all, id);
    let polled = statuses_of(history.polled, id);
    subscriber_sees_a_subsequence(queue, buffer);
    subsequence_transitive(history.polled, history.published, all);
    statuses_of_subsequence(history.polled, all, id);
    notification_ordering(capacity, ops, id);
    let end = if published.len() == 2 { published[1] } else { TxStatus::Success };
    let whole = seq![TxStatus::Submitted, end];
    let rest = whole.skip(published.len() as int);
    assert(whole =~= published + rest);
    subsequence_of_extension(published, rest);
    subsequence_transitive(polled, published, whole);
    assert(end.terminal() && is_subsequence(polled, seq![TxStatus::Submitted, end]));
}

} // verus!
