//! The admission engine: the pending set, kept together with its conflict
//! index, and the operations on it.

use vstd::prelude::*;
use crate::gossip::{forward, outbound_views, OutboundGossip};
use crate::ids::{TxId, UtxoRef};
use crate::index::ConflictIndex;
use crate::model::{
    lemma_position, lemma_push_wf, lemma_remove_at_keeps_clear, lemma_remove_at_wf, lemma_restatus_wf, victim,
    EffectsView, PoolErrorView, PoolState,
};
use crate::resolver::{among, conflict_ids, lemma_among_next, lemma_conflict_free, overlap, shares_input};
use crate::status::{ExecutionOutcome, Membership, Provenance, RemovalReason, StatusEvent, TxStatus, UpdateEvent};
use crate::transaction::{entry_views, slot_views, PooledTransaction, PooledView, Transaction};

verus! {

/// What a successful insertion reports: the pending entry for the
/// transaction.
#[derive(Debug, PartialEq, Eq)]
pub struct InsertionOutcome {
    pub inserted: PooledTransaction,
}

impl View for InsertionOutcome {
    type V = PooledView;

    open spec fn view(&self) -> PooledView {
        self.inserted@
    }
}

/// Why an insertion was refused.
#[derive(Debug, PartialEq, Eq)]
pub enum PoolError {
    /// The candidate consumes an output that these pending transactions
    /// consume.
    ConflictingInput(Vec<TxId>),
    /// The pool is full and no pending transaction has a lower priority than
    /// the candidate.
    PoolFull,
}

impl View for PoolError {
    type V = PoolErrorView;

    open spec fn view(&self) -> PoolErrorView {
        match self {
            PoolError::ConflictingInput(ids) => PoolErrorView::ConflictingInput(ids@),
            PoolError::PoolFull => PoolErrorView::PoolFull,
        }
    }
}

/// The mathematical content of an insertion's result.
pub open spec fn insertion_view(r: Result<InsertionOutcome, PoolError>) -> Result<PooledView, PoolErrorView> {
    match r {
        Ok(outcome) => Ok(outcome@),
        Err(error) => Err(error@),
    }
}

/// What an operation publishes: entries for the status stream and the update
/// stream, and requests to the peer-to-peer layer.
#[derive(Debug, PartialEq, Eq)]
pub struct Effects {
    pub statuses: Vec<StatusEvent>,
    pub updates: Vec<UpdateEvent>,
    pub broadcasts: Vec<OutboundGossip>,
}

impl View for Effects {
    type V = EffectsView;

    open spec fn view(&self) -> EffectsView {
        EffectsView {
            statuses: self.statuses@,
            updates: self.updates@,
            broadcasts: outbound_views(self.broadcasts@),
        }
    }
}

impl Effects {
    /// Nothing to publish.
    pub fn none() -> (r: Effects)
        ensures
            r@ == EffectsView::none(),
    {
        let r = Effects { statuses: Vec::new(), updates: Vec::new(), broadcasts: Vec::new() };
        assert(r@.broadcasts =~= Seq::empty());
        r
    }
}

/// The pool: the pending transactions in admission order, the index of the
/// outputs they consume, and the number of transactions it may hold.
pub struct Pool {
    entries: Vec<PooledTransaction>,
    index: ConflictIndex,
    capacity: usize,
}

/// Whether `index` is the conflict index of `entries`: it maps each
/// consumed output to the entry that consumes it, and nothing else.
spec fn index_agrees(entries: Seq<PooledView>, index: Map<UtxoRef, TxId>) -> bool {
    &&& forall|i: int, a: int|
        0 <= i < entries.len() && 0 <= a < entries[i].tx.inputs.len() ==> index.contains_key(
            #[trigger] entries[i].tx.inputs[a],
        ) && index[entries[i].tx.inputs[a]] == entries[i].tx.id
    &&& forall|u: UtxoRef| #[trigger]
        index.contains_key(u) ==> exists|i: int, a: int|
            0 <= i < entries.len() && 0 <= a < entries[i].tx.inputs.len() && #[trigger] entries[i].tx.inputs[a] == u
}

impl View for Pool {
    type V = PoolState;

    closed spec fn view(&self) -> PoolState {
        PoolState { entries: entry_views(self.entries@), capacity: self.capacity as nat }
    }
}

impl Pool {
    /// The invariant of the pool: ids are unique, no output is consumed
    /// twice, the capacity is respected, and the conflict index agrees with
    /// the pending set.
    pub open spec fn wf(&self) -> bool {
        &&& self@.wf()
        &&& self.indexed()
    }

    /// The conflict index agrees with the pending set.
    pub closed spec fn indexed(&self) -> bool {
        &&& self.index.wf()
        &&& index_agrees(self@.entries, self.index@)
    }

    /// An empty pool that holds up to `capacity` transactions.
    pub fn new(capacity: usize) -> (r: Pool)
        ensures
            r.wf(),
            r@ == PoolState::empty(capacity as nat),
    {
        let r = Pool { entries: Vec::new(), index: ConflictIndex::new(), capacity };
        assert(r@.entries =~= Seq::empty());
        r
    }

    /// The number of pending transactions.
    pub fn len(&self) -> (r: usize)
        ensures
            r == self@.entries.len(),
    {
        self.entries.len()
    }

    /// The number of transactions the pool may hold.
    pub fn capacity(&self) -> (r: usize)
        ensures
            r == self@.capacity,
    {
        self.capacity
    }

    /// The position of the pending transaction with this id.
    fn position_of(&self, id: &TxId) -> (r: Option<usize>)
        requires
            self.wf(),
        ensures
            match r {
                Some(i) => i < self.entries@.len() && self@.contains(*id) && self@.position(*id) == i,
                None => !self@.contains(*id),
            },
    {
        let mut i: usize = 0;
        while i < self.entries.len()
            invariant
                self.wf(),
                i <= self.entries@.len(),
                forall|j: int| 0 <= j < i ==> (#[trigger] self@.entries[j]).tx.id != *id,
            decreases self.entries@.len() - i,
        {
            if self.entries[i].tx.id == *id {
                proof {
                    lemma_position(self@, i as int);
                }
                return Some(i);
            }
            i += 1;
        }
        None
    }

    /// Whether a transaction with this id is pending.
    pub fn contains(&self, id: &TxId) -> (r: bool)
        requires
            self.wf(),
        ensures
            r == self@.contains(*id),
    {
        self.position_of(id).is_some()
    }

    /// The pending transaction with this id, if there is one.
    pub fn get(&self, id: &TxId) -> (r: Option<PooledTransaction>)
        requires
            self.wf(),
        ensures
            match r {
                Some(e) => self@.lookup(*id) == Some(e@),
                None => self@.lookup(*id).is_none(),
            },
    {
        match self.position_of(id) {
            Some(i) => Some(self.entries[i].clone()),
            None => None,
        }
    }

    /// One slot per requested id, in request order: the pending transaction
    /// with that id, or `None` if there is none.
    pub fn find(&self, ids: &Vec<TxId>) -> (r: Vec<Option<PooledTransaction>>)
        requires
            self.wf(),
        ensures
            slot_views(r@) == self@.find(ids@),
    {
        let mut out: Vec<Option<PooledTransaction>> = Vec::new();
        let mut i: usize = 0;
        while i < ids.len()
            invariant
                self.wf(),
                i <= ids@.len(),
                out@.len() == i,
                forall|j: int| 0 <= j < i ==> slot_views(out@)[j] == self@.lookup(ids@[j]),
            decreases ids@.len() - i,
        {
            let slot = self.get(&ids[i]);
            let ghost before = out@;
            out.push(slot);
            proof {
                assert forall|j: int| 0 <= j < i + 1 implies slot_views(out@)[j] == self@.lookup(ids@[j]) by {
                    if j < i {
                        assert(out@[j] == before[j]);
                        assert(slot_views(before)[j] == self@.lookup(ids@[j]));
                    }
                }
            }
            i += 1;
        }
        assert(slot_views(out@) =~= self@.find(ids@));
        out
    }

    /// The transaction that consumes `utxo`, if a pending one does.
    pub fn holder(&self, utxo: &UtxoRef) -> (r: Option<TxId>)
        requires
            self.wf(),
        ensures
            r == self@.holder(*utxo),
    {
        let r = self.index.lookup(utxo);
        proof {
            let s = self@;
            if self.index@.contains_key(*utxo) {
                let (i, a) = choose|i: int, a: int|
                    0 <= i < s.entries.len() && 0 <= a < s.entries[i].tx.inputs.len() && #[trigger] s.entries[i].tx.inputs[a] == *utxo;
                assert(s.entries[i].tx.inputs.contains(*utxo));
                let k = choose|k: int| 0 <= k < s.entries.len() && (#[trigger] s.entries[k]).tx.inputs.contains(*utxo);
                let b = choose|b: int| 0 <= b < s.entries[k].tx.inputs.len() && s.entries[k].tx.inputs[b] == *utxo;
                assert(self.index@[s.entries[k].tx.inputs[b]] == s.entries[k].tx.id);
            } else if exists|k: int| 0 <= k < s.entries.len() && (#[trigger] s.entries[k]).tx.inputs.contains(*utxo) {
                let k = choose|k: int| 0 <= k < s.entries.len() && (#[trigger] s.entries[k]).tx.inputs.contains(*utxo);
                let b = choose|b: int| 0 <= b < s.entries[k].tx.inputs.len() && s.entries[k].tx.inputs[b] == *utxo;
                assert(self.index@.contains_key(s.entries[k].tx.inputs[b]));
            }
        }
        r
    }

    /// The ids of the pending transactions that consume an output that
    /// `tx` consumes, in admission order.
    pub fn conflicts(&self, tx: &Transaction) -> (r: Vec<TxId>)
        requires
            self.wf(),
        ensures
            r@ == self@.conflicts(tx@),
    {
        let mut k: usize = 0;
        let mut hit = false;
        while k < tx.inputs.len() && !hit
            invariant
                self.wf(),
                k <= tx.inputs@.len(),
                !hit ==> forall|t: int| 0 <= t < k ==> !self.index@.contains_key(#[trigger] tx.inputs@[t]),
            decreases tx.inputs@.len() - k + if hit { 0int } else { 1int },
        {
            if self.index.lookup(&tx.inputs[k]).is_some() {
                hit = true;
            } else {
                k += 1;
            }
        }
        let mut out: Vec<TxId> = Vec::new();
        if !hit {
            proof {
                let s = self@;
                assert forall|i: int| 0 <= i < s.entries.len() implies !overlap((#[trigger] s.entries[i]).tx.inputs, tx@.inputs) by {
                    if overlap(s.entries[i].tx.inputs, tx@.inputs) {
                        let (a, b) = choose|a: int, b: int|
                            0 <= a < s.entries[i].tx.inputs.len() && 0 <= b < tx@.inputs.len() && #[trigger] s.entries[i].tx.inputs[a] == #[trigger] tx@.inputs[b];
                        assert(self.index@.contains_key(s.entries[i].tx.inputs[a]));
                        assert(!self.index@.contains_key(tx.inputs@[b]));
                    }
                }
                lemma_conflict_free(s.entries, tx@.inputs);
                assert(out@ =~= s.conflicts(tx@));
            }
            return out;
        }
        let mut i: usize = 0;
        while i < self.entries.len()
            invariant
                i <= self.entries@.len(),
                out@ == conflict_ids(self@.entries.take(i as int), tx@.inputs),
            decreases self.entries@.len() - i,
        {
            proof {
                let next = self@.entries.take(i + 1);
                assert(next.drop_last() =~= self@.entries.take(i as int));
                assert(next.last() == self@.entries[i as int]);
            }
            if shares_input(&self.entries[i].tx.inputs, &tx.inputs) {
                out.push(self.entries[i].tx.id);
            }
            i += 1;
        }
        assert(self@.entries.take(i as int) =~= self@.entries);
        out
    }

    /// The position of the entry to evict first.
    fn lowest(&self) -> (r: usize)
        requires
            self.entries@.len() > 0,
        ensures
            r == victim(self@.entries),
            r < self.entries@.len(),
    {
        let mut v: usize = 0;
        let mut i: usize = 1;
        assert(self@.entries.take(1).len() == 1);
        while i < self.entries.len()
            invariant
                1 <= i <= self.entries@.len(),
                v < i,
                v == victim(self@.entries.take(i as int)),
            decreases self.entries@.len() - i,
        {
            proof {
                let next = self@.entries.take(i + 1);
                assert(next.drop_last() =~= self@.entries.take(i as int));
                assert(next.last() == self@.entries[i as int]);
                assert(next[v as int] == self@.entries[v as int]);
            }
            if self.entries[i].tx.gas_price < self.entries[v].tx.gas_price {
                v = i;
            }
            i += 1;
        }
        assert(self@.entries.take(i as int) =~= self@.entries);
        v
    }

    /// Takes the entry at `at` out of the pending set and releases the
    /// outputs it consumes.
    fn take_out(&mut self, at: usize) -> (r: PooledTransaction)
        requires
            old(self).wf(),
            at < old(self).entries@.len(),
        ensures
            final(self).wf(),
            final(self)@ == (PoolState { entries: old(self)@.entries.remove(at as int), ..old(self)@ }),
            r@ == old(self)@.entries[at as int],
    {
        let ghost before = self@.entries;
        let ghost m0 = self.index@;
        let out = self.entries.remove(at);
        let ghost after = before.remove(at as int);
        assert(entry_views(self.entries@) =~= after);
        assert(out@ == before[at as int]);
        let mut k: usize = 0;
        while k < out.tx.inputs.len()
            invariant
                k <= out.tx.inputs@.len(),
                self.index.wf(),
                self.capacity == old(self).capacity,
                entry_views(self.entries@) == after,
                forall|u: UtxoRef| #[trigger]
                    self.index@.contains_key(u) == (m0.contains_key(u) && !among(out.tx.inputs@, k as int, u)),
                forall|u: UtxoRef| #[trigger] self.index@.contains_key(u) ==> self.index@[u] == m0[u],
            decreases out.tx.inputs@.len() - k,
        {
            let ghost prev = self.index@;
            self.index.release(&out.tx.inputs[k]);
            proof {
                assert forall|u: UtxoRef| #[trigger]
                    self.index@.contains_key(u) == (m0.contains_key(u) && !among(out.tx.inputs@, k + 1, u)) by {
                    lemma_among_next(out.tx.inputs@, k as int, u);
                    assert(self.index@.contains_key(u) == (prev.contains_key(u) && u != out.tx.inputs@[k as int]));
                }
            }
            k += 1;
        }
        proof {
            let gone = out.tx.inputs@;
            let n = gone.len() as int;
            assert(gone == before[at as int].tx.inputs);
            lemma_remove_at_wf(old(self)@, at as int);
            assert forall|i: int, a: int| 0 <= i < after.len() && 0 <= a < after[i].tx.inputs.len() implies self.index@.contains_key(
                #[trigger] after[i].tx.inputs[a],
            ) && self.index@[after[i].tx.inputs[a]] == after[i].tx.id by {
                let i0 = if i < at { i } else { i + 1 };
                let u = before[i0].tx.inputs[a];
                assert(after[i] == before[i0]);
                assert(m0.contains_key(u) && m0[u] == before[i0].tx.id);
                assert(!overlap(before[i0].tx.inputs, before[at as int].tx.inputs));
                if among(gone, n, u) {
                    let t = choose|t: int| 0 <= t < n && #[trigger] gone[t] == u;
                    assert(before[i0].tx.inputs[a] == before[at as int].tx.inputs[t]);
                }
                assert(k == n);
                assert(!among(gone, n, u));
                assert(self.index@.contains_key(u) == (m0.contains_key(u) && !among(out.tx.inputs@, k as int, u)));
                assert(self.index@.contains_key(u));
                assert(self.index@[u] == m0[u]);
            }
            assert forall|u: UtxoRef| #[trigger] self.index@.contains_key(u) implies exists|i: int, a: int|
                0 <= i < after.len() && 0 <= a < after[i].tx.inputs.len() && #[trigger] after[i].tx.inputs[a] == u by {
                assert(m0.contains_key(u));
                let (i0, a) = choose|i: int, a: int|
                    0 <= i < before.len() && 0 <= a < before[i].tx.inputs.len() && #[trigger] before[i].tx.inputs[a] == u;
                if i0 == at {
                    assert(gone[a] == u);
                    assert(among(gone, n, u));
                }
                let i = if i0 < at { i0 } else { i0 - 1 };
                assert(after[i].tx.inputs[a] == u);
            }
        }
        out
    }

    /// Puts a transaction at the end of the pending set and claims the
    /// outputs it consumes.
    fn enroll(&mut self, tx: Transaction, provenance: Provenance)
        requires
            old(self).wf(),
            !old(self)@.contains(tx@.id),
            old(self)@.conflicts(tx@).len() == 0,
            old(self)@.entries.len() < old(self)@.capacity,
        ensures
            final(self).wf(),
            final(self)@ == (PoolState {
                entries: old(self)@.entries.push(PooledView { tx: tx@, provenance, status: TxStatus::Submitted }),
                ..old(self)@
            }),
    {
        let ghost before = self@.entries;
        let ghost m0 = self.index@;
        let ghost fresh = PooledView { tx: tx@, provenance, status: TxStatus::Submitted };
        let ghost after = before.push(fresh);
        let id = tx.id;
        let mut k: usize = 0;
        while k < tx.inputs.len()
            invariant
                k <= tx.inputs@.len(),
                self.index.wf(),
                self.capacity == old(self).capacity,
                self.entries@ == old(self).entries@,
                id == tx.id,
                forall|u: UtxoRef| #[trigger]
                    self.index@.contains_key(u) == (m0.contains_key(u) || among(tx.inputs@, k as int, u)),
                forall|u: UtxoRef| #[trigger]
                    self.index@.contains_key(u) ==> self.index@[u] == (if among(tx.inputs@, k as int, u) {
                        id
                    } else {
                        m0[u]
                    }),
            decreases tx.inputs@.len() - k,
        {
            let ghost prev = self.index@;
            self.index.claim(tx.inputs[k], id);
            proof {
                let x = tx.inputs@[k as int];
                assert forall|u: UtxoRef| #[trigger]
                    self.index@.contains_key(u) == (m0.contains_key(u) || among(tx.inputs@, k + 1, u)) by {
                    lemma_among_next(tx.inputs@, k as int, u);
                    assert(self.index@.contains_key(u) == (prev.contains_key(u) || u == x));
                }
                assert forall|u: UtxoRef| #[trigger] self.index@.contains_key(u) implies self.index@[u] == (if among(
                    tx.inputs@,
                    k + 1,
                    u,
                ) {
                    id
                } else {
                    m0[u]
                }) by {
                    lemma_among_next(tx.inputs@, k as int, u);
                    if u != x {
                        assert(prev.contains_key(u));
                        assert(self.index@[u] == prev[u]);
                    }
                }
            }
            k += 1;
        }
        let ghost inputs = tx.inputs@;
        self.entries.push(PooledTransaction { tx, provenance, status: TxStatus::Submitted });
        proof {
            let n = before.len() as int;
            let m = inputs.len() as int;
            assert(k == m);
            assert(entry_views(self.entries@) =~= after);
            lemma_conflict_free(before, inputs);
            lemma_push_wf(old(self)@, fresh);
            assert forall|i: int, a: int| 0 <= i < after.len() && 0 <= a < after[i].tx.inputs.len() implies self.index@.contains_key(
                #[trigger] after[i].tx.inputs[a],
            ) && self.index@[after[i].tx.inputs[a]] == after[i].tx.id by {
                if i < n {
                    let u = before[i].tx.inputs[a];
                    assert(after[i] == before[i]);
                    assert(m0.contains_key(u) && m0[u] == before[i].tx.id);
                    assert(!overlap(before[i].tx.inputs, inputs));
                    if among(inputs, m, u) {
                        let t = choose|t: int| 0 <= t < m && #[trigger] inputs[t] == u;
                        assert(before[i].tx.inputs[a] == inputs[t]);
                    }
                    assert(!among(inputs, m, u));
                    assert(self.index@.contains_key(u) == (m0.contains_key(u) || among(inputs, m, u)));
                    assert(self.index@[u] == m0[u]);
                } else {
                    let u = inputs[a];
                    assert(after[i] == fresh);
                    assert(among(inputs, m, u));
                    assert(self.index@.contains_key(u) == (m0.contains_key(u) || among(inputs, m, u)));
                    assert(self.index@[u] == id);
                }
            }
            assert forall|u: UtxoRef| #[trigger] self.index@.contains_key(u) implies exists|i: int, a: int|
                0 <= i < after.len() && 0 <= a < after[i].tx.inputs.len() && #[trigger] after[i].tx.inputs[a] == u by {
                if among(inputs, m, u) {
                    let t = choose|t: int| 0 <= t < m && #[trigger] inputs[t] == u;
                    assert(after[n].tx.inputs[t] == u);
                } else {
                    assert(m0.contains_key(u));
                    let (i, a) = choose|i: int, a: int|
                        0 <= i < before.len() && 0 <= a < before[i].tx.inputs.len() && #[trigger] before[i].tx.inputs[a] == u;
                    assert(after[i].tx.inputs[a] == u);
                }
            }
        }
    }

    /// Offers a transaction to the pool.
    ///
    /// A candidate whose id is already pending changes nothing and is answered
    /// with the pending entry. A candidate that consumes an output of a pending
    /// transaction is refused with `ConflictingInput`, naming every pending
    /// transaction it collides with. A full pool refuses the candidate with
    /// `PoolFull` if its gas price is below that of every pending transaction;
    /// otherwise the pending transaction with the lowest gas price, the
    /// earliest admitted among equals, is evicted to make room. An admitted
    /// candidate starts as `Submitted`, and is handed to the gossip layer.
    pub fn insert(&mut self, tx: Transaction, provenance: Provenance) -> (r: (
        Result<InsertionOutcome, PoolError>,
        Effects,
    ))
        requires
            old(self).wf(),
        ensures
            final(self).wf(),
            final(self)@ == old(self)@.insert(tx@, provenance).next,
            insertion_view(r.0) == old(self)@.insert(tx@, provenance).result,
            r.1@ == old(self)@.insert(tx@, provenance).effects,
    {
        if let Some(i) = self.position_of(&tx.id) {
            return (Ok(InsertionOutcome { inserted: self.entries[i].clone() }), Effects::none());
        }
        let colliding = self.conflicts(&tx);
        if colliding.len() > 0 {
            return (Err(PoolError::ConflictingInput(colliding)), Effects::none());
        }
        let ghost before = self@;
        let mut effects = Effects::none();
        if self.entries.len() >= self.capacity {
            if self.entries.len() == 0 {
                return (Err(PoolError::PoolFull), effects);
            }
            let v = self.lowest();
            if tx.gas_price < self.entries[v].tx.gas_price {
                return (Err(PoolError::PoolFull), effects);
            }
            let out = self.take_out(v);
            if out.status == TxStatus::Submitted {
                effects.statuses.push(StatusEvent { id: out.tx.id, status: TxStatus::SqueezedOut });
            }
            effects.updates.push(
                UpdateEvent { id: out.tx.id, event: Membership::Removed(RemovalReason::SqueezedOut) },
            );
            proof {
                lemma_remove_at_keeps_clear(before, v as int, tx@);
            }
        }
        effects.statuses.push(StatusEvent { id: tx.id, status: TxStatus::Submitted });
        effects.updates.push(UpdateEvent { id: tx.id, event: Membership::Inserted });
        effects.broadcasts = forward(provenance, &tx);
        let inserted = PooledTransaction { tx: tx.clone(), provenance, status: TxStatus::Submitted };
        self.enroll(tx, provenance);
        proof {
            let step = before.insert(tx@, provenance);
            assert(effects@.statuses =~= step.effects.statuses);
            assert(effects@.updates =~= step.effects.updates);
            assert(effects@.broadcasts =~= step.effects.broadcasts);
        }
        (Ok(InsertionOutcome { inserted }), effects)
    }

    /// Removes the pending transactions with the given ids, one after another
    /// in request order. Each removal publishes one update tagged with
    /// `reason`; an id that is not pending is passed over. Returns the number
    /// of transactions removed.
    pub fn remove(&mut self, ids: &Vec<TxId>, reason: RemovalReason) -> (r: (usize, Effects))
        requires
            old(self).wf(),
        ensures
            final(self).wf(),
            final(self)@ == old(self)@.remove(ids@, reason).next,
            r.0 == old(self)@.remove(ids@, reason).result,
            r.1@ == old(self)@.remove(ids@, reason).effects,
    {
        let ghost start = self@;
        let mut effects = Effects::none();
        let mut count: usize = 0;
        let mut i: usize = 0;
        while i < ids.len()
            invariant
                self.wf(),
                i <= ids@.len(),
                count <= i,
                self@ == start.remove(ids@.take(i as int), reason).next,
                count == start.remove(ids@.take(i as int), reason).result,
                effects@ == start.remove(ids@.take(i as int), reason).effects,
            decreases ids@.len() - i,
        {
            let ghost before = effects@;
            proof {
                let next = ids@.take(i + 1);
                assert(next.drop_last() =~= ids@.take(i as int));
                assert(next.last() == ids@[i as int]);
            }
            if let Some(at) = self.position_of(&ids[i]) {
                self.take_out(at);
                effects.updates.push(UpdateEvent { id: ids[i], event: Membership::Removed(reason) });
                count += 1;
            }
            proof {
                let last = start.remove(ids@.take(i as int), reason).next.remove_one(ids@[i as int], reason);
                assert(effects@.statuses =~= before.followed_by(last.effects).statuses);
                assert(effects@.updates =~= before.followed_by(last.effects).updates);
                assert(effects@.broadcasts =~= before.followed_by(last.effects).broadcasts);
            }
            i += 1;
        }
        assert(ids@.take(i as int) =~= ids@);
        (count, effects)
    }

    /// Moves the pending transaction with this id out of `Submitted` into
    /// `status`, if it is pending and still `Submitted`.
    fn settle(&mut self, id: &TxId, status: TxStatus) -> (r: bool)
        requires
            old(self).wf(),
        ensures
            final(self).wf(),
            final(self)@ == old(self)@.settle(*id, status).next,
            r == old(self)@.settle(*id, status).result,
    {
        let ghost before = self@.entries;
        match self.position_of(id) {
            Some(at) => {
                if self.entries[at].status == TxStatus::Submitted {
                    self.entries[at].status = status;
                    proof {
                        let after = before.update(at as int, PooledView { status, ..before[at as int] });
                        assert(entry_views(self.entries@) =~= after);
                        lemma_restatus_wf(old(self)@, at as int, status);
                        assert forall|i: int, a: int| 0 <= i < after.len() && 0 <= a < after[i].tx.inputs.len() implies self.index@.contains_key(
                            #[trigger] after[i].tx.inputs[a],
                        ) && self.index@[after[i].tx.inputs[a]] == after[i].tx.id by {
                            assert(after[i].tx.inputs[a] == before[i].tx.inputs[a]);
                        }
                        assert forall|u: UtxoRef| #[trigger] self.index@.contains_key(u) implies exists|i: int, a: int|
                            0 <= i < after.len() && 0 <= a < after[i].tx.inputs.len() && #[trigger] after[i].tx.inputs[a] == u by {
                            let (i, a) = choose|i: int, a: int|
                                0 <= i < before.len() && 0 <= a < before[i].tx.inputs.len() && #[trigger] before[i].tx.inputs[a] == u;
                            assert(after[i].tx.inputs[a] == u);
                        }
                    }
                    true
                } else {
                    false
                }
            },
            None => false,
        }
    }

    /// Records that a block has executed the transaction: a pending
    /// transaction that is still `Submitted` takes the status of the outcome,
    /// and the transition is published. Returns whether that happened.
    pub fn mark_confirmed(&mut self, id: &TxId, outcome: ExecutionOutcome) -> (r: (bool, Effects))
        requires
            old(self).wf(),
        ensures
            final(self).wf(),
            final(self)@ == old(self)@.mark_confirmed(*id, outcome).next,
            r.0 == old(self)@.mark_confirmed(*id, outcome).result,
            r.1@ == old(self)@.mark_confirmed(*id, outcome).effects,
    {
        let status = outcome.to_status();
        let mut effects = Effects::none();
        let moved = self.settle(id, status);
        if moved {
            effects.statuses.push(StatusEvent { id: *id, status });
            assert(effects@.statuses =~= seq![StatusEvent { id: *id, status }]);
        }
        (moved, effects)
    }

    /// Records that conflicting transactions were confirmed first: each of
    /// the given transactions that is pending and still `Submitted` becomes
    /// `SqueezedOut`, in request order, and each transition is published.
    /// Returns the number of transitions.
    pub fn mark_conflicts_resolved(&mut self, ids: &Vec<TxId>) -> (r: (usize, Effects))
        requires
            old(self).wf(),
        ensures
            final(self).wf(),
            final(self)@ == old(self)@.mark_conflicts_resolved(ids@).next,
            r.0 == old(self)@.mark_conflicts_resolved(ids@).result,
            r.1@ == old(self)@.mark_conflicts_resolved(ids@).effects,
    {
        let ghost start = self@;
        let mut effects = Effects::none();
        let mut count: usize = 0;
        let mut i: usize = 0;
        while i < ids.len()
            invariant
                self.wf(),
                i <= ids@.len(),
                count <= i,
                self@ == start.mark_conflicts_resolved(ids@.take(i as int)).next,
                count == start.mark_conflicts_resolved(ids@.take(i as int)).result,
                effects@ == start.mark_conflicts_resolved(ids@.take(i as int)).effects,
            decreases ids@.len() - i,
        {
            let ghost before = effects@;
            proof {
                let next = ids@.take(i + 1);
                assert(next.drop_last() =~= ids@.take(i as int));
                assert(next.last() == ids@[i as int]);
            }
            if self.settle(&ids[i], TxStatus::SqueezedOut) {
                effects.statuses.push(StatusEvent { id: ids[i], status: TxStatus::SqueezedOut });
                count += 1;
            }
            proof {
                let last = start.mark_conflicts_resolved(ids@.take(i as int)).next.settle(
                    ids@[i as int],
                    TxStatus::SqueezedOut,
                );
                assert(effects@.statuses =~= before.followed_by(last.effects).statuses);
                assert(effects@.updates =~= before.followed_by(last.effects).updates);
                assert(effects@.broadcasts =~= before.followed_by(last.effects).broadcasts);
            }
            i += 1;
        }
        assert(ids@.take(i as int) =~= ids@);
        (count, effects)
    }
}

} // verus!
