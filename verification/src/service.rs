//! The request interface: one request at a time against the pool, with
//! what each request publishes handed to the notification streams and to
//! the outbound gossip queue.

use vstd::prelude::*;
use crate::fanout::{deliver_all, Fanout};
use crate::gossip::{outbound_views, InboundGossip, OutboundGossip};
use crate::ids::TxId;
use crate::model::{EffectsView, Operation, PoolState, Reply};
use crate::pool::{insertion_view, Effects, InsertionOutcome, Pool, PoolError};
use crate::status::{ExecutionOutcome, Provenance, RemovalReason, StatusEvent, UpdateEvent};
use crate::transaction::{slot_views, PooledTransaction, Transaction, TransactionView};

verus! {

/// A request to the pool.
#[derive(Debug, PartialEq, Eq)]
pub enum Request {
    /// Offer a transaction.
    Insert { tx: Transaction, provenance: Provenance },
    /// Look transactions up.
    Find { ids: Vec<TxId> },
    /// Remove transactions.
    Remove { ids: Vec<TxId>, reason: RemovalReason },
    /// Record the execution of a transaction.
    MarkConfirmed { id: TxId, outcome: ExecutionOutcome },
    /// Squeeze out transactions whose rivals were confirmed.
    MarkConflictsResolved { ids: Vec<TxId> },
}

impl View for Request {
    type V = Operation;

    open spec fn view(&self) -> Operation {
        match self {
            Request::Insert { tx, provenance } => Operation::Insert { tx: tx@, provenance: *provenance },
            Request::Find { ids } => Operation::Find { ids: ids@ },
            Request::Remove { ids, reason } => Operation::Remove { ids: ids@, reason: *reason },
            Request::MarkConfirmed { id, outcome } => Operation::MarkConfirmed { id: *id, outcome: *outcome },
            Request::MarkConflictsResolved { ids } => Operation::MarkConflictsResolved { ids: ids@ },
        }
    }
}

/// The answer to a request.
#[derive(Debug, PartialEq, Eq)]
pub enum Response {
    /// The answer to `Insert`.
    Inserted(Result<InsertionOutcome, PoolError>),
    /// The answer to `Find`: one slot per requested id.
    Found(Vec<Option<PooledTransaction>>),
    /// The answer to `Remove`: the number of transactions removed.
    Removed(usize),
    /// The answer to `MarkConfirmed`: whether the status changed.
    Confirmed(bool),
    /// The answer to `MarkConflictsResolved`: the number squeezed out.
    Resolved(usize),
}

impl View for Response {
    type V = Reply;

    open spec fn view(&self) -> Reply {
        match self {
            Response::Inserted(result) => Reply::Inserted(insertion_view(*result)),
            Response::Found(slots) => Reply::Found(slot_views(slots@)),
            Response::Removed(count) => Reply::Removed(*count as nat),
            Response::Confirmed(moved) => Reply::Confirmed(*moved),
            Response::Resolved(count) => Reply::Resolved(*count as nat),
        }
    }
}

/// The state of the service.
pub struct ServiceState {
    /// The pool.
    pub pool: PoolState,
    /// The undelivered status events of each subscriber.
    pub statuses: Map<u64, Seq<StatusEvent>>,
    /// The undelivered update events of each subscriber.
    pub updates: Map<u64, Seq<UpdateEvent>>,
    /// The transactions of the broadcast requests that wait for the
    /// peer-to-peer layer.
    pub outbound: Seq<TransactionView>,
    /// The number of undelivered events that each subscriber may have.
    pub buffer: nat,
    /// The number of subscriptions to the status stream opened so far; the
    /// next one gets this number as its handle.
    pub status_handles: nat,
    /// The number of subscriptions to the update stream opened so far; the
    /// next one gets this number as its handle.
    pub update_handles: nat,
}

impl ServiceState {
    /// The state after `effects` were published.
    pub open spec fn publish(self, effects: EffectsView) -> ServiceState {
        ServiceState {
            statuses: self.statuses.map_values(|q: Seq<StatusEvent>| deliver_all(q, effects.statuses, self.buffer)),
            updates: self.updates.map_values(|q: Seq<UpdateEvent>| deliver_all(q, effects.updates, self.buffer)),
            outbound: self.outbound + effects.broadcasts,
            ..self
        }
    }

    /// The state after a request was served: the pool has taken the step, and
    /// what the step publishes has reached every subscriber and the outbound
    /// queue.
    pub open spec fn serve(self, op: Operation) -> ServiceState {
        (ServiceState { pool: self.pool.apply(op).next, ..self }).publish(self.pool.apply(op).effects)
    }
}

/// The pool behind its request interface.
pub struct Service {
    pool: Pool,
    status_feed: Fanout<StatusEvent>,
    update_feed: Fanout<UpdateEvent>,
    outbound: Vec<OutboundGossip>,
}

impl View for Service {
    type V = ServiceState;

    closed spec fn view(&self) -> ServiceState {
        ServiceState {
            pool: self.pool@,
            statuses: self.status_feed@,
            updates: self.update_feed@,
            outbound: outbound_views(self.outbound@),
            buffer: self.status_feed.buffer(),
            status_handles: self.status_feed.issued(),
            update_handles: self.update_feed.issued(),
        }
    }
}

impl Service {
    /// The invariant of the service: the pool meets its invariant.
    pub open spec fn wf(&self) -> bool {
        &&& self@.pool.wf()
        &&& self.sound()
    }

    /// The parts of the service are each in order.
    pub closed spec fn sound(&self) -> bool {
        &&& self.pool.wf()
        &&& self.status_feed.wf()
        &&& self.update_feed.wf()
        &&& self.status_feed.buffer() == self.update_feed.buffer()
    }

    /// A service with an empty pool of the given capacity, no subscribers,
    /// and room for `buffer` undelivered events per subscriber.
    pub fn new(capacity: usize, buffer: usize) -> (r: Service)
        ensures
            r.wf(),
            r@ == (ServiceState {
                pool: PoolState::empty(capacity as nat),
                statuses: Map::empty(),
                updates: Map::empty(),
                outbound: Seq::empty(),
                buffer: buffer as nat,
                status_handles: 0,
                update_handles: 0,
            }),
    {
        let r = Service {
            pool: Pool::new(capacity),
            status_feed: Fanout::new(buffer),
            update_feed: Fanout::new(buffer),
            outbound: Vec::new(),
        };
        assert(r@.outbound =~= Seq::empty());
        r
    }

    /// Hands what a request published to the streams and the outbound queue.
    fn dispatch(&mut self, effects: Effects)
        requires
            old(self).sound(),
        ensures
            final(self).sound(),
            final(self)@ == old(self)@.publish(effects@),
    {
        let ghost start = self@;
        let ghost buffer = start.buffer;
        let Effects { statuses, updates, mut broadcasts } = effects;
        let mut i: usize = 0;
        while i < statuses.len()
            invariant
                i <= statuses@.len(),
                self.status_feed.wf(),
                self.status_feed.buffer() == buffer,
                self.status_feed.issued() == start.status_handles,
                self.status_feed@ == start.statuses.map_values(
                    |q: Seq<StatusEvent>| deliver_all(q, statuses@.take(i as int), buffer),
                ),
                self.pool == old(self).pool,
                self.update_feed == old(self).update_feed,
                self.outbound == old(self).outbound,
            decreases statuses@.len() - i,
        {
            proof {
                let next = statuses@.take(i + 1);
                assert(next.drop_last() =~= statuses@.take(i as int));
                assert(next.last() == statuses@[i as int]);
            }
            self.status_feed.publish(statuses[i]);
            assert(self.status_feed@ =~= start.statuses.map_values(
                |q: Seq<StatusEvent>| deliver_all(q, statuses@.take(i + 1), buffer),
            ));
            i += 1;
        }
        assert(statuses@.take(i as int) =~= statuses@);
        let mut j: usize = 0;
        while j < updates.len()
            invariant
                j <= updates@.len(),
                self.update_feed.wf(),
                self.update_feed.buffer() == buffer,
                self.update_feed.issued() == start.update_handles,
                self.status_feed.issued() == start.status_handles,
                self.update_feed@ == start.updates.map_values(
                    |q: Seq<UpdateEvent>| deliver_all(q, updates@.take(j as int), buffer),
                ),
                self.pool == old(self).pool,
                self.status_feed@ == start.statuses.map_values(|q: Seq<StatusEvent>| deliver_all(q, statuses@, buffer)),
                self.status_feed.wf(),
                self.status_feed.buffer() == buffer,
                self.outbound == old(self).outbound,
            decreases updates@.len() - j,
        {
            proof {
                let next = updates@.take(j + 1);
                assert(next.drop_last() =~= updates@.take(j as int));
                assert(next.last() == updates@[j as int]);
            }
            self.update_feed.publish(updates[j]);
            assert(self.update_feed@ =~= start.updates.map_values(
                |q: Seq<UpdateEvent>| deliver_all(q, updates@.take(j + 1), buffer),
            ));
            j += 1;
        }
        assert(updates@.take(j as int) =~= updates@);
        let ghost sent = broadcasts@;
        self.outbound.append(&mut broadcasts);
        assert(outbound_views(self.outbound@) =~= start.outbound + outbound_views(sent));
    }

    /// Serves one request: the pool takes the step that the request asks
    /// for, what the step publishes reaches every subscriber and the outbound
    /// queue, and the answer is that of the pool.
    pub fn handle(&mut self, request: Request) -> (r: Response)
        requires
            old(self).wf(),
        ensures
            final(self).wf(),
            r@ == old(self)@.pool.apply(request@).result,
            final(self)@ == old(self)@.serve(request@),
    {
        let ghost start = self@;
        match request {
            Request::Insert { tx, provenance } => {
                let (result, effects) = self.pool.insert(tx, provenance);
                self.dispatch(effects);
                Response::Inserted(result)
            },
            Request::Find { ids } => {
                let found = self.pool.find(&ids);
                proof {
                    Self::lemma_publish_nothing(start);
                }
                Response::Found(found)
            },
            Request::Remove { ids, reason } => {
                let (count, effects) = self.pool.remove(&ids, reason);
                self.dispatch(effects);
                Response::Removed(count)
            },
            Request::MarkConfirmed { id, outcome } => {
                let (moved, effects) = self.pool.mark_confirmed(&id, outcome);
                self.dispatch(effects);
                Response::Confirmed(moved)
            },
            Request::MarkConflictsResolved { ids } => {
                let (count, effects) = self.pool.mark_conflicts_resolved(&ids);
                self.dispatch(effects);
                Response::Resolved(count)
            },
        }
    }

    /// Publishing nothing changes nothing.
    proof fn lemma_publish_nothing(state: ServiceState)
        ensures
            state.publish(EffectsView::none()) == state,
    {
        let after = state.publish(EffectsView::none());
        assert(after.statuses =~= state.statuses);
        assert(after.updates =~= state.updates);
        assert(after.outbound =~= state.outbound);
    }

    /// Offers a transaction on behalf of a local caller or of the gossip
    /// layer.
    pub fn insert(&mut self, tx: Transaction, provenance: Provenance) -> (r: Result<InsertionOutcome, PoolError>)
        requires
            old(self).wf(),
        ensures
            final(self).wf(),
            insertion_view(r) == old(self)@.pool.insert(tx@, provenance).result,
            final(self)@ == old(self)@.serve(Operation::Insert { tx: tx@, provenance }),
    {
        let (result, effects) = self.pool.insert(tx, provenance);
        self.dispatch(effects);
        result
    }

    /// Takes a transaction that peers have broadcast: it is offered to the
    /// pool as coming from the network. The result is that of the insertion;
    /// nothing is sent back to the gossip layer whatever it is.
    pub fn on_gossip(&mut self, event: InboundGossip) -> (r: Result<InsertionOutcome, PoolError>)
        requires
            old(self).wf(),
        ensures
            final(self).wf(),
            insertion_view(r) == old(self)@.pool.insert(event@, Provenance::Network).result,
            final(self)@ == old(self)@.serve(Operation::Insert { tx: event@, provenance: Provenance::Network }),
            final(self)@.outbound == old(self)@.outbound,
    {
        let InboundGossip::NewTransaction(tx) = event;
        let r = self.insert(tx, Provenance::Network);
        assert(self@.outbound =~= old(self)@.outbound);
        r
    }

    /// Opens a subscription to the status stream: a new, empty queue that
    /// receives every status event published from now on. Its handle is the
    /// number of status subscriptions opened before. Returns `None`, and
    /// changes nothing, once `u64::MAX` of them have been opened.
    pub fn subscribe_status(&mut self) -> (r: Option<u64>)
        requires
            old(self).wf(),
        ensures
            final(self).wf(),
            r == (if old(self)@.status_handles < u64::MAX {
                Some(old(self)@.status_handles as u64)
            } else {
                None
            }),
            match r {
                Some(handle) => !old(self)@.statuses.contains_key(handle) && final(self)@ == (ServiceState {
                    statuses: old(self)@.statuses.insert(handle, Seq::empty()),
                    status_handles: old(self)@.status_handles + 1,
                    ..old(self)@
                }),
                None => final(self)@ == old(self)@,
            },
    {
        self.status_feed.subscribe()
    }

    /// Opens a subscription to the update stream: a new, empty queue that
    /// receives every update event published from now on. Its handle is the
    /// number of update subscriptions opened before. Returns `None`, and
    /// changes nothing, once `u64::MAX` of them have been opened.
    pub fn subscribe_updates(&mut self) -> (r: Option<u64>)
        requires
            old(self).wf(),
        ensures
            final(self).wf(),
            r == (if old(self)@.update_handles < u64::MAX {
                Some(old(self)@.update_handles as u64)
            } else {
                None
            }),
            match r {
                Some(handle) => !old(self)@.updates.contains_key(handle) && final(self)@ == (ServiceState {
                    updates: old(self)@.updates.insert(handle, Seq::empty()),
                    update_handles: old(self)@.update_handles + 1,
                    ..old(self)@
                }),
                None => final(self)@ == old(self)@,
            },
    {
        self.update_feed.subscribe()
    }

    /// Closes a subscription to the status stream. Returns whether it was
    /// open.
    pub fn unsubscribe_status(&mut self, handle: u64) -> (r: bool)
        requires
            old(self).wf(),
        ensures
            final(self).wf(),
            r == old(self)@.statuses.contains_key(handle),
            final(self)@ == (ServiceState { statuses: old(self)@.statuses.remove(handle), ..old(self)@ }),
    {
        self.status_feed.unsubscribe(handle)
    }

    /// Closes a subscription to the update stream. Returns whether it was
    /// open.
    pub fn unsubscribe_updates(&mut self, handle: u64) -> (r: bool)
        requires
            old(self).wf(),
        ensures
            final(self).wf(),
            r == old(self)@.updates.contains_key(handle),
            final(self)@ == (ServiceState { updates: old(self)@.updates.remove(handle), ..old(self)@ }),
    {
        self.update_feed.unsubscribe(handle)
    }

    /// Takes the oldest undelivered status event of a subscriber, if there
    /// is one.
    pub fn poll_status(&mut self, handle: u64) -> (r: Option<StatusEvent>)
        requires
            old(self).wf(),
        ensures
            final(self).wf(),
            match r {
                Some(event) => old(self)@.statuses.contains_key(handle) && old(self)@.statuses[handle].len() > 0 && event
                    == old(self)@.statuses[handle][0] && final(self)@ == (ServiceState {
                    statuses: old(self)@.statuses.insert(handle, old(self)@.statuses[handle].drop_first()),
                    ..old(self)@
                }),
                None => final(self)@ == old(self)@ && (old(self)@.statuses.contains_key(handle) ==> old(self)@.statuses[handle].len()
                    == 0),
            },
    {
        self.status_feed.poll(handle)
    }

    /// Takes the oldest undelivered update event of a subscriber, if there
    /// is one.
    pub fn poll_update(&mut self, handle: u64) -> (r: Option<UpdateEvent>)
        requires
            old(self).wf(),
        ensures
            final(self).wf(),
            match r {
                Some(event) => old(self)@.updates.contains_key(handle) && old(self)@.updates[handle].len() > 0 && event
                    == old(self)@.updates[handle][0] && final(self)@ == (ServiceState {
                    updates: old(self)@.updates.insert(handle, old(self)@.updates[handle].drop_first()),
                    ..old(self)@
                }),
                None => final(self)@ == old(self)@ && (old(self)@.updates.contains_key(handle) ==> old(self)@.updates[handle].len()
                    == 0),
            },
    {
        self.update_feed.poll(handle)
    }

    /// Takes the requests that wait for the peer-to-peer layer, oldest first,
    /// and leaves the outbound queue empty.
    pub fn take_outbound(&mut self) -> (r: Vec<OutboundGossip>)
        requires
            old(self).wf(),
        ensures
            final(self).wf(),
            outbound_views(r@) == old(self)@.outbound,
            final(self)@ == (ServiceState { outbound: Seq::empty(), ..old(self)@ }),
    {
        let mut out: Vec<OutboundGossip> = Vec::new();
        out.append(&mut self.outbound);
        assert(outbound_views(out@) =~= old(self)@.outbound);
        assert(outbound_views(self.outbound@) =~= Seq::empty());
        out
    }

    /// The number of pending transactions.
    pub fn pending(&self) -> (r: usize)
        requires
            self.wf(),
        ensures
            r == self@.pool.entries.len(),
    {
        self.pool.len()
    }
}

} // verus!
