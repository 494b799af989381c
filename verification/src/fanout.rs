//! Notification fanout: one bounded queue per subscriber.
//!
//! Publication never waits for a subscriber. A subscriber that falls behind
//! by more than its buffer loses the oldest of its undelivered events.

use vstd::prelude::*;
use std::collections::VecDeque;
use crate::order::{
    is_subsequence, subsequence_of_extension, subsequence_push_both, subsequence_push_right, subsequence_remove,
    subsequence_transitive,
};

verus! {

/// A queue cut down to its newest `buffer` events.
pub open spec fn trim<T>(queue: Seq<T>, buffer: nat) -> Seq<T> {
    if queue.len() > buffer {
        queue.skip(queue.len() - buffer)
    } else {
        queue
    }
}

/// A subscriber's queue after `event` was published.
pub open spec fn deliver<T>(queue: Seq<T>, event: T, buffer: nat) -> Seq<T> {
    trim(queue.push(event), buffer)
}

/// A subscriber's queue after `events` were published, one after another.
pub open spec fn deliver_all<T>(queue: Seq<T>, events: Seq<T>, buffer: nat) -> Seq<T>
    decreases events.len(),
{
    if events.len() == 0 {
        queue
    } else {
        deliver(deliver_all(queue, events.drop_last(), buffer), events.last(), buffer)
    }
}

/// Delivery keeps the order of publication: what waits for a subscriber
/// after `events` were published is the newest part of what waited before
/// followed by `events`. Nothing is reordered or doubled; only the oldest are
/// lost, and none is lost while the buffer has room.
pub proof fn delivery_keeps_order<T>(queue: Seq<T>, events: Seq<T>, buffer: nat)
    requires
        queue.len() <= buffer,
    ensures
        ({
            let all = queue + events;
            let kept = if all.len() <= buffer { all.len() } else { buffer };
            deliver_all(queue, events, buffer) == all.skip(all.len() - kept)
        }),
    decreases events.len(),
{
    let all = queue + events;
    if events.len() == 0 {
        assert(all =~= queue);
        assert(all.skip(0) =~= all);
    } else {
        let front = events.drop_last();
        let earlier = queue + front;
        delivery_keeps_order(queue, front, buffer);
        assert(all =~= earlier.push(events.last()));
        let kept_earlier = if earlier.len() <= buffer { earlier.len() } else { buffer };
        let waiting = earlier.skip(earlier.len() - kept_earlier);
        let kept = if all.len() <= buffer { all.len() } else { buffer };
        assert(deliver(waiting, events.last(), buffer) =~= all.skip(all.len() - kept));
    }
}

/// What happens to one subscriber's queue.
pub enum QueueOp<T> {
    /// An event is published.
    Publish(T),
    /// The subscriber polls.
    Poll,
}

/// The life of one subscriber's queue so far.
pub struct QueueHistory<T> {
    /// What was published since the subscription, in order.
    pub published: Seq<T>,
    /// What the subscriber has polled, in order.
    pub polled: Seq<T>,
    /// What waits in the queue, oldest first.
    pub waiting: Seq<T>,
}

/// The life of a queue that starts empty and goes through `ops`.
pub open spec fn queue_history<T>(ops: Seq<QueueOp<T>>, buffer: nat) -> QueueHistory<T>
    decreases ops.len(),
{
    if ops.len() == 0 {
        QueueHistory { published: Seq::empty(), polled: Seq::empty(), waiting: Seq::empty() }
    } else {
        let before = queue_history(ops.drop_last(), buffer);
        match ops.last() {
            QueueOp::Publish(event) => QueueHistory {
                published: before.published.push(event),
                waiting: deliver(before.waiting, event, buffer),
                ..before
            },
            QueueOp::Poll => if before.waiting.len() > 0 {
                QueueHistory {
                    polled: before.polled.push(before.waiting[0]),
                    waiting: before.waiting.drop_first(),
                    ..before
                }
            } else {
                before
            },
        }
    }
}

/// Best-effort delivery in order: whatever a subscriber polls and whenever,
/// what it has polled, followed by what still waits for it, is what was
/// published since it subscribed with some events left out. Nothing is
/// reordered, doubled or made up.
pub proof fn subscriber_sees_a_subsequence<T>(ops: Seq<QueueOp<T>>, buffer: nat)
    ensures
        queue_history(ops, buffer).waiting.len() <= buffer,
        is_subsequence(
            queue_history(ops, buffer).polled + queue_history(ops, buffer).waiting,
            queue_history(ops, buffer).published,
        ),
        is_subsequence(queue_history(ops, buffer).polled, queue_history(ops, buffer).published),
    decreases ops.len(),
{
    let now = queue_history(ops, buffer);
    if ops.len() == 0 {
        assert(now.polled + now.waiting =~= Seq::<T>::empty());
    } else {
        let before = queue_history(ops.drop_last(), buffer);
        let held = before.polled + before.waiting;
        subscriber_sees_a_subsequence(ops.drop_last(), buffer);
        match ops.last() {
            QueueOp::Publish(event) => {
                if before.waiting.len() + 1 > buffer {
                    if buffer == 0 {
                        assert(now.waiting =~= Seq::<T>::empty());
                        assert(before.waiting =~= Seq::<T>::empty());
                        assert(now.polled + now.waiting =~= held);
                        subsequence_push_right(held, before.published, event);
                    } else {
                        let oldest = before.polled.len() as int;
                        subsequence_remove(held, oldest, before.published);
                        subsequence_push_both(held.remove(oldest), before.published, event);
                        assert(now.polled + now.waiting =~= held.remove(oldest).push(event));
                    }
                } else {
                    subsequence_push_both(held, before.published, event);
                    assert(now.polled + now.waiting =~= held.push(event));
                }
            },
            QueueOp::Poll => {
                assert(now.polled + now.waiting =~= held);
            },
        }
    }
    subsequence_of_extension(now.polled, now.waiting);
    subsequence_transitive(now.polled, now.polled + now.waiting, now.published);
}

/// The undelivered events of one subscriber.
struct Mailbox<T> {
    handle: u64,
    queue: VecDeque<T>,
}

/// Whether a mailbox with this handle exists.
spec fn has<T>(boxes: Seq<Mailbox<T>>, handle: u64) -> bool {
    exists|i: int| 0 <= i < boxes.len() && (#[trigger] boxes[i]).handle == handle
}

/// The position of a mailbox with this handle.
spec fn place<T>(boxes: Seq<Mailbox<T>>, handle: u64) -> int {
    choose|i: int| 0 <= i < boxes.len() && (#[trigger] boxes[i]).handle == handle
}

/// The queues by handle.
spec fn queues<T>(boxes: Seq<Mailbox<T>>) -> Map<u64, Seq<T>> {
    Map::new(|h: u64| has(boxes, h), |h: u64| boxes[place(boxes, h)].queue@)
}

/// Handles grow along the list and stay below `next`.
spec fn ascending<T>(boxes: Seq<Mailbox<T>>, next: u64) -> bool {
    &&& forall|i: int, j: int| 0 <= i < j < boxes.len() ==> (#[trigger] boxes[i]).handle < (#[trigger] boxes[j]).handle
    &&& forall|i: int| 0 <= i < boxes.len() ==> (#[trigger] boxes[i]).handle < next
}

proof fn lemma_place<T>(boxes: Seq<Mailbox<T>>, next: u64, i: int)
    requires
        ascending(boxes, next),
        0 <= i < boxes.len(),
    ensures
        has(boxes, boxes[i].handle),
        place(boxes, boxes[i].handle) == i,
        queues(boxes).contains_key(boxes[i].handle),
        queues(boxes)[boxes[i].handle] == boxes[i].queue@,
{
    let k = place(boxes, boxes[i].handle);
    assert(boxes[k].handle == boxes[i].handle);
    if k < i {
        assert(boxes[k].handle < boxes[i].handle);
    } else if i < k {
        assert(boxes[i].handle < boxes[k].handle);
    }
}

/// A broadcast stream with any number of subscribers.
pub struct Fanout<T> {
    boxes: Vec<Mailbox<T>>,
    buffer: usize,
    next: u64,
}

impl<T> View for Fanout<T> {
    type V = Map<u64, Seq<T>>;

    /// The undelivered events of each subscriber, oldest first, by handle.
    closed spec fn view(&self) -> Map<u64, Seq<T>> {
        queues(self.boxes@)
    }
}

impl<T: Copy> Fanout<T> {
    /// The number of undelivered events that each subscriber may have.
    pub closed spec fn buffer(&self) -> nat {
        self.buffer as nat
    }

    /// The number of handles given out so far. Handles are given out in
    /// order, starting at zero, and never again once closed.
    pub closed spec fn issued(&self) -> nat {
        self.next as nat
    }

    /// The invariant of the stream: handles are unique, and no queue is
    /// longer than the buffer.
    pub closed spec fn wf(&self) -> bool {
        &&& ascending(self.boxes@, self.next)
        &&& forall|i: int| 0 <= i < self.boxes@.len() ==> (#[trigger] self.boxes@[i]).queue@.len() <= self.buffer
    }

    /// No subscriber has more undelivered events than the buffer allows.
    pub proof fn queues_are_bounded(&self, handle: u64)
        requires
            self.wf(),
            self@.contains_key(handle),
        ensures
            self@[handle].len() <= self.buffer(),
    {
        let i = place(self.boxes@, handle);
        assert(self.boxes@[i].handle == handle);
    }

    /// A stream without subscribers.
    pub fn new(buffer: usize) -> (r: Fanout<T>)
        ensures
            r.wf(),
            r.buffer() == buffer,
            r.issued() == 0,
            r@ == Map::<u64, Seq<T>>::empty(),
    {
        let r = Fanout { boxes: Vec::new(), buffer, next: 0 };
        assert(r@ =~= Map::<u64, Seq<T>>::empty());
        r
    }

    /// The position of the mailbox with this handle.
    fn locate(&self, handle: u64) -> (r: Option<usize>)
        requires
            self.wf(),
        ensures
            match r {
                Some(i) => i < self.boxes@.len() && self.boxes@[i as int].handle == handle && self@.contains_key(handle)
                    && self@[handle] == self.boxes@[i as int].queue@,
                None => !self@.contains_key(handle),
            },
    {
        let mut i: usize = 0;
        while i < self.boxes.len()
            invariant
                self.wf(),
                i <= self.boxes@.len(),
                forall|j: int| 0 <= j < i ==> (#[trigger] self.boxes@[j]).handle != handle,
            decreases self.boxes@.len() - i,
        {
            if self.boxes[i].handle == handle {
                proof {
                    lemma_place(self.boxes@, self.next, i as int);
                }
                return Some(i);
            }
            i += 1;
        }
        None
    }

    /// Opens a new, empty queue and returns its handle: the number of
    /// handles given out before. Returns `None`, and changes nothing, once
    /// `u64::MAX` handles have been given out.
    pub fn subscribe(&mut self) -> (r: Option<u64>)
        requires
            old(self).wf(),
        ensures
            final(self).wf(),
            final(self).buffer() == old(self).buffer(),
            r == (if old(self).issued() < u64::MAX {
                Some(old(self).issued() as u64)
            } else {
                None
            }),
            match r {
                Some(handle) => {
                    &&& !old(self)@.contains_key(handle)
                    &&& final(self)@ == old(self)@.insert(handle, Seq::empty())
                    &&& final(self).issued() == old(self).issued() + 1
                },
                None => final(self)@ == old(self)@ && final(self).issued() == old(self).issued(),
            },
    {
        if self.next == u64::MAX {
            return None;
        }
        let handle = self.next;
        let ghost before = self.boxes@;
        self.boxes.push(Mailbox { handle, queue: VecDeque::new() });
        self.next = handle + 1;
        proof {
            let after = self.boxes@;
            let n = before.len() as int;
            assert(ascending(after, self.next)) by {
                assert forall|i: int, j: int| 0 <= i < j < after.len() implies (#[trigger] after[i]).handle < (#[trigger] after[j]).handle by {
                    if j < n {
                        assert(before[i].handle < before[j].handle);
                    } else {
                        assert(before[i].handle < handle);
                    }
                }
                assert forall|i: int| 0 <= i < after.len() implies (#[trigger] after[i]).handle < self.next by {
                    if i < n {
                        assert(before[i].handle < handle);
                    }
                }
            }
            if has(before, handle) {
                let k = place(before, handle);
                assert(before[k].handle < handle);
            }
            assert forall|h: u64| has(after, h) == (has(before, h) || h == handle) by {
                if has(before, h) {
                    let k = place(before, h);
                    assert(after[k].handle == h);
                }
                if has(after, h) {
                    let k = place(after, h);
                    if k < n {
                        assert(before[k].handle == h);
                    }
                }
                assert(after[n].handle == handle);
            }
            assert forall|h: u64| has(after, h) implies queues(after)[h] == (if h == handle {
                Seq::<T>::empty()
            } else {
                queues(before)[h]
            }) by {
                let k = place(after, h);
                lemma_place(after, self.next, k);
                if k < n {
                    lemma_place(before, handle, k);
                }
            }
            assert(queues(after) =~= queues(before).insert(handle, Seq::empty()));
            assert forall|i: int| 0 <= i < after.len() implies (#[trigger] after[i]).queue@.len() <= self.buffer by {
                if i < n {
                    assert(before[i].queue@.len() <= self.buffer);
                }
            }
        }
        Some(handle)
    }

    /// Closes the queue with this handle. Returns whether there was one.
    pub fn unsubscribe(&mut self, handle: u64) -> (r: bool)
        requires
            old(self).wf(),
        ensures
            final(self).wf(),
            final(self).buffer() == old(self).buffer(),
            final(self).issued() == old(self).issued(),
            r == old(self)@.contains_key(handle),
            final(self)@ == old(self)@.remove(handle),
    {
        let ghost before = self.boxes@;
        match self.locate(handle) {
            Some(at) => {
                self.boxes.remove(at);
                proof {
                    let after = self.boxes@;
                    assert(ascending(after, self.next)) by {
                        assert forall|i: int, j: int| 0 <= i < j < after.len() implies (#[trigger] after[i]).handle < (#[trigger] after[j]).handle by {
                            let i0 = if i < at { i } else { i + 1 };
                            let j0 = if j < at { j } else { j + 1 };
                            assert(before[i0].handle < before[j0].handle);
                        }
                        assert forall|i: int| 0 <= i < after.len() implies (#[trigger] after[i]).handle < self.next by {
                            let i0 = if i < at { i } else { i + 1 };
                            assert(before[i0].handle < self.next);
                        }
                    }
                    assert forall|h: u64| has(after, h) == (has(before, h) && h != handle) by {
                        if has(before, h) && h != handle {
                            let k = place(before, h);
                            let k1 = if k < at { k } else { k - 1 };
                            assert(after[k1].handle == h);
                        }
                        if has(after, h) {
                            let k = place(after, h);
                            let k0 = if k < at { k } else { k + 1 };
                            assert(before[k0].handle == h);
                            if k0 < at {
                                assert(before[k0].handle < before[at as int].handle);
                            } else {
                                assert(before[at as int].handle < before[k0].handle);
                            }
                        }
                    }
                    assert forall|h: u64| has(after, h) implies queues(after)[h] == queues(before)[h] by {
                        let k = place(after, h);
                        let k0 = if k < at { k } else { k + 1 };
                        lemma_place(after, self.next, k);
                        lemma_place(before, self.next, k0);
                    }
                    assert(queues(after) =~= queues(before).remove(handle));
                    assert forall|i: int| 0 <= i < after.len() implies (#[trigger] after[i]).queue@.len() <= self.buffer by {
                        let i0 = if i < at { i } else { i + 1 };
                        assert(before[i0].queue@.len() <= self.buffer);
                    }
                }
                true
            },
            None => {
                assert(queues(before) =~= queues(before).remove(handle));
                false
            },
        }
    }

    /// Whether a queue with this handle is open.
    pub fn is_subscribed(&self, handle: u64) -> (r: bool)
        requires
            self.wf(),
        ensures
            r == self@.contains_key(handle),
    {
        self.locate(handle).is_some()
    }

    /// Appends `event` to every open queue. A queue that would grow beyond
    /// the buffer loses its oldest event.
    pub fn publish(&mut self, event: T)
        requires
            old(self).wf(),
        ensures
            final(self).wf(),
            final(self).buffer() == old(self).buffer(),
            final(self).issued() == old(self).issued(),
            final(self)@ == old(self)@.map_values(|q: Seq<T>| deliver(q, event, old(self).buffer())),
    {
        let ghost before = self.boxes@;
        let ghost buffer = self.buffer as nat;
        let mut i: usize = 0;
        while i < self.boxes.len()
            invariant
                i <= self.boxes@.len(),
                self.boxes@.len() == before.len(),
                self.buffer == buffer,
                self.next == old(self).next,
                forall|j: int| 0 <= j < before.len() ==> (#[trigger] self.boxes@[j]).handle == before[j].handle,
                forall|j: int| 0 <= j < i ==> (#[trigger] self.boxes@[j]).queue@ == deliver(before[j].queue@, event, buffer),
                forall|j: int| i <= j < before.len() ==> (#[trigger] self.boxes@[j]).queue@ == before[j].queue@,
                forall|j: int| 0 <= j < before.len() ==> (#[trigger] before[j]).queue@.len() <= buffer,
            decreases self.boxes@.len() - i,
        {
            let ghost q0 = self.boxes@[i as int].queue@;
            let mailbox = &mut self.boxes[i];
            mailbox.queue.push_back(event);
            if mailbox.queue.len() > self.buffer {
                mailbox.queue.pop_front();
            }
            assert(self.boxes@[i as int].queue@ =~= deliver(q0, event, buffer));
            i += 1;
        }
        proof {
            let after = self.boxes@;
            assert(ascending(after, self.next)) by {
                assert forall|a: int, b: int| 0 <= a < b < after.len() implies (#[trigger] after[a]).handle < (#[trigger] after[b]).handle by {
                    assert(before[a].handle < before[b].handle);
                }
                assert forall|a: int| 0 <= a < after.len() implies (#[trigger] after[a]).handle < self.next by {
                    assert(before[a].handle < self.next);
                }
            }
            assert forall|h: u64| has(after, h) == has(before, h) by {
                if has(before, h) {
                    let k = place(before, h);
                    assert(after[k].handle == h);
                }
                if has(after, h) {
                    let k = place(after, h);
                    assert(before[k].handle == h);
                }
            }
            assert forall|h: u64| has(after, h) implies queues(after)[h] == deliver(queues(before)[h], event, buffer) by {
                let k = place(after, h);
                lemma_place(after, self.next, k);
                lemma_place(before, self.next, k);
            }
            assert(queues(after) =~= queues(before).map_values(|q: Seq<T>| deliver(q, event, buffer)));
        }
    }

    /// Takes the oldest undelivered event of a subscriber. Returns `None`,
    /// and changes nothing, if the handle is not open or its queue is empty.
    pub fn poll(&mut self, handle: u64) -> (r: Option<T>)
        requires
            old(self).wf(),
        ensures
            final(self).wf(),
            final(self).buffer() == old(self).buffer(),
            final(self).issued() == old(self).issued(),
            match r {
                Some(event) => old(self)@.contains_key(handle) && old(self)@[handle].len() > 0 && event == old(self)@[handle][0]
                    && final(self)@ == old(self)@.insert(handle, old(self)@[handle].drop_first()),
                None => final(self)@ == old(self)@ && (old(self)@.contains_key(handle) ==> old(self)@[handle].len() == 0),
            },
    {
        let ghost before = self.boxes@;
        match self.locate(handle) {
            Some(at) => {
                let event = self.boxes[at].queue.pop_front();
                let ghost rest = self.boxes@[at as int].queue@;
                proof {
                    let after = self.boxes@;
                    assert(rest =~= if event is Some { before[at as int].queue@.drop_first() } else { before[at as int].queue@ });
                    assert forall|j: int| 0 <= j < after.len() implies (#[trigger] after[j]).handle == before[j].handle by {}
                    assert(ascending(after, self.next)) by {
                        assert forall|a: int, b: int| 0 <= a < b < after.len() implies (#[trigger] after[a]).handle < (#[trigger] after[b]).handle by {
                            assert(before[a].handle < before[b].handle);
                        }
                        assert forall|a: int| 0 <= a < after.len() implies (#[trigger] after[a]).handle < self.next by {
                            assert(before[a].handle < self.next);
                        }
                    }
                    assert forall|h: u64| has(after, h) == has(before, h) by {
                        if has(before, h) {
                            let k = place(before, h);
                            assert(after[k].handle == h);
                        }
                        if has(after, h) {
                            let k = place(after, h);
                            assert(before[k].handle == h);
                        }
                    }
                    assert forall|h: u64| has(after, h) implies queues(after)[h] == (if h == handle {
                        rest
                    } else {
                        queues(before)[h]
                    }) by {
                        let k = place(after, h);
                        lemma_place(after, self.next, k);
                        lemma_place(before, self.next, k);
                    }
                    assert(queues(after) =~= queues(before).insert(handle, rest));
                    assert forall|j: int| 0 <= j < after.len() implies (#[trigger] after[j]).queue@.len() <= self.buffer by {
                        assert(before[j].queue@.len() <= self.buffer);
                    }
                }
                event
            },
            None => None,
        }
    }
}

} // verus!
