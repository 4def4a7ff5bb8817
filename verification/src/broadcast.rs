//! The subscription broadcaster: who is observing the canvas, and which
//! change messages each observer is owed.
//!
//! The broadcaster decides; it sends nothing itself. Every committed change
//! yields one message per current subscriber, and whoever delivers them
//! reports a dead channel back so that the subscriber is dropped.

use crate::store::CanvasStore;
use crate::types::pixel_views;
use crate::types::CanvasError;
use crate::types::ChangeLogEntry;
use crate::types::EntryView;
use crate::types::Pixel;
use spacetimedb::Identity;
use vstd::prelude::*;

verus! {

/// A connected observer.
#[derive(Clone, Copy, Debug, PartialEq, Eq)]
pub struct Subscriber {
    /// The handle that `subscribe` gave out.
    pub handle: u64,
    /// Who is observing.
    pub identity: Identity,
    /// The number of the newest change that the snapshot at subscription
    /// already showed.
    pub since: u64,
    /// The number of the newest change sent to this subscriber.
    pub last_delivered_sequence: u64,
}

/// One change message addressed to one subscriber.
#[derive(Debug, PartialEq, Eq)]
pub struct Delivery {
    pub handle: u64,
    pub entry: ChangeLogEntry,
}

/// The mathematical value of a [`Delivery`].
pub struct DeliveryView {
    pub handle: u64,
    pub entry: EntryView,
}

impl View for Delivery {
    type V = DeliveryView;

    open spec fn view(&self) -> DeliveryView {
        DeliveryView { handle: self.handle, entry: self.entry@ }
    }
}

/// The values of a run of deliveries.
pub open spec fn delivery_views(deliveries: Seq<Delivery>) -> Seq<DeliveryView> {
    deliveries.map_values(|d: Delivery| d@)
}

/// The numbers `after + 1, after + 2, ..., upto`, ascending.
pub open spec fn run(after: nat, upto: nat) -> Seq<nat> {
    Seq::new(
        if after <= upto {
            (upto - after) as nat
        } else {
            0
        },
        |k: int| (after + 1 + k) as nat,
    )
}

/// The sequence numbers that a subscriber has been sent, in the order in
/// which they were sent.
pub open spec fn received(subscriber: Subscriber) -> Seq<nat> {
    run(subscriber.since as nat, subscriber.last_delivered_sequence as nat)
}

/// The part of a run of sequence numbers that falls into `lo < n <= hi`.
pub open spec fn within(numbers: Seq<nat>, lo: nat, hi: nat) -> Seq<nat> {
    numbers.filter(|n: nat| lo < n <= hi)
}

/// One message about `entry` for each subscriber, in the subscribers' order.
pub open spec fn fan_out(subscribers: Seq<Subscriber>, entry: EntryView) -> Seq<DeliveryView> {
    Seq::new(
        subscribers.len(),
        |i: int| DeliveryView { handle: subscribers[i].handle, entry },
    )
}

/// The subscribers after each has been sent the change numbered `sequence`.
pub open spec fn advanced(subscribers: Seq<Subscriber>, sequence: u64) -> Seq<Subscriber> {
    Seq::new(
        subscribers.len(),
        |i: int|
            Subscriber {
                handle: subscribers[i].handle,
                identity: subscribers[i].identity,
                since: subscribers[i].since,
                last_delivered_sequence: sequence,
            },
    )
}

/// Whether some subscriber holds `handle`.
pub open spec fn has_handle(subscribers: Seq<Subscriber>, handle: u64) -> bool {
    exists|i: int| 0 <= i < subscribers.len() && (#[trigger] subscribers[i]).handle == handle
}

/// The place of the subscriber that holds `handle`, where there is one.
pub open spec fn handle_index(subscribers: Seq<Subscriber>, handle: u64) -> int {
    choose|i: int| 0 <= i < subscribers.len() && (#[trigger] subscribers[i]).handle == handle
}

/// The subscribers without the one that holds `handle`.
pub open spec fn without(subscribers: Seq<Subscriber>, handle: u64) -> Seq<Subscriber> {
    if has_handle(subscribers, handle) {
        subscribers.remove(handle_index(subscribers, handle))
    } else {
        subscribers
    }
}

/// Handles ascend in subscription order and stay below `next_handle`; every
/// subscriber has been sent everything up to `head`.
pub open spec fn subscribers_ok(subscribers: Seq<Subscriber>, next_handle: nat, head: nat) -> bool {
    &&& forall|i: int|
        0 <= i < subscribers.len() ==> {
            &&& (#[trigger] subscribers[i]).handle < next_handle
            &&& subscribers[i].since <= subscribers[i].last_delivered_sequence
            &&& subscribers[i].last_delivered_sequence == head
        }
    &&& forall|i: int, j: int|
        #![trigger subscribers[i], subscribers[j]]
        0 <= i < j < subscribers.len() ==> subscribers[i].handle < subscribers[j].handle
}

/// Fans committed changes out to the current subscribers.
pub struct Broadcaster {
    subscribers: Vec<Subscriber>,
    next_handle: u64,
    head: u64,
}

impl Broadcaster {
    /// The current subscribers, in subscription order.
    pub closed spec fn subscribers(&self) -> Seq<Subscriber> {
        self.subscribers@
    }

    /// The number of the newest change that was fanned out.
    pub closed spec fn spec_head(&self) -> u64 {
        self.head
    }

    /// The handle that the next subscriber will get.
    pub closed spec fn next_handle(&self) -> nat {
        self.next_handle as nat
    }

    /// Handles are distinct and every subscriber is up to date with the head.
    pub open spec fn wf(&self) -> bool {
        subscribers_ok(self.subscribers(), self.next_handle(), self.spec_head() as nat)
    }

    /// Whether another handle can be given out.
    pub open spec fn can_subscribe(&self) -> bool {
        self.next_handle() < u64::MAX
    }

    /// A broadcaster without subscribers, for a log whose newest entry is
    /// numbered `head`.
    pub fn new(head: u64) -> (broadcaster: Self)
        ensures
            broadcaster.wf(),
            broadcaster.subscribers() == Seq::<Subscriber>::empty(),
            broadcaster.spec_head() == head,
            broadcaster.next_handle() == 1,
    {
        Broadcaster { subscribers: Vec::new(), next_handle: 1, head }
    }

    /// The number of the newest change that was fanned out.
    #[verifier::when_used_as_spec(spec_head)]
    pub fn head(&self) -> (head: u64)
        ensures
            head == self.spec_head(),
    {
        self.head
    }

    /// Whether another handle can be given out.
    pub fn has_free_handle(&self) -> (free: bool)
        ensures
            free == self.can_subscribe(),
    {
        self.next_handle < u64::MAX
    }

    /// How many subscribers there are.
    pub fn subscriber_count(&self) -> (n: usize)
        ensures
            n == self.subscribers().len(),
    {
        self.subscribers.len()
    }

    /// Where the subscriber with `handle` stands, if there is one.
    fn find(&self, handle: u64) -> (found: Option<usize>)
        requires
            self.wf(),
        ensures
            match found {
                Some(i) => has_handle(self.subscribers(), handle) && i == handle_index(
                    self.subscribers(),
                    handle,
                ) && i < self.subscribers().len(),
                None => !has_handle(self.subscribers(), handle),
            },
    {
        let mut i: usize = 0;
        while i < self.subscribers.len()
            invariant
                self.wf(),
                i <= self.subscribers.len(),
                forall|j: int| 0 <= j < i ==> (#[trigger] self.subscribers@[j]).handle != handle,
            decreases self.subscribers.len() - i,
        {
            if self.subscribers[i].handle == handle {
                proof {
                    assert(self.subscribers()[i as int].handle == handle);
                    let k = handle_index(self.subscribers(), handle);
                    if k < i {
                        assert(self.subscribers@[k].handle < self.subscribers@[i as int].handle);
                    } else if i < k {
                        assert(self.subscribers@[i as int].handle < self.subscribers@[k].handle);
                    }
                }
                return Some(i);
            }
            i += 1;
        }
        None
    }

    /// The subscriber that holds `handle`, if there is one.
    pub fn subscriber(&self, handle: u64) -> (found: Option<Subscriber>)
        requires
            self.wf(),
        ensures
            match found {
                Some(s) => has_handle(self.subscribers(), handle) && s == self.subscribers()[handle_index(
                    self.subscribers(),
                    handle,
                )],
                None => !has_handle(self.subscribers(), handle),
            },
    {
        match self.find(handle) {
            Some(i) => Some(self.subscribers[i]),
            None => None,
        }
    }

    /// Registers an observer: hands out a snapshot of `store` and a fresh
    /// handle. The new subscriber is owed every change after the current head.
    pub fn subscribe(&mut self, identity: Identity, store: &CanvasStore) -> (joined: (
        Vec<Pixel>,
        u64,
    ))
        requires
            old(self).wf(),
            old(self).can_subscribe(),
        ensures
            final(self).wf(),
            pixel_views(joined.0@) == store.rows(),
            joined.1 == old(self).next_handle(),
            !has_handle(old(self).subscribers(), joined.1),
            final(self).subscribers() == old(self).subscribers().push(
                Subscriber {
                    handle: joined.1,
                    identity,
                    since: old(self).spec_head(),
                    last_delivered_sequence: old(self).spec_head(),
                },
            ),
            final(self).spec_head() == old(self).spec_head(),
            final(self).next_handle() == old(self).next_handle() + 1,
    {
        let handle: u64 = self.next_handle;
        let snapshot = store.snapshot();
        self.subscribers.push(
            Subscriber { handle, identity, since: self.head, last_delivered_sequence: self.head },
        );
        self.next_handle = handle + 1;
        (snapshot, handle)
    }

    /// Fans the next committed change out: one message for every current
    /// subscriber, each of whom has then been sent everything up to `entry`.
    pub fn on_commit(&mut self, entry: &ChangeLogEntry) -> (deliveries: Vec<Delivery>)
        requires
            old(self).wf(),
            entry@.sequence == old(self).spec_head() + 1,
        ensures
            final(self).wf(),
            final(self).spec_head() == entry@.sequence,
            final(self).next_handle() == old(self).next_handle(),
            final(self).subscribers() == advanced(old(self).subscribers(), entry.sequence),
            delivery_views(deliveries@) == fan_out(old(self).subscribers(), entry@),
            forall|i: int|
                0 <= i < old(self).subscribers().len() ==> received(
                    #[trigger] final(self).subscribers()[i],
                ) == received(old(self).subscribers()[i]).push(entry@.sequence),
    {
        let mut deliveries: Vec<Delivery> = Vec::new();
        let n: usize = self.subscribers.len();
        let mut i: usize = 0;
        while i < n
            invariant
                n == old(self).subscribers@.len(),
                self.subscribers@.len() == n,
                i <= n,
                self.next_handle == old(self).next_handle,
                self.head == old(self).head,
                deliveries@.len() == i,
                forall|k: int|
                    0 <= k < i ==> (#[trigger] deliveries@[k])@ == (DeliveryView {
                        handle: old(self).subscribers@[k].handle,
                        entry: entry@,
                    }),
                forall|k: int|
                    0 <= k < i ==> #[trigger] self.subscribers@[k] == advanced(
                        old(self).subscribers@,
                        entry.sequence,
                    )[k],
                forall|k: int|
                    i <= k < n ==> #[trigger] self.subscribers@[k] == old(self).subscribers@[k],
            decreases n - i,
        {
            let handle: u64 = self.subscribers[i].handle;
            self.subscribers[i].last_delivered_sequence = entry.sequence;
            deliveries.push(Delivery { handle, entry: entry.clone() });
            i += 1;
        }
        self.head = entry.sequence;
        proof {
            assert(self.subscribers() =~= advanced(old(self).subscribers(), entry.sequence));
            assert(delivery_views(deliveries@) =~= fan_out(old(self).subscribers(), entry@));
            assert forall|k: int| 0 <= k < n implies received(
                #[trigger] self.subscribers()[k],
            ) == received(old(self).subscribers()[k]).push(entry@.sequence) by {
                assert(received(self.subscribers()[k]) =~= received(
                    old(self).subscribers()[k],
                ).push(entry@.sequence));
            }
        }
        deliveries
    }

    /// Removes the subscriber that holds `handle` and says whether there was
    /// one. Removing a handle twice is the same as removing it once.
    pub fn unsubscribe(&mut self, handle: u64) -> (removed: bool)
        requires
            old(self).wf(),
        ensures
            final(self).wf(),
            removed == has_handle(old(self).subscribers(), handle),
            final(self).subscribers() == without(old(self).subscribers(), handle),
            !has_handle(final(self).subscribers(), handle),
            final(self).spec_head() == old(self).spec_head(),
            final(self).next_handle() == old(self).next_handle(),
    {
        match self.find(handle) {
            Some(i) => {
                self.subscribers.remove(i);
                proof {
                    let before = old(self).subscribers();
                    let after = self.subscribers();
                    assert forall|a: int, b: int|
                        #![trigger after[a], after[b]]
                        0 <= a < b < after.len() implies after[a].handle < after[b].handle by {
                        let a0 = if a < i { a } else { a + 1 };
                        let b0 = if b < i { b } else { b + 1 };
                        assert(before[a0].handle < before[b0].handle);
                    }
                    assert forall|a: int| 0 <= a < after.len() implies (#[trigger] after[a]).handle
                        != handle by {
                        let a0 = if a < i { a } else { a + 1 };
                        if a0 < i {
                            assert(before[a0].handle < before[i as int].handle);
                        } else {
                            assert(before[i as int].handle < before[a0].handle);
                        }
                    }
                }
                true
            },
            None => false,
        }
    }

    /// Takes note of how sending to `handle` went. A subscriber whose channel
    /// is unavailable is dropped; any other outcome changes nothing.
    pub fn report_delivery(&mut self, handle: u64, outcome: Result<(), CanvasError>) -> (dropped:
        bool)
        requires
            old(self).wf(),
        ensures
            final(self).wf(),
            final(self).spec_head() == old(self).spec_head(),
            final(self).next_handle() == old(self).next_handle(),
            outcome == Err::<(), CanvasError>(CanvasError::SubscriberUnavailable) ==> dropped
                == has_handle(old(self).subscribers(), handle) && final(self).subscribers()
                == without(old(self).subscribers(), handle),
            outcome != Err::<(), CanvasError>(CanvasError::SubscriberUnavailable) ==> !dropped
                && final(self).subscribers() == old(self).subscribers(),
    {
        match outcome {
            Err(CanvasError::SubscriberUnavailable) => self.unsubscribe(handle),
            _ => false,
        }
    }
}

/// Filtering an ascending run of numbers by an interval leaves the part of
/// the run that lies in the interval.
pub proof fn lemma_within_run(after: nat, upto: nat, lo: nat, hi: nat)
    requires
        after <= upto,
    ensures
        within(run(after, upto), lo, hi) == if after <= lo {
            if hi <= upto {
                run(lo, hi)
            } else {
                run(lo, upto)
            }
        } else {
            if hi <= upto {
                run(after, hi)
            } else {
                run(after, upto)
            }
        },
    decreases upto - after,
{
    reveal(Seq::filter);
    let pred = |n: nat| lo < n <= hi;
    if upto == after {
        assert(run(after, upto).filter(pred) =~= Seq::<nat>::empty());
        assert(within(run(after, upto), lo, hi) =~= Seq::<nat>::empty());
    } else {
        let shorter = (upto - 1) as nat;
        lemma_within_run(after, shorter, lo, hi);
        assert(run(after, upto).drop_last() =~= run(after, shorter));
        assert(run(after, upto).last() == upto);
        let kept = run(after, shorter).filter(pred);
        if pred(upto) {
            assert(run(after, upto).filter(pred) == kept.push(upto));
            if after <= lo {
                assert(kept.push(upto) =~= run(lo, upto));
            } else {
                assert(kept.push(upto) =~= run(after, upto));
            }
        } else {
            assert(run(after, upto).filter(pred) == kept);
            if after <= lo {
                if hi <= upto {
                    assert(kept =~= run(lo, hi));
                } else {
                    assert(kept =~= run(lo, upto));
                }
            } else {
                if hi <= upto {
                    assert(kept =~= run(after, hi));
                } else {
                    assert(kept =~= run(after, upto));
                }
            }
        }
    }
}

} // verus!
