//! What holds of every well-formed canvas, whatever was done to it.

use crate::broadcast::fan_out;
use crate::broadcast::has_handle;
use crate::broadcast::lemma_within_run;
use crate::broadcast::received;
use crate::broadcast::run;
use crate::broadcast::within;
use crate::broadcast::Broadcaster;
use crate::broadcast::DeliveryView;
use crate::broadcast::Subscriber;
use crate::engine::first_fault;
use crate::engine::Canvas;
use crate::log::lemma_replay_last;
use crate::log::replay;
use crate::log::replay_rows;
use crate::types::EntryView;
use vstd::prelude::*;

verus! {

/// Convergence: the log of a canvas can be replayed from its first entry, and
/// replaying it onto an empty store yields the live store, row for row and so
/// colour for colour.
pub proof fn lemma_convergence(canvas: Canvas)
    requires
        canvas.wf(),
    ensures
        first_fault(
            canvas.store().spec_width(),
            canvas.store().spec_height(),
            canvas.colors(),
            canvas.log()@,
        ) is None,
        replay_rows(canvas.log()@) == canvas.store().rows(),
        replay(canvas.log()@) == canvas.store()@,
{
}

/// Last writer wins: where two committed changes write the same coordinate
/// and no later change writes it, the canvas shows the colour of the later of
/// the two.
pub proof fn lemma_last_writer_wins(canvas: Canvas, earlier: int, later: int)
    requires
        canvas.wf(),
        0 <= earlier < later < canvas.log()@.len(),
        canvas.log()@[earlier].x == canvas.log()@[later].x,
        canvas.log()@[earlier].y == canvas.log()@[later].y,
        forall|k: int|
            later < k < canvas.log()@.len() ==> !((#[trigger] canvas.log()@[k]).x
                == canvas.log()@[later].x && canvas.log()@[k].y == canvas.log()@[later].y),
    ensures
        canvas.store()@.contains_key((canvas.log()@[later].x, canvas.log()@[later].y)),
        canvas.store()@[(canvas.log()@[later].x, canvas.log()@[later].y)]
            == canvas.log()@[later].color,
{
    lemma_replay_last(canvas.log()@, later);
}

/// The sequence numbers of a run of entries.
pub open spec fn sequence_numbers(entries: Seq<EntryView>) -> Seq<nat> {
    entries.map_values(|e: EntryView| e.sequence)
}

/// A subscriber has been sent exactly the changes committed since it
/// subscribed, in commit order.
pub proof fn lemma_received_is_the_log_since(canvas: Canvas, i: int)
    requires
        canvas.wf(),
        0 <= i < canvas.broadcaster().subscribers().len(),
    ensures
        canvas.broadcaster().subscribers()[i].since <= canvas.log()@.len(),
        received(canvas.broadcaster().subscribers()[i]) == sequence_numbers(
            canvas.log()@.subrange(
                canvas.broadcaster().subscribers()[i].since as int,
                canvas.log()@.len() as int,
            ),
        ),
{
    let s = canvas.broadcaster().subscribers()[i];
    let tail = canvas.log()@.subrange(s.since as int, canvas.log()@.len() as int);
    assert forall|k: int| 0 <= k < tail.len() implies sequence_numbers(tail)[k] == received(
        s,
    )[k] by {
        assert(canvas.log()@[s.since + k].sequence == s.since + k + 1);
    }
    assert(received(s) =~= sequence_numbers(tail));
}

/// Any two subscribers that were both active while the changes numbered
/// `lo + 1` to `hi` were committed have been sent, of those changes, the same
/// sequence numbers: each number of the interval once, in ascending order.
pub proof fn lemma_total_order_delivery(
    broadcaster: Broadcaster,
    i: int,
    j: int,
    lo: nat,
    hi: nat,
)
    requires
        broadcaster.wf(),
        0 <= i < broadcaster.subscribers().len(),
        0 <= j < broadcaster.subscribers().len(),
        broadcaster.subscribers()[i].since <= lo,
        broadcaster.subscribers()[j].since <= lo,
        lo <= hi <= broadcaster.spec_head(),
    ensures
        within(received(broadcaster.subscribers()[i]), lo, hi) == within(
            received(broadcaster.subscribers()[j]),
            lo,
            hi,
        ),
        within(received(broadcaster.subscribers()[i]), lo, hi) == run(lo, hi),
        forall|a: int, b: int|
            0 <= a < b < run(lo, hi).len() ==> run(lo, hi)[a] < run(lo, hi)[b],
{
    let si = broadcaster.subscribers()[i];
    let sj = broadcaster.subscribers()[j];
    lemma_within_run(si.since as nat, si.last_delivered_sequence as nat, lo, hi);
    lemma_within_run(sj.since as nat, sj.last_delivered_sequence as nat, lo, hi);
}

/// The sequence numbers of the messages in `deliveries` that are addressed to
/// `handle`, in the order of the messages.
pub open spec fn sent_to(deliveries: Seq<DeliveryView>, handle: u64) -> Seq<nat> {
    deliveries.filter(|d: DeliveryView| d.handle == handle).map_values(
        |d: DeliveryView| d.entry.sequence,
    )
}

/// The sequence numbers that `handle` is sent over a run of commits, given
/// the messages of each commit, in the order of the commits.
pub open spec fn sent_over(commits: Seq<Seq<DeliveryView>>, handle: u64) -> Seq<nat>
    decreases commits.len(),
{
    if commits.len() == 0 {
        Seq::empty()
    } else {
        sent_over(commits.drop_last(), handle) + sent_to(commits.last(), handle)
    }
}

/// The messages of each commit of a run: `before[k]` is the broadcaster just
/// before the commit of `entries[k]`, which fans that entry out.
pub open spec fn messages(before: Seq<Broadcaster>, entries: Seq<EntryView>) -> Seq<
    Seq<DeliveryView>,
> {
    Seq::new(entries.len(), |k: int| fan_out(before[k].subscribers(), entries[k]))
}

/// The commits of a run follow one another: each entry is numbered one
/// higher than the head before its commit, and becomes the head before the
/// next one.
pub open spec fn consecutive(before: Seq<Broadcaster>, entries: Seq<EntryView>) -> bool {
    &&& before.len() == entries.len()
    &&& forall|k: int| 0 <= k < entries.len() ==> (#[trigger] before[k]).wf()
    &&& forall|k: int|
        0 <= k < entries.len() ==> (#[trigger] entries[k]).sequence == before[k].spec_head() + 1
    &&& forall|k: int|
        0 < k < entries.len() ==> (#[trigger] before[k]).spec_head() == entries[k - 1].sequence
}

/// Among subscribers with distinct handles, fanning an entry out sends its
/// number exactly once to a handle that is subscribed and not at all to one
/// that is not.
pub proof fn lemma_fan_out_once(subscribers: Seq<Subscriber>, entry: EntryView, handle: u64)
    requires
        forall|i: int, j: int|
            #![trigger subscribers[i], subscribers[j]]
            0 <= i < j < subscribers.len() ==> subscribers[i].handle != subscribers[j].handle,
    ensures
        sent_to(fan_out(subscribers, entry), handle) == if has_handle(subscribers, handle) {
            seq![entry.sequence]
        } else {
            Seq::<nat>::empty()
        },
    decreases subscribers.len(),
{
    reveal(Seq::filter);
    let mine = |d: DeliveryView| d.handle == handle;
    let all = fan_out(subscribers, entry);
    if subscribers.len() == 0 {
        assert(sent_to(all, handle) =~= Seq::<nat>::empty());
    } else {
        let front = subscribers.drop_last();
        let last = subscribers.len() - 1;
        assert(all.drop_last() =~= fan_out(front, entry));
        assert forall|i: int, j: int|
            #![trigger front[i], front[j]]
            0 <= i < j < front.len() implies front[i].handle != front[j].handle by {
            assert(subscribers[i].handle != subscribers[j].handle);
        }
        lemma_fan_out_once(front, entry, handle);
        if has_handle(front, handle) {
            let i = choose|i: int| 0 <= i < front.len() && (#[trigger] front[i]).handle == handle;
            assert(subscribers[i].handle == handle);
            assert(subscribers[i].handle != subscribers[last].handle);
        }
        if subscribers[last].handle == handle {
            assert(sent_to(fan_out(front, entry), handle).len() == 0);
            assert(all.drop_last().filter(mine) =~= Seq::<DeliveryView>::empty());
            assert(all.filter(mine) =~= seq![all.last()]);
            assert(sent_to(all, handle) =~= seq![entry.sequence]);
        } else {
            assert(all.filter(mine) == all.drop_last().filter(mine));
            if has_handle(subscribers, handle) {
                let i = choose|i: int|
                    0 <= i < subscribers.len() && (#[trigger] subscribers[i]).handle == handle;
                assert(front[i].handle == handle);
            }
        }
    }
}

/// Over a run of consecutive commits, the head before the `k`-th commit is
/// `k` higher than the head before the first.
proof fn lemma_heads(before: Seq<Broadcaster>, entries: Seq<EntryView>, k: int)
    requires
        consecutive(before, entries),
        0 <= k < entries.len(),
    ensures
        before[k].spec_head() == before[0].spec_head() + k,
    decreases k,
{
    if k > 0 {
        lemma_heads(before, entries, k - 1);
        assert(entries[k - 1].sequence == before[k - 1].spec_head() + 1);
    }
}

/// What one handle is sent over the first `n` commits of a run during all of
/// which it is subscribed.
proof fn lemma_sent_over(
    before: Seq<Broadcaster>,
    entries: Seq<EntryView>,
    handle: u64,
    n: int,
)
    requires
        consecutive(before, entries),
        0 <= n <= entries.len(),
        forall|k: int|
            0 <= k < entries.len() ==> has_handle((#[trigger] before[k]).subscribers(), handle),
    ensures
        n == 0 ==> sent_over(messages(before, entries).take(n), handle) == Seq::<nat>::empty(),
        n > 0 ==> sent_over(messages(before, entries).take(n), handle) == run(
            before[0].spec_head() as nat,
            (before[0].spec_head() + n) as nat,
        ),
    decreases n,
{
    let upto = messages(before, entries).take(n);
    if n > 0 {
        let k = n - 1;
        lemma_sent_over(before, entries, handle, k);
        lemma_heads(before, entries, k);
        assert(upto.drop_last() =~= messages(before, entries).take(k));
        assert(upto.last() == fan_out(before[k].subscribers(), entries[k]));
        assert(before[k].wf());
        let subscribers = before[k].subscribers();
        assert forall|i: int, j: int|
            #![trigger subscribers[i], subscribers[j]]
            0 <= i < j < subscribers.len() implies subscribers[i].handle
            != subscribers[j].handle by {
            assert(subscribers[i].handle < subscribers[j].handle);
        }
        lemma_fan_out_once(subscribers, entries[k], handle);
        let first = before[0].spec_head() as nat;
        assert(entries[k].sequence == first + n);
        if k == 0 {
            assert(sent_over(upto, handle) =~= run(first, (first + n) as nat));
        } else {
            assert(run(first, (first + k) as nat) + seq![entries[k].sequence] =~= run(
                first,
                (first + n) as nat,
            ));
        }
    }
}

/// Total order of delivery: over any run of consecutive commits during which
/// two handles both stay subscribed, both are sent the same sequence numbers
/// in the same order. These are the numbers of the committed entries, in
/// commit order: ascending, each exactly once.
pub proof fn lemma_same_messages_in_commit_order(
    before: Seq<Broadcaster>,
    entries: Seq<EntryView>,
    one: u64,
    other: u64,
)
    requires
        consecutive(before, entries),
        forall|k: int|
            0 <= k < entries.len() ==> has_handle((#[trigger] before[k]).subscribers(), one),
        forall|k: int|
            0 <= k < entries.len() ==> has_handle((#[trigger] before[k]).subscribers(), other),
    ensures
        sent_over(messages(before, entries), one) == sent_over(messages(before, entries), other),
        sent_over(messages(before, entries), one) == sequence_numbers(entries),
        forall|a: int, b: int|
            0 <= a < b < entries.len() ==> (#[trigger] entries[a]).sequence
                < (#[trigger] entries[b]).sequence,
{
    let all = messages(before, entries);
    let n = entries.len() as int;
    assert(all.take(n) =~= all);
    lemma_sent_over(before, entries, one, n);
    lemma_sent_over(before, entries, other, n);
    assert forall|a: int| 0 <= a < n implies (#[trigger] entries[a]).sequence
        == before[0].spec_head() + a + 1 by {
        lemma_heads(before, entries, a);
    }
    if n == 0 {
        assert(sequence_numbers(entries) =~= Seq::<nat>::empty());
    } else {
        assert(sequence_numbers(entries) =~= run(
            before[0].spec_head() as nat,
            (before[0].spec_head() + n) as nat,
        ));
    }
}


} // verus!
