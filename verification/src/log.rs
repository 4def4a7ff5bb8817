//! The change log: every committed change, in commit order, numbered from one
//! without gaps. Entries are only ever added at the end.

use crate::assoc::lemma_written_last;
use crate::assoc::written;
use crate::store::put;
use crate::types::entry_views;
use crate::types::ChangeLogEntry;
use crate::types::EntryView;
use crate::types::PixelView;
use vstd::prelude::*;

verus! {

/// The cell that an entry wrote.
pub open spec fn cell_of(entry: EntryView) -> PixelView {
    PixelView { x: entry.x, y: entry.y, color: entry.color }
}

/// The colours that replaying `entries` in order paints on an empty canvas.
pub open spec fn replay(entries: Seq<EntryView>) -> Map<(nat, nat), Seq<char>>
    decreases entries.len(),
{
    if entries.len() == 0 {
        Map::empty()
    } else {
        replay(entries.drop_last()).insert(
            (entries.last().x, entries.last().y),
            entries.last().color,
        )
    }
}

/// The rows that replaying `entries` in order lays down in an empty store.
pub open spec fn replay_rows(entries: Seq<EntryView>) -> Seq<PixelView>
    decreases entries.len(),
{
    if entries.len() == 0 {
        Seq::empty()
    } else {
        put(replay_rows(entries.drop_last()), cell_of(entries.last()))
    }
}

/// The entries are numbered 1, 2, 3, ... in order.
pub open spec fn gapless(entries: Seq<EntryView>) -> bool {
    forall|i: int| 0 <= i < entries.len() ==> (#[trigger] entries[i]).sequence == i + 1
}

/// The entries numbered `sequence` and later, in order.
pub open spec fn tail_from(entries: Seq<EntryView>, sequence: nat) -> Seq<EntryView> {
    if sequence == 0 {
        entries
    } else if sequence > entries.len() {
        Seq::empty()
    } else {
        entries.subrange(sequence - 1, entries.len() as int)
    }
}

/// The entries as writes of a colour to a coordinate.
pub open spec fn entry_writes(entries: Seq<EntryView>) -> Seq<((nat, nat), Seq<char>)> {
    entries.map_values(|e: EntryView| ((e.x, e.y), e.color))
}

/// Replaying entries is the same as performing their writes in order.
pub proof fn lemma_replay_written(entries: Seq<EntryView>)
    ensures
        replay(entries) == written(entry_writes(entries)),
    decreases entries.len(),
{
    if entries.len() > 0 {
        lemma_replay_written(entries.drop_last());
        assert(entry_writes(entries).drop_last() =~= entry_writes(entries.drop_last()));
    }
}

/// After a replay, a coordinate shows the colour of the last entry that wrote it.
pub proof fn lemma_replay_last(entries: Seq<EntryView>, i: int)
    requires
        0 <= i < entries.len(),
        forall|k: int|
            i < k < entries.len() ==> !((#[trigger] entries[k]).x == entries[i].x && entries[k].y
                == entries[i].y),
    ensures
        replay(entries).contains_key((entries[i].x, entries[i].y)),
        replay(entries)[(entries[i].x, entries[i].y)] == entries[i].color,
{
    let writes = entry_writes(entries);
    lemma_replay_written(entries);
    assert forall|k: int| i < k < writes.len() implies (#[trigger] writes[k]).0
        != writes[i].0 by {
        assert(!(entries[k].x == entries[i].x && entries[k].y == entries[i].y));
    }
    lemma_written_last(writes, i);
}

/// The ordered, append-only record of committed changes.
pub struct ChangeLog {
    entries: Vec<ChangeLogEntry>,
}

impl View for ChangeLog {
    type V = Seq<EntryView>;

    /// The entries, oldest first.
    closed spec fn view(&self) -> Seq<EntryView> {
        entry_views(self.entries@)
    }
}

impl ChangeLog {
    /// The entries are numbered from one without gaps.
    pub open spec fn wf(&self) -> bool {
        gapless(self@)
    }

    /// An empty log.
    pub fn new() -> (log: Self)
        ensures
            log.wf(),
            log@ == Seq::<EntryView>::empty(),
    {
        let log = ChangeLog { entries: Vec::new() };
        assert(log@ =~= Seq::<EntryView>::empty());
        log
    }

    /// A log made of entries that are already numbered from one without gaps.
    pub(crate) fn from_entries(entries: Vec<ChangeLogEntry>) -> (log: Self)
        requires
            gapless(entry_views(entries@)),
        ensures
            log.wf(),
            log@ == entry_views(entries@),
    {
        ChangeLog { entries }
    }

    /// The number of the newest entry, or zero for an empty log.
    pub fn head(&self) -> (sequence: u64)
        ensures
            sequence == self@.len(),
    {
        self.entries.len() as u64
    }

    /// Adds the next entry at the end.
    pub(crate) fn append(&mut self, entry: ChangeLogEntry)
        requires
            old(self).wf(),
            entry@.sequence == old(self)@.len() + 1,
        ensures
            final(self).wf(),
            final(self)@ == old(self)@.push(entry@),
    {
        self.entries.push(entry);
        assert(self@ =~= old(self)@.push(entry@));
    }

    /// Copies of the entries numbered `sequence` and later, oldest first.
    pub fn read_from(&self, sequence: u64) -> (entries: Vec<ChangeLogEntry>)
        ensures
            entry_views(entries@) == tail_from(self@, sequence as nat),
    {
        let mut entries: Vec<ChangeLogEntry> = Vec::new();
        let n: usize = self.entries.len();
        if sequence > n as u64 {
            assert(entry_views(entries@) =~= tail_from(self@, sequence as nat));
            return entries;
        }
        let start: usize = if sequence == 0 {
            0
        } else {
            (sequence - 1) as usize
        };
        let mut i: usize = start;
        while i < n
            invariant
                n == self.entries.len(),
                start <= i <= n,
                entries@ == self.entries@.subrange(start as int, i as int),
            decreases n - i,
        {
            entries.push(self.entries[i].clone());
            assert(entries@ =~= self.entries@.subrange(start as int, i + 1));
            i += 1;
        }
        assert(entry_views(entries@) =~= tail_from(self@, sequence as nat));
        entries
    }
}

} // verus!
