//! The canvas as a whole, and the mutation engine that commits changes to it.
//!
//! A commit is all or nothing: a request is checked in full before anything
//! is touched, and a request that is turned down leaves the canvas exactly as
//! it was.

use crate::broadcast::advanced;
use crate::broadcast::delivery_views;
use crate::broadcast::fan_out;
use crate::broadcast::has_handle;
use crate::broadcast::without;
use crate::broadcast::Broadcaster;
use crate::broadcast::Delivery;
use crate::broadcast::Subscriber;
use crate::log::cell_of;
use crate::log::gapless;
use crate::log::replay;
use crate::log::replay_rows;
use crate::log::ChangeLog;
use crate::registry::IdentityRegistry;
use crate::store::put;
use crate::store::CanvasStore;
use crate::types::entry_views;
use crate::types::pixel_views;
use crate::types::CanvasConfig;
use crate::types::CanvasError;
use crate::types::ChangeLogEntry;
use crate::types::ColorFormat;
use crate::types::ColorFormatView;
use crate::types::EntryView;
use crate::types::NewPixel;
use crate::types::Pixel;
use spacetimedb::Identity;
use spacetimedb::Timestamp;
use vstd::prelude::*;

verus! {

/// What a successful commit hands back: the logged entry, and one change
/// message for every subscriber.
#[derive(Debug, PartialEq, Eq)]
pub struct Committed {
    pub entry: ChangeLogEntry,
    pub deliveries: Vec<Delivery>,
}

/// Why the entry at `position` of a stored log cannot be replayed, if it cannot.
pub open spec fn entry_fault(
    width: nat,
    height: nat,
    colors: ColorFormatView,
    position: nat,
    entry: EntryView,
) -> Option<CanvasError> {
    if entry.sequence != position + 1 {
        Some(CanvasError::InvalidRequest)
    } else if !(entry.x < width && entry.y < height) {
        Some(CanvasError::OutOfBounds)
    } else if !colors.accepts(entry.color) {
        Some(CanvasError::InvalidRequest)
    } else {
        None
    }
}

/// The fault of the first entry of a stored log that cannot be replayed.
pub open spec fn first_fault(
    width: nat,
    height: nat,
    colors: ColorFormatView,
    entries: Seq<EntryView>,
) -> Option<CanvasError>
    decreases entries.len(),
{
    if entries.len() == 0 {
        None
    } else {
        match first_fault(width, height, colors, entries.drop_last()) {
            Some(fault) => Some(fault),
            None => entry_fault(
                width,
                height,
                colors,
                (entries.len() - 1) as nat,
                entries.last(),
            ),
        }
    }
}

/// A fault found in the first `k` entries is the fault of the whole log.
proof fn lemma_fault_sticks(
    width: nat,
    height: nat,
    colors: ColorFormatView,
    entries: Seq<EntryView>,
    k: int,
)
    requires
        0 <= k <= entries.len(),
        first_fault(width, height, colors, entries.take(k)) is Some,
    ensures
        first_fault(width, height, colors, entries) == first_fault(
            width,
            height,
            colors,
            entries.take(k),
        ),
    decreases entries.len() - k,
{
    if k < entries.len() {
        let front = entries.drop_last();
        assert(front.take(k) =~= entries.take(k));
        lemma_fault_sticks(width, height, colors, front, k);
    } else {
        assert(entries.take(k) =~= entries);
    }
}

/// A shared canvas: the registry of callers, the store of cells, the log of
/// committed changes and the subscribers that observe them.
pub struct Canvas {
    colors: ColorFormat,
    registry: IdentityRegistry,
    store: CanvasStore,
    log: ChangeLog,
    broadcaster: Broadcaster,
}

impl Canvas {
    /// The colours that the canvas accepts.
    pub closed spec fn colors(&self) -> ColorFormatView {
        self.colors@
    }

    /// The registry of live connections.
    pub closed spec fn spec_registry(&self) -> &IdentityRegistry {
        &self.registry
    }

    /// The store of cells.
    pub closed spec fn spec_store(&self) -> &CanvasStore {
        &self.store
    }

    /// The log of committed changes.
    pub closed spec fn spec_log(&self) -> &ChangeLog {
        &self.log
    }

    /// The broadcaster and its subscribers.
    pub closed spec fn spec_broadcaster(&self) -> &Broadcaster {
        &self.broadcaster
    }

    /// The parts are well formed, every logged entry could be replayed at its
    /// place, the store shows exactly what replaying the log from its first
    /// entry shows, and every subscriber is up to date with the log.
    pub open spec fn wf(&self) -> bool {
        &&& self.registry().wf()
        &&& self.store().wf()
        &&& self.log().wf()
        &&& self.broadcaster().wf()
        &&& first_fault(
            self.store().spec_width(),
            self.store().spec_height(),
            self.colors(),
            self.log()@,
        ) is None
        &&& self.store().rows() == replay_rows(self.log()@)
        &&& self.store()@ == replay(self.log()@)
        &&& self.broadcaster().head() == self.log()@.len()
    }

    /// Whether the sequence counter can still advance.
    pub open spec fn has_room(&self) -> bool {
        self.log()@.len() < u64::MAX
    }

    /// Why a request that arrives over `connection` is turned down, if it is:
    /// the connection must resolve to an identity, the coordinate must lie on
    /// the canvas, and the colour must be one the canvas accepts. The
    /// identity that the request itself names plays no part.
    pub open spec fn rejection(&self, connection: u128, request: NewPixel) -> Option<CanvasError> {
        if !self.registry()@.contains_key(connection) {
            Some(CanvasError::Unauthenticated)
        } else if !self.store().in_bounds(request.x as nat, request.y as nat) {
            Some(CanvasError::OutOfBounds)
        } else if !self.colors().accepts(request.color@) {
            Some(CanvasError::InvalidRequest)
        } else {
            None
        }
    }

    /// The registry of live connections.
    #[verifier::when_used_as_spec(spec_registry)]
    pub fn registry(&self) -> (registry: &IdentityRegistry)
        ensures
            registry == self.spec_registry(),
    {
        &self.registry
    }

    /// The store of cells.
    #[verifier::when_used_as_spec(spec_store)]
    pub fn store(&self) -> (store: &CanvasStore)
        ensures
            store == self.spec_store(),
    {
        &self.store
    }

    /// The log of committed changes.
    #[verifier::when_used_as_spec(spec_log)]
    pub fn log(&self) -> (log: &ChangeLog)
        ensures
            log == self.spec_log(),
    {
        &self.log
    }

    /// The broadcaster and its subscribers.
    #[verifier::when_used_as_spec(spec_broadcaster)]
    pub fn broadcaster(&self) -> (broadcaster: &Broadcaster)
        ensures
            broadcaster == self.spec_broadcaster(),
    {
        &self.broadcaster
    }

    /// An empty canvas.
    pub fn new(config: CanvasConfig) -> (canvas: Self)
        ensures
            canvas.wf(),
            canvas.colors() == config.colors@,
            canvas.store().spec_width() == config.width,
            canvas.store().spec_height() == config.height,
            canvas.store()@ == Map::<(nat, nat), Seq<char>>::empty(),
            canvas.log()@ == Seq::<EntryView>::empty(),
            canvas.registry()@ == Map::<u128, Identity>::empty(),
            canvas.broadcaster().subscribers() == Seq::<Subscriber>::empty(),
            canvas.broadcaster().next_handle() == 1,
    {
        Canvas {
            colors: config.colors,
            registry: IdentityRegistry::new(),
            store: CanvasStore::new(config.width, config.height),
            log: ChangeLog::new(),
            broadcaster: Broadcaster::new(0),
        }
    }

    /// Rebuilds a canvas from a stored log by replaying it from its first
    /// entry.
    ///
    /// The log is replayed only if every entry could have been committed at
    /// its place: numbered one higher than the entry before, within bounds,
    /// in an accepted colour. Otherwise the fault of the first entry that
    /// fails comes back. The rebuilt canvas has no connections and no
    /// subscribers.
    pub fn restore(config: CanvasConfig, entries: Vec<ChangeLogEntry>) -> (restored: Result<
        Canvas,
        CanvasError,
    >)
        ensures
            match first_fault(
                config.width as nat,
                config.height as nat,
                config.colors@,
                entry_views(entries@),
            ) {
                Some(fault) => restored matches Err(e) && e == fault,
                None => restored matches Ok(canvas) && {
                    &&& canvas.wf()
                    &&& canvas.colors() == config.colors@
                    &&& canvas.store().spec_width() == config.width
                    &&& canvas.store().spec_height() == config.height
                    &&& canvas.log()@ == entry_views(entries@)
                    &&& canvas.store()@ == replay(entry_views(entries@))
                    &&& canvas.store().rows() == replay_rows(entry_views(entries@))
                    &&& canvas.registry()@ == Map::<u128, Identity>::empty()
                    &&& canvas.broadcaster().subscribers() == Seq::<Subscriber>::empty()
                    &&& canvas.broadcaster().next_handle() == 1
                },
            },
    {
        let ghost all = entry_views(entries@);
        let ghost width = config.width as nat;
        let ghost height = config.height as nat;
        let mut store = CanvasStore::new(config.width, config.height);
        let n: usize = entries.len();
        let mut i: usize = 0;
        while i < n
            invariant
                n == entries@.len(),
                i <= n,
                all == entry_views(entries@),
                width == config.width,
                height == config.height,
                store.wf(),
                store.spec_width() == width,
                store.spec_height() == height,
                store.rows() == replay_rows(all.take(i as int)),
                store@ == replay(all.take(i as int)),
                gapless(all.take(i as int)),
                first_fault(width, height, config.colors@, all.take(i as int)) is None,
            decreases n - i,
        {
            let entry = &entries[i];
            let ghost upto = all.take(i + 1);
            proof {
                assert(upto.drop_last() =~= all.take(i as int));
                assert(upto.last() == entry@);
            }
            let numbered: bool = entry.sequence == (i as u64) + 1;
            let fault: Option<CanvasError> = if !numbered {
                Some(CanvasError::InvalidRequest)
            } else if entry.x >= config.width || entry.y >= config.height {
                Some(CanvasError::OutOfBounds)
            } else if !config.colors.accepts(&entry.color) {
                Some(CanvasError::InvalidRequest)
            } else {
                None
            };
            assert(fault == entry_fault(width, height, config.colors@, i as nat, entry@));
            match fault {
                Some(e) => {
                    proof {
                        lemma_fault_sticks(width, height, config.colors@, all, i + 1);
                    }
                    return Err(e);
                },
                None => {
                    let written = store.set(entry.x, entry.y, entry.color.clone());
                    assert(written is Ok);
                    assert(gapless(upto)) by {
                        assert forall|k: int| 0 <= k < upto.len() implies (#[trigger] upto[k]).sequence
                            == k + 1 by {
                            if k < i {
                                assert(all.take(i as int)[k].sequence == k + 1);
                            }
                        }
                    }
                },
            }
            i += 1;
        }
        proof {
            assert(all.take(n as int) =~= all);
        }
        let head: u64 = n as u64;
        let canvas = Canvas {
            colors: config.colors,
            registry: IdentityRegistry::new(),
            store,
            log: ChangeLog::from_entries(entries),
            broadcaster: Broadcaster::new(head),
        };
        Ok(canvas)
    }

    /// Whether the sequence counter can still advance.
    pub fn can_commit(&self) -> (room: bool)
        ensures
            room == self.has_room(),
    {
        self.log.head() < u64::MAX
    }

    /// The current colour of `(x, y)`, or `None` if the cell was never
    /// written.
    pub fn get(&self, x: u32, y: u32) -> (color: Option<&String>)
        requires
            self.wf(),
        ensures
            match color {
                Some(c) => self.store()@.contains_key((x as nat, y as nat)) && c@
                    == self.store()@[(x as nat, y as nat)],
                None => !self.store()@.contains_key((x as nat, y as nat)),
            },
    {
        self.store.get(x, y)
    }

    /// Registers `identity` for `connection`. A connection that is already
    /// registered keeps its identity and `false` comes back.
    pub fn connect(&mut self, connection: u128, identity: Identity) -> (fresh: bool)
        requires
            old(self).wf(),
        ensures
            final(self).wf(),
            fresh == !old(self).registry()@.contains_key(connection),
            fresh ==> final(self).registry()@ == old(self).registry()@.insert(
                connection,
                identity,
            ),
            !fresh ==> final(self).registry()@ == old(self).registry()@,
            final(self).colors() == old(self).colors(),
            final(self).store() == old(self).store(),
            final(self).log() == old(self).log(),
            final(self).broadcaster() == old(self).broadcaster(),
    {
        self.registry.connect(connection, identity)
    }

    /// Forgets `connection`. Says whether it was registered.
    pub fn disconnect(&mut self, connection: u128) -> (known: bool)
        requires
            old(self).wf(),
        ensures
            final(self).wf(),
            known == old(self).registry()@.contains_key(connection),
            final(self).registry()@ == old(self).registry()@.remove(connection),
            final(self).colors() == old(self).colors(),
            final(self).store() == old(self).store(),
            final(self).log() == old(self).log(),
            final(self).broadcaster() == old(self).broadcaster(),
    {
        self.registry.disconnect(connection)
    }

    /// Subscribes the caller behind `connection`: hands out a snapshot of
    /// every written cell and a handle that is owed every later change.
    ///
    /// A connection without an identity is turned down and nothing changes.
    pub fn subscribe(&mut self, connection: u128) -> (joined: Result<(Vec<Pixel>, u64), CanvasError>)
        requires
            old(self).wf(),
            old(self).broadcaster().can_subscribe(),
        ensures
            final(self).wf(),
            final(self).colors() == old(self).colors(),
            final(self).registry() == old(self).registry(),
            final(self).store() == old(self).store(),
            final(self).log() == old(self).log(),
            !old(self).registry()@.contains_key(connection) ==> (joined matches Err(e) && e
                == CanvasError::Unauthenticated && *final(self) == *old(self)
                && final(self).broadcaster().next_handle() == old(self).broadcaster().next_handle()),
            old(self).registry()@.contains_key(connection) ==> (joined matches Ok(pair) && {
                &&& pixel_views(pair.0@) == old(self).store().rows()
                &&& pair.1 == old(self).broadcaster().next_handle()
                &&& final(self).broadcaster().next_handle() == old(self).broadcaster().next_handle()
                    + 1
                &&& final(self).broadcaster().head() == old(self).broadcaster().head()
                &&& final(self).broadcaster().subscribers() == old(self).broadcaster().subscribers().push(
                    Subscriber {
                        handle: pair.1,
                        identity: old(self).registry()@[connection],
                        since: old(self).broadcaster().head(),
                        last_delivered_sequence: old(self).broadcaster().head(),
                    },
                )
            }),
    {
        match self.registry.resolve(connection) {
            Ok(identity) => Ok(self.broadcaster.subscribe(identity, &self.store)),
            Err(e) => Err(e),
        }
    }

    /// Removes the subscriber that holds `handle` and says whether there was
    /// one.
    pub fn unsubscribe(&mut self, handle: u64) -> (removed: bool)
        requires
            old(self).wf(),
        ensures
            final(self).wf(),
            removed == has_handle(old(self).broadcaster().subscribers(), handle),
            final(self).broadcaster().subscribers() == without(
                old(self).broadcaster().subscribers(),
                handle,
            ),
            final(self).broadcaster().next_handle() == old(self).broadcaster().next_handle(),
            final(self).broadcaster().head() == old(self).broadcaster().head(),
            final(self).colors() == old(self).colors(),
            final(self).registry() == old(self).registry(),
            final(self).store() == old(self).store(),
            final(self).log() == old(self).log(),
    {
        self.broadcaster.unsubscribe(handle)
    }

    /// Takes note of how sending to `handle` went. A subscriber whose channel
    /// is unavailable is dropped; any other outcome changes nothing.
    pub fn report_delivery(&mut self, handle: u64, outcome: Result<(), CanvasError>) -> (dropped:
        bool)
        requires
            old(self).wf(),
        ensures
            final(self).wf(),
            outcome == Err::<(), CanvasError>(CanvasError::SubscriberUnavailable) ==> dropped
                == has_handle(old(self).broadcaster().subscribers(), handle) && final(self).broadcaster().subscribers() == without(
                old(self).broadcaster().subscribers(),
                handle,
            ),
            outcome != Err::<(), CanvasError>(CanvasError::SubscriberUnavailable) ==> !dropped
                && final(self).broadcaster().subscribers() == old(self).broadcaster().subscribers(),
            final(self).broadcaster().next_handle() == old(self).broadcaster().next_handle(),
            final(self).broadcaster().head() == old(self).broadcaster().head(),
            final(self).colors() == old(self).colors(),
            final(self).registry() == old(self).registry(),
            final(self).store() == old(self).store(),
            final(self).log() == old(self).log(),
    {
        self.broadcaster.report_delivery(handle, outcome)
    }

    /// Checks a request without touching anything. A request that passes
    /// yields the identity that the connection resolves to, under which it
    /// would be committed.
    pub fn check(&self, connection: u128, request: &NewPixel) -> (verdict: Result<
        Identity,
        CanvasError,
    >)
        requires
            self.wf(),
        ensures
            match self.rejection(connection, *request) {
                Some(fault) => verdict == Err::<Identity, CanvasError>(fault),
                None => verdict == Ok::<Identity, CanvasError>(self.registry()@[connection]),
            },
    {
        let identity = match self.registry.resolve(connection) {
            Err(e) => {
                return Err(e);
            },
            Ok(identity) => identity,
        };
        if request.x >= self.store.width() || request.y >= self.store.height() {
            return Err(CanvasError::OutOfBounds);
        }
        if !self.colors.accepts(&request.color) {
            return Err(CanvasError::InvalidRequest);
        }
        Ok(identity)
    }
}

/// Commits a caller's pixel.
///
/// The request is checked first; if it is turned down, the canvas is left
/// exactly as it was and the sequence counter does not advance. A request
/// that passes is written to the store, logged under the next sequence
/// number with `commit_time` and the identity that `connection` resolves to
/// (not the one that the request names), and fanned out to every subscriber.
///
/// Only a request that passes needs room in the log.
pub fn send_pixel(
    canvas: &mut Canvas,
    connection: u128,
    new_pixel: NewPixel,
    commit_time: Timestamp,
) -> (committed: Result<Committed, CanvasError>)
    requires
        old(canvas).wf(),
        old(canvas).rejection(connection, new_pixel) is None ==> old(canvas).has_room(),
    ensures
        final(canvas).wf(),
        match old(canvas).rejection(connection, new_pixel) {
            Some(fault) => committed matches Err(e) && e == fault && *final(canvas) == *old(canvas),
            None => committed matches Ok(done) && {
                &&& done.entry@ == (EntryView {
                    sequence: old(canvas).log()@.len() + 1,
                    sender: old(canvas).registry()@[connection],
                    x: new_pixel.x as nat,
                    y: new_pixel.y as nat,
                    color: new_pixel.color@,
                    commit_time,
                })
                &&& final(canvas).log()@ == old(canvas).log()@.push(done.entry@)
                &&& final(canvas).store()@ == old(canvas).store()@.insert(
                    (new_pixel.x as nat, new_pixel.y as nat),
                    new_pixel.color@,
                )
                &&& final(canvas).store().rows() == put(
                    old(canvas).store().rows(),
                    cell_of(done.entry@),
                )
                &&& delivery_views(done.deliveries@) == fan_out(
                    old(canvas).broadcaster().subscribers(),
                    done.entry@,
                )
                &&& final(canvas).broadcaster().subscribers() == advanced(
                    old(canvas).broadcaster().subscribers(),
                    done.entry.sequence,
                )
                &&& final(canvas).broadcaster().next_handle() == old(canvas).broadcaster().next_handle()
                &&& final(canvas).registry() == old(canvas).registry()
                &&& final(canvas).colors() == old(canvas).colors()
                &&& final(canvas).store().spec_width() == old(canvas).store().spec_width()
                &&& final(canvas).store().spec_height() == old(canvas).store().spec_height()
            },
        },
        new_pixel.color@.len() == 0 || new_pixel.x >= old(canvas).store().spec_width()
            || new_pixel.y >= old(canvas).store().spec_height() ==> committed is Err && *final(canvas) == *old(canvas),
{
    let sender = match canvas.check(connection, &new_pixel) {
        Err(e) => {
            return Err(e);
        },
        Ok(identity) => identity,
    };
    let sequence: u64 = canvas.log.head() + 1;
    let entry = ChangeLogEntry {
        sequence,
        sender,
        x: new_pixel.x,
        y: new_pixel.y,
        color: new_pixel.color,
        commit_time,
    };
    let ghost before = canvas.log@;
    let written = canvas.store.set(entry.x, entry.y, entry.color.clone());
    assert(written is Ok);
    canvas.log.append(entry.clone());
    proof {
        assert(canvas.log@.drop_last() =~= before);
    }
    let deliveries = canvas.broadcaster.on_commit(&entry);
    Ok(Committed { entry, deliveries })
}

} // verus!
