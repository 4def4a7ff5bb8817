//! The identity registry: which caller identity stands behind each live
//! connection.

use crate::assoc::distinct_keys;
use crate::assoc::lemma_written_keys;
use crate::assoc::lemma_written_last;
use crate::assoc::lemma_written_push;
use crate::assoc::lemma_written_remove;
use crate::assoc::written;
use crate::types::CanvasError;
use spacetimedb::Identity;
use vstd::prelude::*;

verus! {

/// One live connection and the identity it was registered with.
pub struct Registration {
    connection: u128,
    identity: Identity,
}

/// The registrations as writes of an identity to a connection.
spec fn registrations(entries: Seq<Registration>) -> Seq<(u128, Identity)> {
    entries.map_values(|r: Registration| (r.connection, r.identity))
}

/// Maps each live connection to its caller identity.
pub struct IdentityRegistry {
    entries: Vec<Registration>,
}

impl View for IdentityRegistry {
    type V = Map<u128, Identity>;

    /// The identity of each registered connection.
    closed spec fn view(&self) -> Map<u128, Identity> {
        written(registrations(self.entries@))
    }
}

impl IdentityRegistry {
    /// No connection is registered twice.
    pub closed spec fn wf(&self) -> bool {
        distinct_keys(registrations(self.entries@))
    }

    /// A registry without connections.
    pub fn new() -> (registry: Self)
        ensures
            registry.wf(),
            registry@ == Map::<u128, Identity>::empty(),
    {
        let registry = IdentityRegistry { entries: Vec::new() };
        assert(registrations(registry.entries@) =~= Seq::<(u128, Identity)>::empty());
        registry
    }

    /// Where the registration of `connection` stands, if there is one.
    fn find(&self, connection: u128) -> (found: Option<usize>)
        ensures
            match found {
                Some(i) => i < self.entries@.len() && self.entries@[i as int].connection
                    == connection,
                None => forall|j: int|
                    0 <= j < self.entries@.len() ==> (#[trigger] self.entries@[j]).connection
                        != connection,
            },
    {
        let mut i: usize = 0;
        while i < self.entries.len()
            invariant
                i <= self.entries.len(),
                forall|j: int|
                    0 <= j < i ==> (#[trigger] self.entries@[j]).connection != connection,
            decreases self.entries.len() - i,
        {
            if self.entries[i].connection == connection {
                return Some(i);
            }
            i += 1;
        }
        None
    }

    /// What `find` tells about the map.
    proof fn lemma_found(&self, connection: u128, found: Option<usize>)
        requires
            self.wf(),
            match found {
                Some(i) => i < self.entries@.len() && self.entries@[i as int].connection
                    == connection,
                None => forall|j: int|
                    0 <= j < self.entries@.len() ==> (#[trigger] self.entries@[j]).connection
                        != connection,
            },
        ensures
            match found {
                Some(i) => self@.contains_key(connection) && self@[connection]
                    == self.entries@[i as int].identity,
                None => !self@.contains_key(connection),
            },
    {
        let writes = registrations(self.entries@);
        lemma_written_keys(writes, connection);
        match found {
            Some(i) => {
                assert forall|j: int| i < j < writes.len() implies (#[trigger] writes[j]).0
                    != writes[i as int].0 by {
                    assert(writes[i as int].0 != writes[j].0);
                }
                lemma_written_last(writes, i as int);
            },
            None => {
                if self@.contains_key(connection) {
                    let j = choose|j: int|
                        0 <= j < writes.len() && (#[trigger] writes[j]).0 == connection;
                    assert(self.entries@[j].connection != connection);
                }
            },
        }
    }

    /// Registers `identity` for `connection`.
    ///
    /// The identity of a connection is stable: a connection that is already
    /// registered keeps its identity and `false` comes back.
    pub fn connect(&mut self, connection: u128, identity: Identity) -> (fresh: bool)
        requires
            old(self).wf(),
        ensures
            final(self).wf(),
            fresh == !old(self)@.contains_key(connection),
            fresh ==> final(self)@ == old(self)@.insert(connection, identity),
            !fresh ==> final(self)@ == old(self)@,
    {
        let found = self.find(connection);
        proof {
            self.lemma_found(connection, found);
        }
        match found {
            Some(_) => false,
            None => {
                let ghost before = registrations(self.entries@);
                self.entries.push(Registration { connection, identity });
                proof {
                    let after = registrations(self.entries@);
                    assert(after =~= before.push((connection, identity)));
                    lemma_written_push(before, connection, identity);
                    assert forall|a: int, b: int|
                        #![trigger after[a], after[b]]
                        0 <= a < b < after.len() implies after[a].0 != after[b].0 by {
                        if b < before.len() {
                            assert(before[a].0 != before[b].0);
                        } else {
                            assert(old(self).entries@[a].connection != connection);
                        }
                    }
                }
                true
            },
        }
    }

    /// The identity behind `connection`.
    ///
    /// A connection that is not registered has no identity.
    pub fn resolve(&self, connection: u128) -> (identity: Result<Identity, CanvasError>)
        requires
            self.wf(),
        ensures
            self@.contains_key(connection) ==> identity == Ok::<Identity, CanvasError>(
                self@[connection],
            ),
            !self@.contains_key(connection) ==> identity == Err::<Identity, CanvasError>(
                CanvasError::Unauthenticated,
            ),
    {
        let found = self.find(connection);
        proof {
            self.lemma_found(connection, found);
        }
        match found {
            Some(i) => Ok(self.entries[i].identity),
            None => Err(CanvasError::Unauthenticated),
        }
    }

    /// Forgets `connection`. Says whether it was registered.
    pub fn disconnect(&mut self, connection: u128) -> (known: bool)
        requires
            old(self).wf(),
        ensures
            final(self).wf(),
            known == old(self)@.contains_key(connection),
            final(self)@ == old(self)@.remove(connection),
    {
        let found = self.find(connection);
        proof {
            self.lemma_found(connection, found);
        }
        match found {
            Some(i) => {
                let ghost before = registrations(self.entries@);
                self.entries.remove(i);
                proof {
                    assert(registrations(self.entries@) =~= before.remove(i as int));
                    lemma_written_remove(before, i as int);
                }
                true
            },
            None => {
                assert(self@ =~= old(self)@.remove(connection));
                false
            },
        }
    }
}

} // verus!
