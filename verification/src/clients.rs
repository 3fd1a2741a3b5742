//! The server keeps a record per connected client to store metadata about it.
//!
//! This module holds the records and keeps the set of controlled objects in
//! each of them up to date.

use crate::controlled::{bits_of, ControlledEntities};
use crate::object::ObjectId;
use crate::target::{ClientId, ControlledBy, NetworkTarget};
use vstd::prelude::*;

verus! {

/// What one client's record says: who the client is and the bits of the
/// objects it controls.
pub struct ClientView {
    pub id: ClientId,
    pub controlled: Set<u64>,
}

/// The record of one connected client.
struct ClientRecord {
    id: ClientId,
    controlled: ControlledEntities,
}

impl View for ClientRecord {
    type V = ClientView;

    closed spec fn view(&self) -> ClientView {
        ClientView { id: self.id, controlled: self.controlled@ }
    }
}

/// The records of the connected clients, in the order in which they
/// connected.
pub struct Clients {
    records: Vec<ClientRecord>,
}

/// The clients of the records, in the records' order.
pub open spec fn roster_of(records: Seq<ClientView>) -> Seq<ClientId> {
    records.map_values(|record: ClientView| record.id)
}

/// Whether one of the records is that of `client`.
pub open spec fn is_connected(records: Seq<ClientView>, client: ClientId) -> bool {
    roster_of(records).contains(client)
}

/// The bits of the objects that `client` controls according to its record.
pub open spec fn controlled_of(records: Seq<ClientView>, client: ClientId) -> Set<u64>
    recommends
        is_connected(records, client),
{
    records[roster_of(records).index_of(client)].controlled
}

/// The records after `object` was added to the set of every client of
/// `clients` that has a record.
pub open spec fn granted(records: Seq<ClientView>, object: u64, clients: Set<ClientId>) -> Seq<
    ClientView,
> {
    records.map_values(
        |record: ClientView|
            if clients.contains(record.id) {
                ClientView { id: record.id, controlled: record.controlled.insert(object) }
            } else {
                record
            },
    )
}

/// The records after `object` was taken out of the set of every client of
/// `clients` that has a record.
pub open spec fn revoked(records: Seq<ClientView>, object: u64, clients: Set<ClientId>) -> Seq<
    ClientView,
> {
    records.map_values(
        |record: ClientView|
            if clients.contains(record.id) {
                ClientView { id: record.id, controlled: record.controlled.remove(object) }
            } else {
                record
            },
    )
}

/// Tells of a client whether its record lacks `object`.
pub open spec fn lacks(records: Seq<ClientView>, object: u64) -> spec_fn(ClientId) -> bool {
    |client: ClientId| !controlled_of(records, client).contains(object)
}

/// Tells of a client whether its record holds `object`.
pub open spec fn holds(records: Seq<ClientView>, object: u64) -> spec_fn(ClientId) -> bool {
    |client: ClientId| controlled_of(records, client).contains(object)
}

impl View for Clients {
    type V = Seq<ClientView>;

    closed spec fn view(&self) -> Seq<ClientView> {
        self.records@.map_values(|record: ClientRecord| record@)
    }
}

impl Clients {
    /// No two records are of the same client.
    pub open spec fn wf(&self) -> bool {
        roster_of(self@).no_duplicates()
    }

    /// No client is connected.
    pub fn new() -> (clients: Clients)
        ensures
            clients.wf(),
            clients@ == Seq::<ClientView>::empty(),
    {
        let clients = Clients { records: Vec::new() };
        proof {
            assert(clients@ =~= Seq::<ClientView>::empty());
        }
        clients
    }

    /// Where the record of `client` stands, if there is one.
    fn position(&self, client: ClientId) -> (at: Option<usize>)
        requires
            self.wf(),
        ensures
            at is Some <==> is_connected(self@, client),
            at is Some ==> at.unwrap() < self@.len() && self@[at.unwrap() as int].id == client
                && roster_of(self@).index_of(client) == at.unwrap(),
    {
        let mut i: usize = 0;
        while i < self.records.len()
            invariant
                self.wf(),
                i <= self.records@.len(),
                self@.len() == self.records@.len(),
                forall|k: int| 0 <= k < i ==> roster_of(self@)[k] != client,
            decreases self.records@.len() - i,
        {
            if self.records[i].id == client {
                proof {
                    let roster = roster_of(self@);
                    assert(roster[i as int] == client);
                    let found = roster.index_of(client);
                    assert(0 <= found < roster.len() && roster[found] == client);
                }
                return Some(i);
            }
            i += 1;
        }
        None
    }

    /// The connected clients, in the order in which they connected.
    pub fn connected_clients(&self) -> (roster: Vec<ClientId>)
        requires
            self.wf(),
        ensures
            roster@ == roster_of(self@),
            roster@.no_duplicates(),
    {
        let mut roster: Vec<ClientId> = Vec::new();
        let mut i: usize = 0;
        while i < self.records.len()
            invariant
                i <= self.records@.len(),
                self@.len() == self.records@.len(),
                roster@ == roster_of(self@).take(i as int),
            decreases self.records@.len() - i,
        {
            roster.push(self.records[i].id);
            proof {
                assert(roster@ =~= roster_of(self@).take(i + 1));
            }
            i += 1;
        }
        proof {
            assert(roster@ =~= roster_of(self@));
        }
        roster
    }

    /// A client connected: it gets a record with no controlled object,
    /// unless it has a record already. Says whether a record was made.
    pub fn connect(&mut self, client: ClientId) -> (added: bool)
        requires
            old(self).wf(),
        ensures
            final(self).wf(),
            added == !is_connected(old(self)@, client),
            added ==> final(self)@ == old(self)@.push(
                ClientView { id: client, controlled: Set::<u64>::empty() },
            ),
            !added ==> final(self)@ == old(self)@,
    {
        if self.position(client).is_some() {
            return false;
        }
        self.records.push(ClientRecord { id: client, controlled: ControlledEntities::default() });
        proof {
            let fresh = ClientView { id: client, controlled: Set::<u64>::empty() };
            assert(final(self)@ =~= old(self)@.push(fresh));
            assert(roster_of(final(self)@) =~= roster_of(old(self)@).push(client));
        }
        true
    }

    /// The set of objects that `client` controls, if the client is
    /// connected.
    pub fn controlled_entities(&self, client: ClientId) -> (set: Option<&ControlledEntities>)
        requires
            self.wf(),
        ensures
            set is Some <==> is_connected(self@, client),
            set is Some ==> set.unwrap()@ == controlled_of(self@, client),
    {
        match self.position(client) {
            Some(at) => Some(&self.records[at].controlled),
            None => None,
        }
    }

    /// Adds `object` to the set of `client`, if the client is connected and
    /// does not control the object already. Says whether the set changed.
    pub fn add_controlled(&mut self, client: ClientId, object: ObjectId) -> (changed: bool)
        requires
            old(self).wf(),
        ensures
            final(self).wf(),
            final(self)@ == granted(old(self)@, object@, set![client]),
            changed == (is_connected(old(self)@, client) && !controlled_of(
                old(self)@,
                client,
            ).contains(object@)),
    {
        match self.position(client) {
            Some(at) => {
                let changed = self.records[at].controlled.insert(object);
                proof {
                    lemma_granted_one(old(self)@, object@, client);
                    assert(final(self)@ =~= old(self)@.update(
                        at as int,
                        ClientView {
                            id: client,
                            controlled: old(self)@[at as int].controlled.insert(object@),
                        },
                    ));
                    assert(roster_of(final(self)@) =~= roster_of(old(self)@));
                }
                changed
            },
            None => {
                proof {
                    lemma_granted_one(old(self)@, object@, client);
                }
                false
            },
        }
    }

    /// Takes `object` out of the set of `client`, if the client is connected
    /// and controls the object. Says whether the set changed.
    pub fn remove_controlled(&mut self, client: ClientId, object: ObjectId) -> (changed: bool)
        requires
            old(self).wf(),
        ensures
            final(self).wf(),
            final(self)@ == revoked(old(self)@, object@, set![client]),
            changed == (is_connected(old(self)@, client) && controlled_of(
                old(self)@,
                client,
            ).contains(object@)),
    {
        match self.position(client) {
            Some(at) => {
                let changed = self.records[at].controlled.remove(object);
                proof {
                    lemma_revoked_one(old(self)@, object@, client);
                    assert(final(self)@ =~= old(self)@.update(
                        at as int,
                        ClientView {
                            id: client,
                            controlled: old(self)@[at as int].controlled.remove(object@),
                        },
                    ));
                    assert(roster_of(final(self)@) =~= roster_of(old(self)@));
                }
                changed
            },
            None => {
                proof {
                    lemma_revoked_one(old(self)@, object@, client);
                }
                false
            },
        }
    }

    /// The control target of `object` was set or changed: the target is
    /// resolved against the clients that are connected now, and the object
    /// is added to the set of each of them. Returns the clients whose set
    /// changed, in the order in which they connected.
    pub fn handle_controlled_by_update(
        &mut self,
        object: ObjectId,
        controlled_by: &ControlledBy,
    ) -> (changed: Vec<ClientId>)
        requires
            old(self).wf(),
        ensures
            final(self).wf(),
            final(self)@ == granted(
                old(self)@,
                object@,
                named_by(old(self)@, controlled_by.target),
            ),
            changed@ == controlled_by.target.resolved(roster_of(old(self)@)).filter(
                lacks(old(self)@, object@),
            ),
    {
        let ghost before = self@;
        let roster = self.connected_clients();
        let resolved = controlled_by.target.resolve(&roster);
        let mut changed: Vec<ClientId> = Vec::new();
        proof {
            controlled_by.target.lemma_resolved_distinct(roster@);
            assert(resolved@.take(0).to_set() =~= Set::<ClientId>::empty());
            assert(granted(before, object@, Set::<ClientId>::empty()) =~= before);
            resolved@.take(0).lemma_filter_len(lacks(before, object@));
        }
        let mut i: usize = 0;
        while i < resolved.len()
            invariant
                self.wf(),
                roster_of(before).no_duplicates(),
                resolved@.no_duplicates(),
                resolved@ == controlled_by.target.resolved(roster_of(before)),
                i <= resolved@.len(),
                self@ == granted(before, object@, resolved@.take(i as int).to_set()),
                changed@ == resolved@.take(i as int).filter(lacks(before, object@)),
            decreases resolved@.len() - i,
        {
            let client: ClientId = resolved[i];
            let ghost done = resolved@.take(i as int);
            proof {
                controlled_by.target.lemma_resolved_members(roster_of(before), client);
                assert(resolved@.contains(client));
                assert(!done.to_set().contains(client)) by {
                    if done.contains(client) {
                        let k = choose|k: int| 0 <= k < done.len() && done[k] == client;
                        assert(resolved@[k] == resolved@[i as int]);
                    }
                }
                lemma_granted_lookup(before, object@, done.to_set(), client);
                lemma_granted_join(before, object@, done.to_set(), set![client]);
                assert(resolved@.take(i + 1) =~= done.push(client));
                done.lemma_push_to_set_commute(client);
                assert(done.to_set().union(set![client]) =~= done.to_set().insert(client));
                done.lemma_filter_push(client, lacks(before, object@));
            }
            if self.add_controlled(client, object) {
                changed.push(client);
            }
            i += 1;
        }
        proof {
            assert(resolved@.take(resolved@.len() as int) =~= resolved@);
        }
        changed
    }

    /// The control target of `object` is about to go, with the object or
    /// without it: while the target can still be read, it is resolved
    /// against the clients that are connected now, and the object is taken
    /// out of the set of each of them. Returns the clients whose set changed,
    /// in the order in which they connected.
    pub fn handle_controlled_by_remove(
        &mut self,
        object: ObjectId,
        controlled_by: &ControlledBy,
    ) -> (changed: Vec<ClientId>)
        requires
            old(self).wf(),
        ensures
            final(self).wf(),
            final(self)@ == revoked(
                old(self)@,
                object@,
                named_by(old(self)@, controlled_by.target),
            ),
            changed@ == controlled_by.target.resolved(roster_of(old(self)@)).filter(
                holds(old(self)@, object@),
            ),
    {
        let ghost before = self@;
        let roster = self.connected_clients();
        let resolved = controlled_by.target.resolve(&roster);
        let mut changed: Vec<ClientId> = Vec::new();
        proof {
            controlled_by.target.lemma_resolved_distinct(roster@);
            assert(resolved@.take(0).to_set() =~= Set::<ClientId>::empty());
            assert(revoked(before, object@, Set::<ClientId>::empty()) =~= before);
            resolved@.take(0).lemma_filter_len(holds(before, object@));
        }
        let mut i: usize = 0;
        while i < resolved.len()
            invariant
                self.wf(),
                roster_of(before).no_duplicates(),
                resolved@.no_duplicates(),
                resolved@ == controlled_by.target.resolved(roster_of(before)),
                i <= resolved@.len(),
                self@ == revoked(before, object@, resolved@.take(i as int).to_set()),
                changed@ == resolved@.take(i as int).filter(holds(before, object@)),
            decreases resolved@.len() - i,
        {
            let client: ClientId = resolved[i];
            let ghost done = resolved@.take(i as int);
            proof {
                controlled_by.target.lemma_resolved_members(roster_of(before), client);
                assert(resolved@.contains(client));
                assert(!done.to_set().contains(client)) by {
                    if done.contains(client) {
                        let k = choose|k: int| 0 <= k < done.len() && done[k] == client;
                        assert(resolved@[k] == resolved@[i as int]);
                    }
                }
                lemma_revoked_lookup(before, object@, done.to_set(), client);
                lemma_revoked_join(before, object@, done.to_set(), set![client]);
                assert(resolved@.take(i + 1) =~= done.push(client));
                done.lemma_push_to_set_commute(client);
                assert(done.to_set().union(set![client]) =~= done.to_set().insert(client));
                done.lemma_filter_push(client, holds(before, object@));
            }
            if self.remove_controlled(client, object) {
                changed.push(client);
            }
            i += 1;
        }
        proof {
            assert(resolved@.take(resolved@.len() as int) =~= resolved@);
        }
        changed
    }

    /// A client disconnected. If it has a record, the objects that it
    /// controlled are read from it and returned for despawning, each once,
    /// and the record is dropped. If it has none, nothing changes.
    pub fn handle_client_disconnect(&mut self, client: ClientId) -> (despawn: Option<
        Vec<ObjectId>,
    >)
        requires
            old(self).wf(),
        ensures
            final(self).wf(),
            !is_connected(final(self)@, client),
            despawn is Some <==> is_connected(old(self)@, client),
            despawn is None ==> final(self)@ == old(self)@,
            despawn is Some ==> bits_of(despawn.unwrap()@).no_duplicates(),
            despawn is Some ==> bits_of(despawn.unwrap()@).to_set() == controlled_of(
                old(self)@,
                client,
            ),
            despawn is Some ==> final(self)@ == old(self)@.remove(
                roster_of(old(self)@).index_of(client),
            ),
    {
        match self.position(client) {
            Some(at) => {
                let despawn = self.records[at].controlled.entities();
                self.records.remove(at);
                proof {
                    let roster = roster_of(old(self)@);
                    assert(final(self)@ =~= old(self)@.remove(at as int));
                    assert(roster_of(final(self)@) =~= roster.remove(at as int));
                    assert forall|k: int| 0 <= k < roster.remove(at as int).len() implies roster.remove(
                        at as int,
                    )[k] != client by {
                        if k < at {
                            assert(roster[k] != roster[at as int]);
                        } else {
                            assert(roster[k + 1] != roster[at as int]);
                        }
                    }
                }
                Some(despawn)
            },
            None => None,
        }
    }
}

/// Adding an object for one client changes that client's record, if it has
/// one, and no other.
proof fn lemma_granted_one(records: Seq<ClientView>, object: u64, client: ClientId)
    requires
        roster_of(records).no_duplicates(),
    ensures
        !is_connected(records, client) ==> granted(records, object, set![client]) == records,
        is_connected(records, client) ==> granted(records, object, set![client])
            == records.update(
            roster_of(records).index_of(client),
            ClientView {
                id: client,
                controlled: controlled_of(records, client).insert(object),
            },
        ),
{
    let roster = roster_of(records);
    let after = granted(records, object, set![client]);
    if is_connected(records, client) {
        let at = roster.index_of(client);
        assert(0 <= at < roster.len() && roster[at] == client);
        assert forall|i: int| 0 <= i < records.len() && i != at implies records[i].id
            != client by {
            assert(roster[i] == records[i].id);
        }
        assert(after =~= records.update(
            at,
            ClientView { id: client, controlled: controlled_of(records, client).insert(object) },
        ));
    } else {
        assert forall|i: int| 0 <= i < records.len() implies records[i].id != client by {
            assert(roster[i] == records[i].id);
        }
        assert(after =~= records);
    }
}

/// Taking an object away from one client changes that client's record, if it
/// has one, and no other.
proof fn lemma_revoked_one(records: Seq<ClientView>, object: u64, client: ClientId)
    requires
        roster_of(records).no_duplicates(),
    ensures
        !is_connected(records, client) ==> revoked(records, object, set![client]) == records,
        is_connected(records, client) ==> revoked(records, object, set![client])
            == records.update(
            roster_of(records).index_of(client),
            ClientView {
                id: client,
                controlled: controlled_of(records, client).remove(object),
            },
        ),
{
    let roster = roster_of(records);
    let after = revoked(records, object, set![client]);
    if is_connected(records, client) {
        let at = roster.index_of(client);
        assert(0 <= at < roster.len() && roster[at] == client);
        assert forall|i: int| 0 <= i < records.len() && i != at implies records[i].id
            != client by {
            assert(roster[i] == records[i].id);
        }
        assert(after =~= records.update(
            at,
            ClientView { id: client, controlled: controlled_of(records, client).remove(object) },
        ));
    } else {
        assert forall|i: int| 0 <= i < records.len() implies records[i].id != client by {
            assert(roster[i] == records[i].id);
        }
        assert(after =~= records);
    }
}

/// Adding an object for some clients and then for others is adding it for
/// all of them.
pub proof fn lemma_granted_join(
    records: Seq<ClientView>,
    object: u64,
    first: Set<ClientId>,
    second: Set<ClientId>,
)
    ensures
        granted(granted(records, object, first), object, second) == granted(
            records,
            object,
            first.union(second),
        ),
{
    let once = granted(records, object, first);
    let twice = granted(once, object, second);
    let both = granted(records, object, first.union(second));
    assert forall|i: int| 0 <= i < records.len() implies twice[i] == both[i] by {
        assert(once[i].id == records[i].id);
        assert(records[i].controlled.insert(object).insert(object)
            =~= records[i].controlled.insert(object));
    }
    assert(twice =~= both);
}

/// Taking an object away from some clients and then from others is taking
/// it away from all of them.
pub proof fn lemma_revoked_join(
    records: Seq<ClientView>,
    object: u64,
    first: Set<ClientId>,
    second: Set<ClientId>,
)
    ensures
        revoked(revoked(records, object, first), object, second) == revoked(
            records,
            object,
            first.union(second),
        ),
{
    let once = revoked(records, object, first);
    let twice = revoked(once, object, second);
    let both = revoked(records, object, first.union(second));
    assert forall|i: int| 0 <= i < records.len() implies twice[i] == both[i] by {
        assert(once[i].id == records[i].id);
        assert(records[i].controlled.remove(object).remove(object)
            =~= records[i].controlled.remove(object));
    }
    assert(twice =~= both);
}

/// Adding an object leaves the roster as it is, and changes the set of a
/// connected client exactly if the client is among those it is added for.
pub proof fn lemma_granted_lookup(
    records: Seq<ClientView>,
    object: u64,
    clients: Set<ClientId>,
    client: ClientId,
)
    ensures
        roster_of(granted(records, object, clients)) == roster_of(records),
        is_connected(records, client) ==> controlled_of(
            granted(records, object, clients),
            client,
        ) == if clients.contains(client) {
            controlled_of(records, client).insert(object)
        } else {
            controlled_of(records, client)
        },
{
    let after = granted(records, object, clients);
    assert(roster_of(after) =~= roster_of(records));
    if is_connected(records, client) {
        let at = roster_of(records).index_of(client);
        assert(0 <= at < records.len() && roster_of(records)[at] == client);
        assert(after[at].id == client);
    }
}

/// Taking an object away leaves the roster as it is, and changes the set of
/// a connected client exactly if the client is among those it is taken from.
pub proof fn lemma_revoked_lookup(
    records: Seq<ClientView>,
    object: u64,
    clients: Set<ClientId>,
    client: ClientId,
)
    ensures
        roster_of(revoked(records, object, clients)) == roster_of(records),
        is_connected(records, client) ==> controlled_of(
            revoked(records, object, clients),
            client,
        ) == if clients.contains(client) {
            controlled_of(records, client).remove(object)
        } else {
            controlled_of(records, client)
        },
{
    let after = revoked(records, object, clients);
    assert(roster_of(after) =~= roster_of(records));
    if is_connected(records, client) {
        let at = roster_of(records).index_of(client);
        assert(0 <= at < records.len() && roster_of(records)[at] == client);
        assert(after[at].id == client);
    }
}

/// The clients of the roster that `target` names, as a set.
pub open spec fn named_by(records: Seq<ClientView>, target: NetworkTarget) -> Set<ClientId> {
    target.resolved(roster_of(records)).to_set()
}

/// Adding an object for the clients that a target resolves to adds it to the
/// record of every connected client that the target names, and changes no
/// other record: none at all for a target that names nobody, and for one
/// that lists clients only the records of those that are connected.
pub proof fn lemma_granted_by_target(records: Seq<ClientView>, object: u64, target: NetworkTarget)
    ensures
        granted(records, object, named_by(records, target)) == records.map_values(
            |record: ClientView|
                if target.includes(record.id) {
                    ClientView { id: record.id, controlled: record.controlled.insert(object) }
                } else {
                    record
                },
        ),
        target is Nobody ==> granted(records, object, named_by(records, target)) == records,
{
    let by_set = granted(records, object, named_by(records, target));
    let by_rule = records.map_values(
        |record: ClientView|
            if target.includes(record.id) {
                ClientView { id: record.id, controlled: record.controlled.insert(object) }
            } else {
                record
            },
    );
    assert forall|i: int| 0 <= i < records.len() implies by_set[i] == by_rule[i] by {
        target.lemma_resolved_members(roster_of(records), records[i].id);
        assert(roster_of(records)[i] == records[i].id);
    }
    assert(by_set =~= by_rule);
    if target is Nobody {
        assert(by_rule =~= records);
    }
}

/// Taking an object away from the clients that a target resolves to takes it
/// out of the record of every connected client that the target names, and
/// changes no other record.
pub proof fn lemma_revoked_by_target(records: Seq<ClientView>, object: u64, target: NetworkTarget)
    ensures
        revoked(records, object, named_by(records, target)) == records.map_values(
            |record: ClientView|
                if target.includes(record.id) {
                    ClientView { id: record.id, controlled: record.controlled.remove(object) }
                } else {
                    record
                },
        ),
        target is Nobody ==> revoked(records, object, named_by(records, target)) == records,
{
    let by_set = revoked(records, object, named_by(records, target));
    let by_rule = records.map_values(
        |record: ClientView|
            if target.includes(record.id) {
                ClientView { id: record.id, controlled: record.controlled.remove(object) }
            } else {
                record
            },
    );
    assert forall|i: int| 0 <= i < records.len() implies by_set[i] == by_rule[i] by {
        target.lemma_resolved_members(roster_of(records), records[i].id);
        assert(roster_of(records)[i] == records[i].id);
    }
    assert(by_set =~= by_rule);
    if target is Nobody {
        assert(by_rule =~= records);
    }
}

/// Adding an object to the set of one client a second time changes no
/// record, and the second time the set is not said to have changed.
pub proof fn lemma_add_controlled_twice(records: Seq<ClientView>, object: u64, client: ClientId)
    ensures
        ({
            let once = granted(records, object, set![client]);
            &&& granted(once, object, set![client]) == once
            &&& !(is_connected(once, client) && !controlled_of(once, client).contains(object))
        }),
{
    let once = granted(records, object, set![client]);
    lemma_granted_join(records, object, set![client], set![client]);
    assert(set![client].union(set![client]) =~= set![client]);
    lemma_granted_lookup(records, object, set![client], client);
}

/// Adding an object for the same target a second time changes no record and
/// no client's set: the second time nobody is told of a change.
pub proof fn lemma_update_twice(records: Seq<ClientView>, object: u64, target: NetworkTarget)
    requires
        roster_of(records).no_duplicates(),
    ensures
        ({
            let once = granted(records, object, named_by(records, target));
            &&& granted(once, object, named_by(once, target)) == once
            &&& target.resolved(roster_of(once)).filter(lacks(once, object)) == Seq::<
                ClientId,
            >::empty()
        }),
{
    let clients = named_by(records, target);
    let once = granted(records, object, clients);
    let resolved = target.resolved(roster_of(once));
    lemma_granted_lookup(records, object, clients, 0);
    lemma_granted_join(records, object, clients, clients);
    assert(clients.union(clients) =~= clients);
    assert forall|i: int| 0 <= i < resolved.len() implies !lacks(once, object)(resolved[i]) by {
        let client = resolved[i];
        assert(resolved.contains(client));
        target.lemma_resolved_members(roster_of(records), client);
        lemma_granted_lookup(records, object, clients, client);
    }
    assert(resolved.all(|client: ClientId| !lacks(once, object)(client)));
    resolved.lemma_all_neg_filter_empty(lacks(once, object));
    assert(resolved.filter(lacks(once, object)) =~= Seq::<ClientId>::empty());
}

/// Taking an object away for the same target a second time changes no
/// record and no client's set: the second time nobody is told of a change.
pub proof fn lemma_remove_twice(records: Seq<ClientView>, object: u64, target: NetworkTarget)
    requires
        roster_of(records).no_duplicates(),
    ensures
        ({
            let once = revoked(records, object, named_by(records, target));
            &&& revoked(once, object, named_by(once, target)) == once
            &&& target.resolved(roster_of(once)).filter(holds(once, object)) == Seq::<
                ClientId,
            >::empty()
        }),
{
    let clients = named_by(records, target);
    let once = revoked(records, object, clients);
    let resolved = target.resolved(roster_of(once));
    lemma_revoked_lookup(records, object, clients, 0);
    lemma_revoked_join(records, object, clients, clients);
    assert(clients.union(clients) =~= clients);
    assert forall|i: int| 0 <= i < resolved.len() implies !holds(once, object)(resolved[i]) by {
        let client = resolved[i];
        assert(resolved.contains(client));
        target.lemma_resolved_members(roster_of(records), client);
        lemma_revoked_lookup(records, object, clients, client);
    }
    assert(resolved.all(|client: ClientId| !holds(once, object)(client)));
    resolved.lemma_all_neg_filter_empty(holds(once, object));
    assert(resolved.filter(holds(once, object)) =~= Seq::<ClientId>::empty());
}

/// An object that is given a control target is in the set of every
/// connected client that the target names; once the target is cleared
/// again, it is in the set of none of them. The same clients are connected
/// throughout.
pub proof fn lemma_update_then_remove(
    records: Seq<ClientView>,
    object: u64,
    target: NetworkTarget,
    client: ClientId,
)
    requires
        roster_of(records).no_duplicates(),
        is_connected(records, client),
        target.includes(client),
    ensures
        ({
            let assigned = granted(records, object, named_by(records, target));
            let cleared = revoked(assigned, object, named_by(assigned, target));
            &&& roster_of(assigned) == roster_of(records)
            &&& roster_of(cleared) == roster_of(records)
            &&& controlled_of(assigned, client).contains(object)
            &&& !controlled_of(cleared, client).contains(object)
        }),
{
    let clients = named_by(records, target);
    let assigned = granted(records, object, clients);
    target.lemma_resolved_members(roster_of(records), client);
    lemma_granted_lookup(records, object, clients, client);
    lemma_revoked_lookup(assigned, object, clients, client);
}

/// Where no client controlled the object before, giving it a control target
/// and clearing the target again leaves every record as it was.
pub proof fn lemma_update_then_remove_restores(
    records: Seq<ClientView>,
    object: u64,
    target: NetworkTarget,
)
    requires
        forall|i: int| 0 <= i < records.len() ==> !(#[trigger] records[i]).controlled.contains(object),
    ensures
        ({
            let assigned = granted(records, object, named_by(records, target));
            revoked(assigned, object, named_by(assigned, target)) == records
        }),
{
    let clients = named_by(records, target);
    let assigned = granted(records, object, clients);
    lemma_granted_lookup(records, object, clients, 0);
    let cleared = revoked(assigned, object, clients);
    assert forall|i: int| 0 <= i < records.len() implies cleared[i] == records[i] by {
        assert(assigned[i].id == records[i].id);
        assert(records[i].controlled.insert(object).remove(object) =~= records[i].controlled);
        assert(records[i].controlled.remove(object) =~= records[i].controlled);
    }
    assert(cleared =~= records);
}

} // verus!
