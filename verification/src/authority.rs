//! Who is authoritative over each replicated object.

use crate::object::ObjectId;
use crate::target::ClientId;
use std::collections::HashMap;
use vstd::prelude::*;

verus! {

broadcast use vstd::std_specs::hash::group_hash_axioms;

/// Who may write the state of a replicated object.
#[derive(Clone, Copy, Debug, PartialEq, Eq, Hash, Structural)]
pub enum AuthorityOwner {
    /// The server.
    Server,
    /// The client with the given identifier.
    Peer(ClientId),
    /// Nobody, for the time being.
    Unclaimed,
}

/// Tells those who follow an object that its owner changed.
#[derive(Clone, Copy, Debug, PartialEq, Eq, Structural)]
pub struct AuthorityChange {
    pub object: ObjectId,
    pub old_owner: AuthorityOwner,
    pub new_owner: AuthorityOwner,
}

/// Why the registry did not answer.
#[derive(Clone, Copy, Debug, PartialEq, Eq, Structural)]
pub enum AuthorityError {
    /// The registry has no entry for the object.
    UnknownObject(ObjectId),
}

/// The owner of every replicated object that is registered, by the object's
/// bits.
pub struct AuthorityRegistry {
    owners: HashMap<u64, AuthorityOwner>,
}

impl View for AuthorityRegistry {
    type V = Map<u64, AuthorityOwner>;

    closed spec fn view(&self) -> Map<u64, AuthorityOwner> {
        self.owners@
    }
}

/// The owners after authority over `object` went to `new_owner`: the entry
/// of a registered object is overwritten, and nothing else changes.
pub open spec fn after_transfer(
    owners: Map<u64, AuthorityOwner>,
    object: u64,
    new_owner: AuthorityOwner,
) -> Map<u64, AuthorityOwner> {
    if owners.contains_key(object) {
        owners.insert(object, new_owner)
    } else {
        owners
    }
}

/// What a transfer of authority over `object` to `new_owner` answers: an
/// error for an object that is not registered, nothing where the owner stays
/// the same, and else the change.
pub open spec fn transfer_outcome(
    owners: Map<u64, AuthorityOwner>,
    object: ObjectId,
    new_owner: AuthorityOwner,
) -> Result<Option<AuthorityChange>, AuthorityError> {
    if !owners.contains_key(object@) {
        Err(AuthorityError::UnknownObject(object))
    } else if owners[object@] == new_owner {
        Ok(None)
    } else {
        Ok(Some(AuthorityChange { object, old_owner: owners[object@], new_owner }))
    }
}

impl AuthorityRegistry {
    /// A registry without objects.
    pub fn new() -> (registry: AuthorityRegistry)
        ensures
            registry@ == Map::<u64, AuthorityOwner>::empty(),
    {
        AuthorityRegistry { owners: HashMap::new() }
    }

    /// Whether `object` is registered.
    pub fn contains(&self, object: ObjectId) -> (known: bool)
        ensures
            known == self@.contains_key(object@),
    {
        let bits: u64 = object.to_bits();
        self.owners.contains_key(&bits)
    }

    /// An object enters replication with `owner` as its owner. An object
    /// that is registered already keeps its owner. Says whether the object
    /// was new.
    pub fn register(&mut self, object: ObjectId, owner: AuthorityOwner) -> (added: bool)
        ensures
            added == !old(self)@.contains_key(object@),
            added ==> final(self)@ == old(self)@.insert(object@, owner),
            !added ==> final(self)@ == old(self)@,
    {
        let bits: u64 = object.to_bits();
        if self.owners.contains_key(&bits) {
            return false;
        }
        self.owners.insert(bits, owner);
        true
    }

    /// An object leaves replication. Returns its last owner, or nothing for
    /// an object that is not registered, which changes nothing.
    pub fn unregister(&mut self, object: ObjectId) -> (last: Option<AuthorityOwner>)
        ensures
            final(self)@ == old(self)@.remove(object@),
            last == if old(self)@.contains_key(object@) {
                Some(old(self)@[object@])
            } else {
                None
            },
    {
        let bits: u64 = object.to_bits();
        self.owners.remove(&bits)
    }

    /// The owner of `object`, or an error if it is not registered.
    pub fn current_owner(&self, object: ObjectId) -> (owner: Result<
        AuthorityOwner,
        AuthorityError,
    >)
        ensures
            owner == if self@.contains_key(object@) {
                Ok::<AuthorityOwner, AuthorityError>(self@[object@])
            } else {
                Err::<AuthorityOwner, AuthorityError>(AuthorityError::UnknownObject(object))
            },
    {
        let bits: u64 = object.to_bits();
        match self.owners.get(&bits) {
            Some(owner) => Ok(*owner),
            None => Err(AuthorityError::UnknownObject(object)),
        }
    }

    /// Hands authority over `object` to `new_owner`, overwriting the owner
    /// it had. Returns the change for those who follow the object, nothing
    /// if the owner stays the same, and an error, with nothing changed, if
    /// the object is not registered.
    pub fn transfer_authority(&mut self, object: ObjectId, new_owner: AuthorityOwner) -> (outcome:
        Result<Option<AuthorityChange>, AuthorityError>)
        ensures
            final(self)@ == after_transfer(old(self)@, object@, new_owner),
            outcome == transfer_outcome(old(self)@, object, new_owner),
    {
        let bits: u64 = object.to_bits();
        let old_owner = match self.owners.get(&bits) {
            Some(owner) => *owner,
            None => {
                return Err(AuthorityError::UnknownObject(object));
            },
        };
        if old_owner == new_owner {
            proof {
                assert(old(self)@.insert(object@, new_owner) =~= old(self)@);
            }
            return Ok(None);
        }
        self.owners.insert(bits, new_owner);
        Ok(Some(AuthorityChange { object, old_owner, new_owner }))
    }
}

/// After a transfer the object has the new owner and no other: the owner is
/// exactly one of the server, a client and nobody. The same objects are
/// registered as before, and every other object keeps its owner.
pub proof fn lemma_transfer_sets_owner(
    owners: Map<u64, AuthorityOwner>,
    object: u64,
    new_owner: AuthorityOwner,
)
    requires
        owners.contains_key(object),
    ensures
        ({
            let owner = after_transfer(owners, object, new_owner)[object];
            &&& owner == new_owner
            &&& (owner is Server || owner is Peer || owner is Unclaimed)
            &&& !(owner is Server && owner is Peer)
            &&& !(owner is Server && owner is Unclaimed)
            &&& !(owner is Peer && owner is Unclaimed)
        }),
        after_transfer(owners, object, new_owner).dom() == owners.dom(),
        forall|other: u64|
            other != object && owners.contains_key(other) ==> #[trigger] after_transfer(
                owners,
                object,
                new_owner,
            )[other] == owners[other],
{
    assert(after_transfer(owners, object, new_owner).dom() =~= owners.dom());
}

/// Of two transfers for one object the second one stands.
pub proof fn lemma_last_transfer_wins(
    owners: Map<u64, AuthorityOwner>,
    object: u64,
    first: AuthorityOwner,
    second: AuthorityOwner,
)
    ensures
        after_transfer(after_transfer(owners, object, first), object, second) == after_transfer(
            owners,
            object,
            second,
        ),
{
    assert(after_transfer(after_transfer(owners, object, first), object, second) =~= after_transfer(
        owners,
        object,
        second,
    ));
}

/// A transfer to the owner that the object has changes nothing and tells
/// nobody.
pub proof fn lemma_transfer_to_owner_is_silent(owners: Map<u64, AuthorityOwner>, object: ObjectId)
    requires
        owners.contains_key(object@),
    ensures
        after_transfer(owners, object@, owners[object@]) == owners,
        transfer_outcome(owners, object, owners[object@]) == Ok::<
            Option<AuthorityChange>,
            AuthorityError,
        >(None),
{
    assert(after_transfer(owners, object@, owners[object@]) =~= owners);
}

} // verus!
