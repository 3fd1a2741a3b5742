//! The set of objects under the control of one client.

use crate::object::{is_object_bits, ObjectId};
use bevy::ecs::entity::{Entity, EntityHashSet};
use vstd::prelude::*;

verus! {

/// List of entities under the control of a client.
///
/// The set itself is the entity store's hash set, which the verifier cannot
/// look into: what it holds goes by the name `controlled_bits`, and the
/// functions below that touch it are believed, not proved.
#[verifier::external_body]
#[derive(Debug, PartialEq)]
pub struct ControlledEntities(pub EntityHashSet);

/// The bits (`Entity::to_bits`) of the entities that the set holds.
pub uninterp spec fn controlled_bits(set: ControlledEntities) -> Set<u64>;

impl View for ControlledEntities {
    type V = Set<u64>;

    open spec fn view(&self) -> Set<u64> {
        controlled_bits(*self)
    }
}

/// The bits of each identifier of a sequence, in the same order.
pub open spec fn bits_of(ids: Seq<ObjectId>) -> Seq<u64> {
    ids.map_values(|id: ObjectId| id@)
}

impl Default for ControlledEntities {
    /// `EntityHashSet::default`: a set that holds nothing.
    #[verifier::external_body]
    fn default() -> (set: ControlledEntities)
        ensures
            controlled_bits(set) == Set::<u64>::empty(),
    {
        ControlledEntities(EntityHashSet::default())
    }
}

impl ControlledEntities {
    /// `HashSet::contains` on the entity with the identifier's bits: whether
    /// the set holds it.
    #[verifier::external_body]
    fn holds(&self, object: ObjectId) -> (found: bool)
        ensures
            found == controlled_bits(*self).contains(object@),
    {
        self.0.contains(&Entity::from_bits(object.to_bits()))
    }

    /// `HashSet::insert` of the entity with the identifier's bits: the set
    /// holds it afterwards and is otherwise unchanged; the result says
    /// whether it was new.
    #[verifier::external_body]
    fn put(&mut self, object: ObjectId) -> (fresh: bool)
        ensures
            controlled_bits(*final(self)) == controlled_bits(*old(self)).insert(object@),
            fresh == !controlled_bits(*old(self)).contains(object@),
    {
        self.0.insert(Entity::from_bits(object.to_bits()))
    }

    /// `HashSet::remove` of the entity with the identifier's bits: the set
    /// no longer holds it and is otherwise unchanged; the result says
    /// whether it was there.
    #[verifier::external_body]
    fn take(&mut self, object: ObjectId) -> (found: bool)
        ensures
            controlled_bits(*final(self)) == controlled_bits(*old(self)).remove(object@),
            found == controlled_bits(*old(self)).contains(object@),
    {
        self.0.remove(&Entity::from_bits(object.to_bits()))
    }

    /// `HashSet::iter`, each entity mapped to its bits by `Entity::to_bits`:
    /// every entity of the set once, in an order that the set chooses. The
    /// bits of an entity are always those of an identifier: its generation
    /// is a `NonZeroU32` that the entity store keeps below 2^31, which is
    /// what `Entity::try_from_bits` asks of the upper half.
    #[verifier::external_body]
    fn all_bits(&self) -> (bits: Vec<u64>)
        ensures
            bits@.no_duplicates(),
            bits@.to_set() == controlled_bits(*self),
            forall|i: int| 0 <= i < bits@.len() ==> is_object_bits(#[trigger] bits@[i]),
    {
        self.0.iter().map(|entity| entity.to_bits()).collect()
    }

    /// Whether the client controls `object`.
    pub fn contains(&self, object: ObjectId) -> (found: bool)
        ensures
            found == self@.contains(object@),
    {
        self.holds(object)
    }

    /// Puts `object` under the client's control. The set is written to only
    /// if the object is new to it, and the result says whether it was.
    pub fn insert(&mut self, object: ObjectId) -> (changed: bool)
        ensures
            final(self)@ == old(self)@.insert(object@),
            changed == !old(self)@.contains(object@),
            !changed ==> *final(self) == *old(self),
    {
        if self.holds(object) {
            proof {
                assert(old(self)@.insert(object@) =~= old(self)@);
            }
            return false;
        }
        self.put(object);
        true
    }

    /// Takes `object` out of the client's control. The set is written to
    /// only if it holds the object, and the result says whether it did.
    pub fn remove(&mut self, object: ObjectId) -> (changed: bool)
        ensures
            final(self)@ == old(self)@.remove(object@),
            changed == old(self)@.contains(object@),
            !changed ==> *final(self) == *old(self),
    {
        if !self.holds(object) {
            proof {
                assert(old(self)@.remove(object@) =~= old(self)@);
            }
            return false;
        }
        self.take(object);
        true
    }

    /// The controlled objects, each once, in no particular order.
    pub fn entities(&self) -> (ids: Vec<ObjectId>)
        ensures
            bits_of(ids@).no_duplicates(),
            bits_of(ids@).to_set() == self@,
    {
        let bits = self.all_bits();
        let mut ids: Vec<ObjectId> = Vec::new();
        let mut i: usize = 0;
        while i < bits.len()
            invariant
                i <= bits@.len(),
                ids@.len() == i,
                bits_of(ids@) == bits@.take(i as int),
                forall|k: int| 0 <= k < bits@.len() ==> is_object_bits(#[trigger] bits@[k]),
            decreases bits@.len() - i,
        {
            let ghost before = ids@;
            assert(is_object_bits(bits@[i as int]));
            if let Some(id) = ObjectId::from_bits(bits[i]) {
                ids.push(id);
            }
            proof {
                assert(ids@ == before.push(ids@[i as int]));
                assert(bits_of(ids@) =~= bits_of(before).push(bits@[i as int]));
                assert(bits@.take(i + 1) =~= bits@.take(i as int).push(bits@[i as int]));
            }
            i += 1;
        }
        proof {
            assert(bits@.take(bits@.len() as int) =~= bits@);
        }
        ids
    }
}

} // verus!
