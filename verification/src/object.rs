//! Identifiers of replicated objects.

use vstd::prelude::*;

verus! {

/// Whether `bits` are the bits of an object identifier: a generation between
/// 1 and 2^31 - 1 in the upper half, any index in the lower half.
pub open spec fn is_object_bits(bits: u64) -> bool {
    0x1_0000_0000 <= bits < 0x8000_0000_0000_0000
}

/// The identifier of a replicated object: an index and a generation, packed
/// into 64 bits the way the entity store packs them.
#[derive(Clone, Copy, Debug, PartialEq, Eq, Hash, Structural)]
pub struct ObjectId {
    bits: u64,
}

impl View for ObjectId {
    type V = u64;

    /// The identifier's 64 bits.
    closed spec fn view(&self) -> u64 {
        self.bits
    }
}

impl ObjectId {
    #[verifier::type_invariant]
    spec fn well_formed(self) -> bool {
        is_object_bits(self.bits)
    }

    /// The identifier with the given index and generation 1.
    pub fn from_raw(index: u32) -> (id: ObjectId)
        ensures
            id@ == 0x1_0000_0000 + index,
    {
        let low: u64 = index as u64;
        ObjectId { bits: 0x1_0000_0000u64 + low }
    }

    /// The identifier with the given bits, if they are those of one.
    pub fn from_bits(bits: u64) -> (id: Option<ObjectId>)
        ensures
            id is Some <==> is_object_bits(bits),
            id is Some ==> id.unwrap()@ == bits,
    {
        if 0x1_0000_0000u64 <= bits && bits < 0x8000_0000_0000_0000u64 {
            Some(ObjectId { bits })
        } else {
            None
        }
    }

    /// The identifier's bits.
    pub fn to_bits(self) -> (bits: u64)
        ensures
            bits == self@,
            is_object_bits(bits),
    {
        proof {
            use_type_invariant(&self);
        }
        self.bits
    }

    /// Two identifiers with the same bits are the same identifier.
    pub proof fn lemma_bits_identify(a: ObjectId, b: ObjectId)
        requires
            a@ == b@,
        ensures
            a == b,
    {
    }
}

} // verus!
