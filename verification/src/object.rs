//! Content digests and the objects they identify.

use vstd::prelude::*;
use vstd::std_specs::cmp::PartialEqSpecImpl;

verus! {

/// The digest that identifies an object: a function of the object's bytes
/// and of nothing else.
#[derive(Clone, Copy, Debug, Eq, Hash)]
pub struct ObjectHash {
    pub bytes: [u8; 32],
}

impl PartialEq for ObjectHash {
    fn eq(&self, other: &ObjectHash) -> (r: bool) {
        let mut i: usize = 0;
        while i < 32
            invariant
                i <= 32,
                forall|k: int| 0 <= k < i ==> self.bytes[k] == other.bytes[k],
            decreases 32 - i,
        {
            if self.bytes[i] != other.bytes[i] {
                return false;
            }
            i += 1;
        }
        assert(self.bytes =~= other.bytes);
        true
    }
}

impl PartialEqSpecImpl for ObjectHash {
    open spec fn obeys_eq_spec() -> bool {
        true
    }

    open spec fn eq_spec(&self, other: &ObjectHash) -> bool {
        *self == *other
    }
}

/// An object ready to be stored: a payload together with its digest.
#[derive(Debug, PartialEq, Eq)]
pub struct Hashed {
    hash: ObjectHash,
    payload: Vec<u8>,
}

impl Clone for Hashed {
    fn clone(&self) -> (r: Hashed)
        ensures
            r.spec_hash() == self.spec_hash(),
            r.spec_payload() == self.spec_payload(),
    {
        let payload = self.payload.clone();
        assert(payload@ =~= self.payload@);
        Hashed { hash: self.hash, payload }
    }
}

impl Hashed {
    /// The digest of this object.
    pub closed spec fn spec_hash(&self) -> ObjectHash {
        self.hash
    }

    /// The bytes of this object.
    pub closed spec fn spec_payload(&self) -> Seq<u8> {
        self.payload@
    }

    /// Pairs a payload with the digest that was computed for it.
    pub fn new(hash: ObjectHash, payload: Vec<u8>) -> (r: Hashed)
        ensures
            r.spec_hash() == hash,
            r.spec_payload() == payload@,
    {
        Hashed { hash, payload }
    }

    /// The digest of this object.
    pub fn as_hash(&self) -> (r: &ObjectHash)
        ensures
            *r == self.spec_hash(),
    {
        &self.hash
    }

    /// The bytes of this object.
    pub fn payload(&self) -> (r: &Vec<u8>)
        ensures
            r@ == self.spec_payload(),
    {
        &self.payload
    }
}

} // verus!
