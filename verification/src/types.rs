use vstd::prelude::*;

verus! {

/// What a table stores under a key: value bytes, or the marker that the
/// key was deleted.  A tombstone shadows older values at read time and is
/// reported as "not found" at the public interface.
#[derive(Debug, Clone, PartialEq, Eq)]
pub enum Value {
    Tombstone,
    Data(Vec<u8>),
}

impl Value {
    /// The logical content: `None` for a tombstone, the bytes otherwise.
    pub open spec fn model(&self) -> Option<Seq<u8>> {
        match self {
            Value::Tombstone => None,
            Value::Data(b) => Some(b@),
        }
    }

    /// The length that the value contributes to size accounting.
    pub open spec fn spec_len(&self) -> nat {
        match self {
            Value::Tombstone => 0,
            Value::Data(b) => b@.len(),
        }
    }

    /// An equal, independently owned copy.
    pub fn duplicate(&self) -> (r: Self)
        ensures
            r.model() == self.model(),
            r.spec_len() == self.spec_len(),
    {
        match self {
            Value::Tombstone => Value::Tombstone,
            Value::Data(b) => Value::Data(clone_bytes(b)),
        }
    }
}

/// An equal, independently owned copy of a byte vector.
pub fn clone_bytes(v: &Vec<u8>) -> (r: Vec<u8>)
    ensures
        r@ == v@,
{
    let r = v.clone();
    proof {
        assert(r@ =~= v@);
    }
    r
}

/// A freshly owned vector holding the bytes of `s`.
pub fn slice_to_vec(s: &[u8]) -> (r: Vec<u8>)
    ensures
        r@ == s@,
{
    let mut r: Vec<u8> = Vec::new();
    crate::utils::push_bytes(&mut r, s);
    proof {
        assert(r@ =~= s@);
    }
    r
}

/// One record of a sorted table: a key with the sequence number and value
/// of its most recent write.
pub struct TableEntry {
    pub key: Vec<u8>,
    pub seqno: u64,
    pub value: Value,
}

impl TableEntry {
    /// An equal, independently owned copy.
    pub fn duplicate(&self) -> (r: Self)
        ensures
            r.key@ == self.key@,
            r.seqno == self.seqno,
            r.value.model() == self.value.model(),
            r.value.spec_len() == self.value.spec_len(),
    {
        TableEntry {
            key: clone_bytes(&self.key),
            seqno: self.seqno,
            value: self.value.duplicate(),
        }
    }
}

} // verus!
