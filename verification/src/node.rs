use vstd::prelude::*;

verus! {

/// A record the tree can store: serializable to bytes with an unambiguous,
/// length-prefixed encoding, and carrying a deterministic 32-byte lookup key.
pub trait SerializableData: View + Clone + Sized {
    /// The records that can be serialized.
    spec fn wf(self) -> bool;

    /// The records whose key can be computed.
    spec fn key_ok(self) -> bool;

    /// The encoding `to_bytes` returns.
    spec fn spec_to_bytes(self) -> Seq<u8>;

    /// The key `key` returns.
    spec fn spec_key(self) -> Seq<u8>;

    /// The byte strings `from_bytes` accepts: exactly the valid encodings.
    spec fn bytes_ok(bytes: Seq<u8>) -> bool;

    /// A valid record's encoding is accepted back by `from_bytes`.
    proof fn lemma_encoding_ok(self)
        requires
            self.wf(),
        ensures
            Self::bytes_ok(self.spec_to_bytes()),
    ;

    /// The encoding is unambiguous: records with equal encodings are equal.
    proof fn lemma_encoding_injective(self, other: Self)
        requires
            self.wf(),
            other.wf(),
            self.spec_to_bytes() == other.spec_to_bytes(),
        ensures
            self@ == other@,
    ;

    fn to_bytes(&self) -> (r: Vec<u8>)
        requires
            self.wf(),
        ensures
            r@ == self.spec_to_bytes(),
    ;

    fn from_bytes(bytes: Vec<u8>) -> (r: Self)
        requires
            Self::bytes_ok(bytes@),
        ensures
            r.wf(),
            r.spec_to_bytes() == bytes@,
    ;

    fn key(&self) -> (r: [u8; 32])
        requires
            self.key_ok(),
        ensures
            r@ == self.spec_key(),
            r@.len() == 32,
    ;

    /// An owned copy equal to the record.
    fn clone_data(&self) -> (r: Self)
        ensures
            r == *self,
    ;
}

/// Law: serialization round-trips. Decoding a valid record's encoding gives
/// back a record with the same view, for every valid record.
pub fn round_trip<D: SerializableData>(x: &D) -> (r: D)
    requires
        x.wf(),
    ensures
        r@ == x@,
{
    let bytes = x.to_bytes();
    proof {
        x.lemma_encoding_ok();
    }
    let r = D::from_bytes(bytes);
    proof {
        x.lemma_encoding_injective(r);
    }
    r
}

/// No two records in the sequence share a key.
pub open spec fn keys_unique<D: SerializableData>(s: Seq<D>) -> bool {
    forall|i: int, j: int|
        0 <= i < j < s.len() ==> (#[trigger] s[i]).spec_key() != (#[trigger] s[j]).spec_key()
}

/// A tree node: a 32-byte hash, plus the owned record for a real leaf.
/// Padding leaves and internal nodes carry no record.
#[derive(Debug, Clone)]
pub struct Node<D: SerializableData> {
    pub hash: [u8; 32],
    pub data: Option<D>,
}

} // verus!
