use vstd::prelude::*;

use crate::hexcode::hex_encode;
use crate::hexcode::hex_of;
use crate::node::SerializableData;

verus! {

/// An inclusion proof: the record, its leaf index, the ordered sibling-hash
/// path from leaf level to root, and the root hash it leads to. Created on
/// demand by the tree and consumed by the verifier; never stored.
#[derive(Debug, Clone)]
pub struct MerkleProof<D: SerializableData> {
    pub data: D,
    pub index: usize,
    pub proof: Vec<[u8; 32]>,
    pub root_hash: [u8; 32],
}

impl<D: SerializableData> MerkleProof<D> {
    /// The sibling path as lowercase hex strings, leaf level first.
    pub fn proof_hex(&self) -> (v: Vec<String>)
        ensures
            v@.len() == self.proof@.len(),
            forall|i: int| 0 <= i < v@.len() ==> (#[trigger] v@[i])@ == hex_of(self.proof@[i]@),
    {
        let mut v: Vec<String> = Vec::new();
        let mut i: usize = 0;
        while i < self.proof.len()
            invariant
                i <= self.proof@.len(),
                v@.len() == i,
                forall|j: int| 0 <= j < i ==> (#[trigger] v@[j])@ == hex_of(self.proof@[j]@),
            decreases self.proof@.len() - i,
        {
            let block: [u8; 32] = self.proof[i];
            v.push(hex_encode(block.as_slice()));
            i += 1;
        }
        v
    }

    /// The proof's root hash as a lowercase hex string.
    pub fn root_hash_hex(&self) -> (s: String)
        ensures
            s@ == hex_of(self.root_hash@),
    {
        hex_encode(self.root_hash.as_slice())
    }
}

} // verus!
