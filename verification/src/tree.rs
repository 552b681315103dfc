use vstd::prelude::*;

use crate::errors::MerkleError;
use crate::hasher::Hasher;
use crate::merkle_proof::MerkleProof;
use crate::node::keys_unique;
use crate::node::Node;
use crate::node::SerializableData;

verus! {

/// Two to the power of `e`.
pub open spec fn pow2(e: nat) -> nat
    decreases e,
{
    if e == 0 {
        1
    } else {
        2 * pow2((e - 1) as nat)
    }
}

pub proof fn lemma_pow2_pos(e: nat)
    ensures
        pow2(e) >= 1,
    decreases e,
{
    if e > 0 {
        lemma_pow2_pos((e - 1) as nat);
    }
}

/// `pow2` grows strictly: a step up at least doubles it.
pub proof fn lemma_pow2_mono(a: nat, b: nat)
    requires
        a < b,
    ensures
        2 * pow2(a) <= pow2(b),
    decreases b,
{
    if a + 1 < b {
        lemma_pow2_mono(a, (b - 1) as nat);
        lemma_pow2_pos((b - 1) as nat);
    }
}

/// The other child sharing an index's parent: its pair complement.
pub open spec fn sib_of(i: int) -> int {
    if i % 2 == 0 {
        i + 1
    } else {
        i - 1
    }
}

/// The hash recomputed by climbing from `h` at position `index`, absorbing
/// the given sibling hashes in order: an even position hashes as the left
/// child, an odd one as the right child.
pub open spec fn spec_climb<H: Hasher>(h: Seq<u8>, index: int, sibs: Seq<Seq<u8>>) -> Seq<u8>
    decreases sibs.len(),
{
    if sibs.len() == 0 {
        h
    } else {
        let parent = if index % 2 == 0 {
            H::node_hash(h, sibs[0])
        } else {
            H::node_hash(sibs[0], h)
        };
        spec_climb::<H>(parent, index / 2, sibs.drop_first())
    }
}

/// One row per level up to `height`, each row half the size of the one
/// below, the bottom row a power of two wide and the top row a single node.
pub open spec fn grid_shape_ok<D: SerializableData>(levels: Seq<Vec<Node<D>>>, height: nat) -> bool {
    &&& levels.len() == height + 1
    &&& forall|l: int|
        0 <= l <= height ==> (#[trigger] levels[l])@.len() == pow2((height - l) as nat)
}

/// The node at `(l, i)` hashes its two children at `l - 1` and carries no
/// record.
pub open spec fn node_linked<D: SerializableData, H: Hasher>(
    levels: Seq<Vec<Node<D>>>,
    l: int,
    i: int,
) -> bool {
    &&& levels[l]@[i].hash@ == H::node_hash(
        levels[l - 1]@[2 * i].hash@,
        levels[l - 1]@[2 * i + 1].hash@,
    )
    &&& levels[l]@[i].data is None
}

/// Every node above the leaf row hashes its two children and carries no
/// record.
pub open spec fn grid_links_ok<D: SerializableData, H: Hasher>(
    levels: Seq<Vec<Node<D>>>,
    height: nat,
) -> bool {
    forall|l: int, i: int|
        1 <= l <= height && 0 <= i < levels[l]@.len() ==> #[trigger] node_linked::<D, H>(
            levels,
            l,
            i,
        )
}

/// Every hash in the grid lies in the hasher's domain.
pub open spec fn grid_hashes_ok<D: SerializableData, H: Hasher>(
    levels: Seq<Vec<Node<D>>>,
    height: nat,
) -> bool {
    forall|l: int, i: int|
        0 <= l <= height && 0 <= i < levels[l]@.len() ==> H::node_ok(
            (#[trigger] levels[l]@[i]).hash@,
        )
}

/// An indexed Merkle tree: a dense grid of nodes (`leaves[level][index]`,
/// level 0 holding the padded leaf row and level `height` the root), plus an
/// indexer mapping each record's key to its leaf position. Immutable after
/// construction.
#[derive(Debug, Clone)]
pub struct IndexedMerkleTree<D: SerializableData, H: Hasher> {
    pub root: Node<D>,
    pub leaves: Vec<Vec<Node<D>>>,
    pub height: usize,
    pub indexer: Vec<([u8; 32], usize)>,
    pub hasher: H,
}

impl<D: SerializableData, H: Hasher> IndexedMerkleTree<D, H> {
    /// Nodes the tree holds at level 0: the padded leaf count.
    pub open spec fn leaf_count(self) -> nat {
        self.leaves@[0]@.len()
    }

    /// Records the tree was built from.
    pub open spec fn record_count(self) -> nat {
        self.indexer@.len()
    }

    pub open spec fn hash_at(self, level: int, index: int) -> Seq<u8> {
        self.leaves@[level]@[index].hash@
    }

    /// The grid is a perfectly balanced binary tree: one row per level, each
    /// row half the size of the one below, the top row a single node.
    pub open spec fn shape_ok(self) -> bool {
        &&& 1 <= self.height
        &&& grid_shape_ok(self.leaves@, self.height as nat)
    }

    /// Every internal node hashes its two children; internal nodes carry no
    /// record.
    pub open spec fn links_ok(self) -> bool {
        grid_links_ok::<D, H>(self.leaves@, self.height as nat)
    }

    /// The first `record_count` leaves hold the records, hashed from their
    /// serialization, with the indexer entry at the same position holding the
    /// record's key; the remaining leaves are padding.
    pub open spec fn leaves_ok(self) -> bool {
        &&& 2 <= self.record_count() <= self.leaf_count()
        &&& self.leaf_count() < 2 * self.record_count()
        &&& forall|i: int|
            0 <= i < self.record_count() ==> {
                let node = self.leaves@[0]@[i];
                let entry = (#[trigger] self.indexer@[i]);
                &&& node.data matches Some(d) && {
                    &&& d.wf()
                    &&& d.key_ok()
                    &&& H::leaf_ok(d.spec_to_bytes())
                    &&& node.hash@ == H::leaf_hash(d.spec_to_bytes())
                    &&& entry.0@ == d.spec_key()
                    &&& entry.1 == i
                }
            }
        &&& forall|i: int|
            self.record_count() <= i < self.leaf_count() ==> {
                let node = (#[trigger] self.leaves@[0]@[i]);
                node.data is None && node.hash@ == H::zero_hash()
            }
    }

    /// No two records share a key.
    pub open spec fn keys_distinct(self) -> bool {
        forall|i: int, j: int|
            0 <= i < j < self.record_count() ==> (#[trigger] self.indexer@[i]).0@ != (
            #[trigger] self.indexer@[j]).0@
    }

    /// Every hash in the grid lies in the hasher's domain.
    pub open spec fn hashes_ok(self) -> bool {
        grid_hashes_ok::<D, H>(self.leaves@, self.height as nat)
    }

    /// The root mirrors the single top node of the grid.
    pub open spec fn root_ok(self) -> bool {
        &&& self.root.hash@ == self.hash_at(self.height as int, 0)
        &&& self.root.data is None
    }

    /// Well-formedness: what construction establishes and no operation
    /// disturbs.
    pub open spec fn wf(self) -> bool {
        &&& self.shape_ok()
        &&& self.links_ok()
        &&& self.leaves_ok()
        &&& self.keys_distinct()
        &&& self.hashes_ok()
        &&& self.root_ok()
    }

    /// Whether some record in the tree has this key.
    pub open spec fn has_key(self, key: Seq<u8>) -> bool {
        exists|j: int| 0 <= j < self.record_count() && (#[trigger] self.indexer@[j]).0@ == key
    }

    /// The leaf position of the record with this key.
    pub open spec fn index_of(self, key: Seq<u8>) -> int {
        choose|j: int| 0 <= j < self.record_count() && (#[trigger] self.indexer@[j]).0@ == key
    }

    /// Builds the tree from the given records, in order: each record becomes
    /// a leaf, the leaf row is padded with empty leaves to the next power of
    /// two, and the internal levels are hashed bottom up. Rejects fewer than
    /// two records with `InvalidDataLength` and a repeated key with
    /// `InvalidKey`; on success the resulting tree is well formed and holds
    /// exactly the given records.
    #[verifier::loop_isolation(false)]
    #[verifier::rlimit(60)]
    pub fn new(data: Vec<D>, hasher: H) -> (r: Result<Self, MerkleError>)
        requires
            data@.len() <= usize::MAX / 2,
            forall|i: int|
                0 <= i < data@.len() ==> {
                    &&& (#[trigger] data@[i]).wf()
                    &&& data@[i].key_ok()
                    &&& H::leaf_ok(data@[i].spec_to_bytes())
                },
        ensures
            match r {
                Ok(t) => {
                    &&& 2 <= data@.len()
                    &&& keys_unique(data@)
                    &&& t.wf()
                    &&& t.record_count() == data@.len()
                    &&& t.leaf_count() == pow2(t.height as nat)
                    &&& forall|i: int|
                        0 <= i < data@.len() ==> (#[trigger] t.leaves@[0]@[i]).data == Some(
                            data@[i],
                        )
                    &&& forall|i: int|
                        0 <= i < data@.len() ==> (#[trigger] t.indexer@[i]).0@ == data@[
                            i
                        ].spec_key()
                    &&& t.hasher == hasher
                },
                Err(MerkleError::InvalidDataLength { len }) => len == data@.len() < 2,
                Err(MerkleError::InvalidKey { key }) => {
                    &&& 2 <= data@.len()
                    &&& !keys_unique(data@)
                    &&& exists|i: int, j: int|
                        0 <= i < j < data@.len() && (#[trigger] data@[i]).spec_key() == (
                        #[trigger] data@[j]).spec_key() && data@[j].spec_key() == key@
                },
                Err(_) => false,
            },
    {
        let n = data.len();
        if n < 2 {
            return Err(MerkleError::InvalidDataLength { len: n });
        }
        let mut leaf_row: Vec<Node<D>> = Vec::new();
        let mut indexer: Vec<([u8; 32], usize)> = Vec::new();
        let mut idx: usize = 0;
        while idx < n
            invariant
                idx <= n,
                leaf_row@.len() == idx,
                indexer@.len() == idx,
                forall|i: int|
                    0 <= i < idx ==> {
                        let node = (#[trigger] leaf_row@[i]);
                        &&& node.data == Some(data@[i])
                        &&& node.hash@ == H::leaf_hash(data@[i].spec_to_bytes())
                        &&& H::node_ok(node.hash@)
                    },
                forall|i: int|
                    0 <= i < idx ==> {
                        let entry = (#[trigger] indexer@[i]);
                        &&& entry.0@ == data@[i].spec_key()
                        &&& entry.1 == i
                    },
                forall|i: int, j: int|
                    0 <= i < j < idx ==> (#[trigger] data@[i]).spec_key() != (#[trigger] data@[
                        j
                    ]).spec_key(),
            decreases n - idx,
        {
            let rec = &data[idx];
            let bytes = rec.to_bytes();
            let hash = hasher.hash_leaf(bytes.as_slice());
            proof {
                H::lemma_leaf_hash_ok(data@[idx as int].spec_to_bytes());
            }
            let key = rec.key();
            let mut j: usize = 0;
            while j < idx
                invariant
                    j <= idx,
                    forall|k: int| 0 <= k < j ==> (#[trigger] indexer@[k]).0@ != key@,
                decreases idx - j,
            {
                if bytes32_eq(&indexer[j].0, &key) {
                    proof {
                        assert(data@[j as int].spec_key() == data@[idx as int].spec_key());
                    }
                    return Err(MerkleError::InvalidKey { key });
                }
                j += 1;
            }
            proof {
                assert(key@ == data@[idx as int].spec_key());
                assert forall|k: int|
                    0 <= k < idx implies (#[trigger] data@[k]).spec_key() != data@[
                    idx as int
                ].spec_key() by {
                    assert(indexer@[k].0@ == data@[k].spec_key());
                    assert(indexer@[k].0@ != key@);
                }
            }
            indexer.push((key, idx));
            leaf_row.push(Node { hash, data: Some(rec.clone_data()) });
            idx += 1;
        }
        let (padded, _exp) = next_pow2(n);
        while leaf_row.len() < padded
            invariant
                n <= leaf_row@.len() <= padded,
                forall|i: int|
                    0 <= i < n ==> {
                        let node = (#[trigger] leaf_row@[i]);
                        &&& node.data == Some(data@[i])
                        &&& node.hash@ == H::leaf_hash(data@[i].spec_to_bytes())
                        &&& H::node_ok(node.hash@)
                    },
                forall|i: int|
                    n <= i < leaf_row@.len() ==> {
                        let node = (#[trigger] leaf_row@[i]);
                        &&& node.data is None
                        &&& node.hash@ == H::zero_hash()
                        &&& H::node_ok(node.hash@)
                    },
            decreases padded - leaf_row.len(),
        {
            let z = H::zero();
            proof {
                H::lemma_zero_hash_ok();
            }
            leaf_row.push(Node { hash: z, data: None });
        }
        let ghost rowv = leaf_row@;
        let mut levels: Vec<Vec<Node<D>>> = Vec::new();
        levels.push(leaf_row);
        match build_tree(n, &mut levels, &hasher) {
            Ok((root, height)) => {
                let t = IndexedMerkleTree { root, leaves: levels, height, indexer, hasher };
                proof {
                    assert(t.leaves@[0]@ == rowv);
                    assert(t.leaf_count() == pow2(t.height as nat));
                    assert(t.shape_ok());
                    assert(t.links_ok());
                    assert(t.leaves_ok());
                    assert(t.keys_distinct());
                    assert(t.hashes_ok());
                    assert(t.root_ok());
                }
                Ok(t)
            },
            Err(e) => Err(e),
        }
    }

    /// The sibling-hash path from `index` at `level` up to the root.
    pub open spec fn spec_path(self, level: int, index: int) -> Seq<Seq<u8>>
        decreases self.height - level,
    {
        if level < 0 || level >= self.height {
            Seq::empty()
        } else {
            seq![self.hash_at(level, sib_of(index))] + self.spec_path(level + 1, index / 2)
        }
    }

    /// Generates the inclusion proof for the record with the given key: its
    /// leaf index, the sibling hashes collected from the leaf up to the root,
    /// and the tree's root hash. A key that was never inserted is rejected
    /// with `InvalidKey`; on a well-formed tree no other failure occurs
    /// (`NodeNotFound` signals a corrupted grid, not a caller error).
    #[verifier::loop_isolation(false)]
    #[verifier::rlimit(60)]
    pub fn get_proof(&self, key: [u8; 32]) -> (r: Result<MerkleProof<D>, MerkleError>)
        ensures
            self.wf() ==> match r {
                Ok(p) => {
                    &&& self.has_key(key@)
                    &&& p.index == self.index_of(key@)
                    &&& p.index < self.record_count()
                    &&& self.leaves@[0]@[p.index as int].data == Some(p.data)
                    &&& p.proof.deep_view() == self.spec_path(0, p.index as int)
                    &&& p.proof@.len() == self.height
                    &&& p.root_hash@ == self.root.hash@
                },
                Err(e) => {
                    &&& e == MerkleError::InvalidKey { key }
                    &&& !self.has_key(key@)
                },
            },
    {
        let mut target: usize = 0;
        let mut found = false;
        let mut j: usize = 0;
        while j < self.indexer.len()
            invariant
                j <= self.indexer@.len(),
                !found ==> forall|k: int| 0 <= k < j ==> (#[trigger] self.indexer@[k]).0@ != key@,
                found ==> exists|k: int|
                    0 <= k < j && (#[trigger] self.indexer@[k]).0@ == key@ && self.indexer@[k].1
                        == target,
            decreases self.indexer@.len() - j,
        {
            if bytes32_eq(&self.indexer[j].0, &key) {
                target = self.indexer[j].1;
                found = true;
                break ;
            }
            j += 1;
        }
        if !found {
            return Err(MerkleError::InvalidKey { key });
        }
        proof {
            if self.wf() {
                let k = choose|k: int|
                    0 <= k < self.record_count() && (#[trigger] self.indexer@[k]).0@ == key@
                        && self.indexer@[k].1 == target;
                assert(self.has_key(key@));
                assert(target == k);
                assert(self.index_of(key@) == k) by {
                    let m = self.index_of(key@);
                    assert(self.indexer@[m].0@ == key@);
                    if m != k {
                        assert(self.indexer@[m].0@ != self.indexer@[k].0@);
                    }
                }
            }
        }
        if self.leaves.len() == 0 || target >= self.leaves[0].len() {
            return Err(MerkleError::NodeNotFound { level: 0, index: target });
        }
        let target_data = match &self.leaves[0][target].data {
            Some(d) => d.clone_data(),
            None => {
                return Err(MerkleError::NodeNotFound { level: 0, index: target });
            },
        };
        let mut collected: Vec<[u8; 32]> = Vec::new();
        let mut level: usize = 0;
        let mut index: usize = target;
        while level < self.height
            invariant
                level <= self.height,
                collected@.len() == level,
                index <= target,
                target < self.leaves@[0]@.len(),
                self.wf() ==> {
                    &&& index < pow2((self.height - level) as nat)
                    &&& collected.deep_view() + self.spec_path(level as int, index as int)
                        == self.spec_path(0, target as int)
                },
            decreases self.height - level,
        {
            if level >= self.leaves.len() {
                return Err(MerkleError::NodeNotFound { level, index });
            }
            let sibling_index = get_sibling_node(index);
            let row_len = self.leaves[level].len();
            if sibling_index >= row_len {
                return Err(MerkleError::NodeNotFound { level, index: sibling_index });
            }
            let ghost pre = collected.deep_view();
            collected.push(self.leaves[level][sibling_index].hash);
            proof {
                if self.wf() {
                    assert(collected.deep_view() =~~= pre + seq![
                        self.hash_at(level as int, sib_of(index as int)),
                    ]);
                    assert(self.spec_path(level as int, index as int) == seq![
                        self.hash_at(level as int, sib_of(index as int)),
                    ] + self.spec_path(level + 1, index as int / 2));
                    assert(collected.deep_view() + self.spec_path(level + 1, index as int / 2)
                        =~~= self.spec_path(0, target as int));
                    assert(pow2((self.height - level) as nat) == 2 * pow2(
                        (self.height - level - 1) as nat,
                    ));
                }
            }
            let (next_level, next_index) = get_parent_node(level, index);
            level = next_level;
            index = next_index;
        }
        proof {
            if self.wf() {
                assert(self.spec_path(level as int, index as int) == Seq::<Seq<u8>>::empty());
                assert(collected.deep_view() =~~= self.spec_path(0, target as int));
            }
        }
        Ok(
            MerkleProof {
                data: target_data,
                index: target,
                proof: collected,
                root_hash: self.root.hash,
            },
        )
    }

    /// Verifies an inclusion proof: recomputes the leaf hash from the
    /// record, climbs the sibling path, and accepts only when the recomputed
    /// hash equals both the proof's root hash and this tree's root hash.
    /// Returns `Ok(true)` exactly then; any mismatch is `InvalidRootHash`
    /// carrying the expected and recomputed hashes. There is no partial
    /// validity.
    #[verifier::loop_isolation(false)]
    pub fn verify_proof(&self, proof: MerkleProof<D>) -> (r: Result<bool, MerkleError>)
        requires
            proof.data.wf(),
            H::leaf_ok(proof.data.spec_to_bytes()),
            forall|i: int| 0 <= i < proof.proof@.len() ==> H::node_ok((#[trigger] proof.proof@[i])@),
        ensures
            ({
                let climbed = spec_climb::<H>(
                    H::leaf_hash(proof.data.spec_to_bytes()),
                    proof.index as int,
                    proof.proof.deep_view(),
                );
                match r {
                    Ok(b) => b && climbed == proof.root_hash@ && climbed == self.root.hash@,
                    Err(e) => match e {
                        MerkleError::InvalidRootHash { exp, act } => {
                            &&& act@ == climbed
                            &&& !(climbed == proof.root_hash@ && climbed == self.root.hash@)
                            &&& (if climbed != proof.root_hash@ {
                                exp == proof.root_hash
                            } else {
                                exp == self.root.hash
                            })
                        },
                        _ => false,
                    },
                }
            }),
    {
        let data_bytes = proof.data.to_bytes();
        let mut hash = self.hasher.hash_leaf(data_bytes.as_slice());
        proof {
            H::lemma_leaf_hash_ok(proof.data.spec_to_bytes());
        }
        let ghost leaf0 = hash@;
        let ghost whole = proof.proof.deep_view();
        let mut level: usize = 0;
        let mut index: usize = proof.index;
        let mut i: usize = 0;
        proof {
            assert(whole.skip(0) =~~= whole);
        }
        while i < proof.proof.len()
            invariant
                i <= proof.proof@.len(),
                i == level,
                index <= proof.index,
                H::node_ok(hash@),
                spec_climb::<H>(leaf0, proof.index as int, whole) == spec_climb::<H>(
                    hash@,
                    index as int,
                    whole.skip(i as int),
                ),
            decreases proof.proof@.len() - i,
        {
            let sibling = proof.proof[i];
            let ghost pre_hash = hash@;
            let ghost pre_index = index as int;
            if index % 2 == 0 {
                hash = self.hasher.hash_internal(&hash, &sibling);
            } else {
                hash = self.hasher.hash_internal(&sibling, &hash);
            }
            proof {
                H::lemma_node_hash_ok(pre_hash, sibling@);
                H::lemma_node_hash_ok(sibling@, pre_hash);
                assert(whole.skip(i as int).drop_first() =~~= whole.skip(i + 1));
                assert(whole.skip(i as int)[0] == sibling@);
                assert(spec_climb::<H>(pre_hash, pre_index, whole.skip(i as int)) == spec_climb::<
                    H,
                >(hash@, pre_index / 2, whole.skip(i + 1)));
            }
            let (next_level, next_index) = get_parent_node(level, index);
            level = next_level;
            index = next_index;
            i += 1;
        }
        proof {
            assert(whole.skip(i as int) =~~= Seq::<Seq<u8>>::empty());
            assert(spec_climb::<H>(leaf0, proof.index as int, whole) == hash@);
        }
        if !bytes32_eq(&hash, &proof.root_hash) {
            return Err(MerkleError::InvalidRootHash { exp: proof.root_hash, act: hash });
        }
        if !bytes32_eq(&hash, &self.root.hash) {
            return Err(MerkleError::InvalidRootHash { exp: self.root.hash, act: hash });
        }
        Ok(true)
    }

    /// The tree's root hash as a lowercase hex string.
    pub fn root_hash_hex(&self) -> (s: String)
        ensures
            s@ == crate::hexcode::hex_of(self.root.hash@),
    {
        crate::hexcode::hex_encode(self.root.hash.as_slice())
    }
}

/// Climbing from a node with its own sibling path always lands on the top
/// node of a well-formed grid.
proof fn lemma_climb_path<D: SerializableData, H: Hasher>(
    t: IndexedMerkleTree<D, H>,
    level: int,
    index: int,
)
    requires
        t.wf(),
        0 <= level <= t.height,
        0 <= index < pow2((t.height - level) as nat),
    ensures
        spec_climb::<H>(t.hash_at(level, index), index, t.spec_path(level, index)) == t.hash_at(
            t.height as int,
            0,
        ),
    decreases t.height - level,
{
    if level == t.height {
        assert(t.spec_path(level, index) =~~= Seq::<Seq<u8>>::empty());
    } else {
        let sib = sib_of(index);
        let parent = index / 2;
        assert(pow2((t.height - level) as nat) == 2 * pow2((t.height - level - 1) as nat));
        assert(t.leaves@[level]@.len() == pow2((t.height - level) as nat));
        assert(t.leaves@[level + 1]@.len() == pow2((t.height - level - 1) as nat));
        assert(node_linked::<D, H>(t.leaves@, level + 1, parent));
        if index % 2 == 0 {
            assert(2 * parent == index);
            assert(t.hash_at(level + 1, parent) == H::node_hash(
                t.hash_at(level, index),
                t.hash_at(level, sib),
            ));
        } else {
            assert(2 * parent == index - 1);
            assert(t.hash_at(level + 1, parent) == H::node_hash(
                t.hash_at(level, sib),
                t.hash_at(level, index),
            ));
        }
        assert(t.spec_path(level, index)[0] == t.hash_at(level, sib));
        assert(t.spec_path(level, index).drop_first() =~~= t.spec_path(level + 1, parent));
        lemma_climb_path(t, level + 1, parent);
    }
}

/// Law: proof soundness. A proof generated for a record present in a
/// well-formed tree recomputes exactly the tree's root hash, so
/// `verify_proof` accepts it.
pub proof fn lemma_proof_soundness<D: SerializableData, H: Hasher>(
    t: IndexedMerkleTree<D, H>,
    p: MerkleProof<D>,
)
    requires
        t.wf(),
        p.index < t.record_count(),
        t.leaves@[0]@[p.index as int].data == Some(p.data),
        p.proof.deep_view() == t.spec_path(0, p.index as int),
        p.root_hash@ == t.root.hash@,
    ensures
        spec_climb::<H>(
            H::leaf_hash(p.data.spec_to_bytes()),
            p.index as int,
            p.proof.deep_view(),
        ) == p.root_hash@,
        spec_climb::<H>(
            H::leaf_hash(p.data.spec_to_bytes()),
            p.index as int,
            p.proof.deep_view(),
        ) == t.root.hash@,
{
    let i = p.index as int;
    let entry = t.indexer@[i];
    assert(entry.1 == i);
    assert(t.hash_at(0, i) == H::leaf_hash(p.data.spec_to_bytes()));
    assert(t.leaves@[0]@.len() == pow2((t.height - 0) as nat));
    lemma_climb_path(t, 0, i);
}

/// Matching levels of two well-formed grids over the same records hold the
/// same hashes.
proof fn lemma_levels_agree<D: SerializableData, H: Hasher>(
    t1: IndexedMerkleTree<D, H>,
    t2: IndexedMerkleTree<D, H>,
    l: int,
)
    requires
        t1.wf(),
        t2.wf(),
        t1.height == t2.height,
        t1.record_count() == t2.record_count(),
        t1.leaf_count() == t2.leaf_count(),
        forall|i: int|
            0 <= i < t1.record_count() ==> (#[trigger] t1.leaves@[0]@[i]).data == t2.leaves@[0]@[
                i
            ].data,
        0 <= l <= t1.height,
    ensures
        forall|i: int| 0 <= i < t1.leaves@[l]@.len() ==> t1.hash_at(l, i) == t2.hash_at(l, i),
    decreases l,
{
    if l == 0 {
        assert forall|i: int| 0 <= i < t1.leaves@[0]@.len() implies t1.hash_at(0, i) == t2.hash_at(
            0,
            i,
        ) by {
            if i < t1.record_count() {
                let e1 = t1.indexer@[i];
                let e2 = t2.indexer@[i];
                assert(e1.1 == i && e2.1 == i);
                assert(t1.leaves@[0]@[i].data == t2.leaves@[0]@[i].data);
            }
        }
    } else {
        lemma_levels_agree(t1, t2, l - 1);
        assert forall|i: int| 0 <= i < t1.leaves@[l]@.len() implies t1.hash_at(l, i) == t2.hash_at(
            l,
            i,
        ) by {
            assert(node_linked::<D, H>(t1.leaves@, l, i));
            assert(node_linked::<D, H>(t2.leaves@, l, i));
            assert(t1.leaves@[l]@.len() == pow2((t1.height - l) as nat));
            assert(t1.leaves@[l - 1]@.len() == pow2((t1.height - l + 1) as nat));
            assert(pow2((t1.height - l + 1) as nat) == 2 * pow2((t1.height - l) as nat));
            assert(t1.hash_at(l - 1, 2 * i) == t2.hash_at(l - 1, 2 * i));
            assert(t1.hash_at(l - 1, 2 * i + 1) == t2.hash_at(l - 1, 2 * i + 1));
        }
    }
}

/// Law: determinism. Two well-formed trees built from the same records, in
/// the same order, carry the same root hash.
pub proof fn lemma_build_deterministic<D: SerializableData, H: Hasher>(
    t1: IndexedMerkleTree<D, H>,
    t2: IndexedMerkleTree<D, H>,
)
    requires
        t1.wf(),
        t2.wf(),
        t1.record_count() == t2.record_count(),
        forall|i: int|
            0 <= i < t1.record_count() ==> (#[trigger] t1.leaves@[0]@[i]).data == t2.leaves@[0]@[
                i
            ].data,
    ensures
        t1.root.hash@ == t2.root.hash@,
        t1.height == t2.height,
{
    let n = t1.record_count();
    assert(t1.leaf_count() == pow2(t1.height as nat));
    assert(t2.leaf_count() == pow2(t2.height as nat));
    lemma_least_pow2_unique(n, t1.height as nat, t2.height as nat);
    lemma_levels_agree(t1, t2, t1.height as int);
    assert(t1.leaves@[t1.height as int]@.len() == pow2(0));
}

/// Climbs from two different hashes along the same siblings end on
/// different hashes, as long as the internal hash never collides.
proof fn lemma_climb_injective<H: Hasher>(h1: Seq<u8>, h2: Seq<u8>, index: int, sibs: Seq<Seq<u8>>)
    requires
        forall|a: Seq<u8>, b: Seq<u8>, c: Seq<u8>, d: Seq<u8>|
            #![trigger H::node_hash(a, b), H::node_hash(c, d)]
            H::node_hash(a, b) == H::node_hash(c, d) ==> a == c && b == d,
        h1 != h2,
    ensures
        spec_climb::<H>(h1, index, sibs) != spec_climb::<H>(h2, index, sibs),
    decreases sibs.len(),
{
    if sibs.len() > 0 {
        if index % 2 == 0 {
            lemma_climb_injective::<H>(
                H::node_hash(h1, sibs[0]),
                H::node_hash(h2, sibs[0]),
                index / 2,
                sibs.drop_first(),
            );
        } else {
            lemma_climb_injective::<H>(
                H::node_hash(sibs[0], h1),
                H::node_hash(sibs[0], h2),
                index / 2,
                sibs.drop_first(),
            );
        }
    }
}

/// Law: proof rejection. If a sibling path climbs to the root and any single
/// sibling hash in it is changed, the climb no longer reaches the root, so
/// `verify_proof` fails with `InvalidRootHash`. This holds under the
/// accepted cryptographic assumption that the internal hash is
/// collision-free, stated here as the injectivity hypothesis.
pub proof fn lemma_mutated_sibling_rejected<H: Hasher>(
    h: Seq<u8>,
    index: int,
    sibs1: Seq<Seq<u8>>,
    sibs2: Seq<Seq<u8>>,
    l: int,
    root: Seq<u8>,
)
    requires
        forall|a: Seq<u8>, b: Seq<u8>, c: Seq<u8>, d: Seq<u8>|
            #![trigger H::node_hash(a, b), H::node_hash(c, d)]
            H::node_hash(a, b) == H::node_hash(c, d) ==> a == c && b == d,
        spec_climb::<H>(h, index, sibs1) == root,
        sibs2.len() == sibs1.len(),
        0 <= l < sibs1.len(),
        sibs2[l] != sibs1[l],
        forall|k: int| 0 <= k < sibs1.len() && k != l ==> sibs1[k] == sibs2[k],
    ensures
        spec_climb::<H>(h, index, sibs2) != root,
    decreases sibs1.len(),
{
    if l == 0 {
        let p1 = if index % 2 == 0 {
            H::node_hash(h, sibs1[0])
        } else {
            H::node_hash(sibs1[0], h)
        };
        let p2 = if index % 2 == 0 {
            H::node_hash(h, sibs2[0])
        } else {
            H::node_hash(sibs2[0], h)
        };
        assert(p1 != p2);
        assert(sibs1.drop_first() =~~= sibs2.drop_first());
        if sibs1.len() == 1 {
        } else {
            lemma_climb_injective::<H>(p2, p1, index / 2, sibs1.drop_first());
        }
    } else {
        assert(sibs1[0] == sibs2[0]);
        let p = if index % 2 == 0 {
            H::node_hash(h, sibs1[0])
        } else {
            H::node_hash(sibs1[0], h)
        };
        lemma_mutated_sibling_rejected::<H>(
            p,
            index / 2,
            sibs1.drop_first(),
            sibs2.drop_first(),
            l - 1,
            root,
        );
    }
}

fn get_parent_node(level: usize, index: usize) -> (r: (usize, usize))
    requires
        level < usize::MAX,
    ensures
        r.0 == level + 1,
        r.1 == index as int / 2,
{
    (level + 1, index / 2)
}

fn get_sibling_node(index: usize) -> (r: usize)
    requires
        index < usize::MAX,
    ensures
        r == sib_of(index as int),
{
    if index % 2 == 0 {
        index + 1
    } else {
        index - 1
    }
}

/// Compares two 32-byte values.
fn bytes32_eq(a: &[u8; 32], b: &[u8; 32]) -> (r: bool)
    ensures
        r == (a@ == b@),
{
    let mut i: usize = 0;
    while i < 32
        invariant
            i <= 32,
            forall|j: int| 0 <= j < i ==> a@[j] == b@[j],
        decreases 32 - i,
    {
        if a[i] != b[i] {
            return false;
        }
        i += 1;
    }
    proof {
        assert(a@ =~= b@);
    }
    true
}

/// The exponent is below its power of two.
pub proof fn lemma_pow2_exp_lt(e: nat)
    ensures
        e < pow2(e),
    decreases e,
{
    if e > 0 {
        lemma_pow2_exp_lt((e - 1) as nat);
    }
}

/// The least power of two at or above `n`, with its exponent.
fn next_pow2(n: usize) -> (r: (usize, usize))
    requires
        2 <= n,
        n <= usize::MAX / 2,
    ensures
        r.0 == pow2(r.1 as nat),
        n <= r.0,
        r.0 < 2 * n,
        1 <= r.1,
{
    let mut p: usize = 1;
    let mut h: usize = 0;
    while p < n
        invariant
            p == pow2(h as nat),
            n <= usize::MAX / 2,
            h >= 1 ==> pow2((h - 1) as nat) < n,
        decreases 2 * n - p,
    {
        proof {
            lemma_pow2_exp_lt(h as nat);
        }
        p = p * 2;
        h = h + 1;
    }
    proof {
        if h >= 1 {
            assert(pow2(h as nat) == 2 * pow2((h - 1) as nat));
        }
    }
    (p, h)
}

/// Two powers of two in `[n, 2*n)` are the same power.
proof fn lemma_least_pow2_unique(n: nat, a: nat, b: nat)
    requires
        n <= pow2(a) < 2 * n,
        n <= pow2(b) < 2 * n,
    ensures
        a == b,
        pow2(a) == pow2(b),
{
    if a < b {
        lemma_pow2_mono(a, b);
    }
    if b < a {
        lemma_pow2_mono(b, a);
    }
}

/// Builds one internal level: each node hashes an adjacent pair of the row
/// below.
fn build_row<H: Hasher, D: SerializableData>(prev: &Vec<Node<D>>, hasher: &H) -> (row: Vec<
    Node<D>,
>)
    requires
        prev@.len() % 2 == 0,
        forall|i: int| 0 <= i < prev@.len() ==> H::node_ok((#[trigger] prev@[i]).hash@),
    ensures
        row@.len() == prev@.len() / 2,
        forall|k: int|
            0 <= k < row@.len() ==> {
                &&& (#[trigger] row@[k]).hash@ == H::node_hash(
                    prev@[2 * k].hash@,
                    prev@[2 * k + 1].hash@,
                )
                &&& row@[k].data is None
                &&& H::node_ok(row@[k].hash@)
            },
{
    let half = prev.len() / 2;
    let mut row: Vec<Node<D>> = Vec::new();
    let mut i: usize = 0;
    while i < half
        invariant
            i <= half,
            half == prev@.len() / 2,
            prev@.len() <= usize::MAX,
            prev@.len() % 2 == 0,
            row@.len() == i,
            forall|j: int| 0 <= j < prev@.len() ==> H::node_ok((#[trigger] prev@[j]).hash@),
            forall|k: int|
                0 <= k < i ==> {
                    &&& (#[trigger] row@[k]).hash@ == H::node_hash(
                        prev@[2 * k].hash@,
                        prev@[2 * k + 1].hash@,
                    )
                    &&& row@[k].data is None
                    &&& H::node_ok(row@[k].hash@)
                },
        decreases half - i,
    {
        proof {
            assert(2 * i + 1 < prev@.len());
        }
        let left = prev[2 * i].hash;
        let right = prev[2 * i + 1].hash;
        let parent = hasher.hash_internal(&left, &right);
        proof {
            H::lemma_node_hash_ok(left@, right@);
        }
        row.push(Node { hash: parent, data: None });
        i += 1;
    }
    row
}

/// Builds the internal levels above the leaf row, one row at a time.
#[verifier::loop_isolation(false)]
#[verifier::rlimit(100)]
fn build_levels<H: Hasher, D: SerializableData>(
    leaves: &mut Vec<Vec<Node<D>>>,
    height: usize,
    hasher: &H,
)
    requires
        old(leaves)@.len() == 1,
        1 <= height < usize::MAX,
        old(leaves)@[0]@.len() == pow2(height as nat),
        forall|i: int|
            0 <= i < old(leaves)@[0]@.len() ==> H::node_ok((#[trigger] old(leaves)@[0]@[i]).hash@),
    ensures
        final(leaves)@[0] == old(leaves)@[0],
        grid_shape_ok(final(leaves)@, height as nat),
        grid_links_ok::<D, H>(final(leaves)@, height as nat),
        grid_hashes_ok::<D, H>(final(leaves)@, height as nat),
{
    let mut level: usize = 1;
    while level <= height
        invariant
            leaves@.len() == level,
            1 <= level <= height + 1,
            leaves@[0] == old(leaves)@[0],
            forall|l: int|
                0 <= l < level ==> (#[trigger] leaves@[l])@.len() == pow2((height - l) as nat),
            forall|l: int, i: int|
                1 <= l < level && 0 <= i < leaves@[l]@.len() ==> #[trigger] node_linked::<
                    D,
                    H,
                >(leaves@, l, i),
            forall|l: int, i: int|
                0 <= l < level && 0 <= i < leaves@[l]@.len() ==> H::node_ok(
                    (#[trigger] leaves@[l]@[i]).hash@,
                ),
        decreases height + 1 - level,
    {
        proof {
            assert(leaves@[level - 1]@.len() == pow2((height - level + 1) as nat));
            assert(pow2((height - level + 1) as nat) == 2 * pow2((height - level) as nat));
        }
        let row = build_row(&leaves[level - 1], hasher);
        let ghost rowv = row@;
        let ghost pre = leaves@;
        leaves.push(row);
        proof {
            assert(leaves@.len() == level + 1);
            assert(forall|l: int| 0 <= l < level ==> leaves@[l] == pre[l]);
            assert(leaves@[level as int]@ == rowv);
            assert(rowv.len() == pow2((height - level) as nat));
            assert forall|l: int, i: int|
                1 <= l < level + 1 && 0 <= i < leaves@[l]@.len() implies #[trigger] node_linked::<
                D,
                H,
            >(leaves@, l, i) by {
                assert(leaves@[l - 1] == pre[l - 1]);
                if l < level {
                    assert(leaves@[l] == pre[l]);
                    assert(node_linked::<D, H>(pre, l, i));
                } else {
                    assert(leaves@[l]@ == rowv);
                    assert(rowv[i].hash@ == H::node_hash(
                        pre[l - 1]@[2 * i].hash@,
                        pre[l - 1]@[2 * i + 1].hash@,
                    ));
                }
            }
            assert forall|l: int, i: int|
                0 <= l < level + 1 && 0 <= i < leaves@[l]@.len() implies H::node_ok(
                (#[trigger] leaves@[l]@[i]).hash@,
            ) by {
                if l < level {
                    assert(leaves@[l] == pre[l]);
                    assert(H::node_ok(pre[l]@[i].hash@));
                } else {
                    assert(leaves@[l]@ == rowv);
                    assert(H::node_ok(rowv[i].hash@));
                }
            }
        }
        level += 1;
    }
}

/// Builds the internal levels above an already padded leaf row, bottom up,
/// and returns the root node and the height. Fails with `InvalidDataLength`
/// when fewer than two records were given.
fn build_tree<H: Hasher, D: SerializableData>(
    data_len: usize,
    leaves: &mut Vec<Vec<Node<D>>>,
    hasher: &H,
) -> (r: Result<(Node<D>, usize), MerkleError>)
    requires
        old(leaves)@.len() == 1,
        data_len <= usize::MAX / 2,
        2 <= data_len ==> {
            &&& data_len <= old(leaves)@[0]@.len() < 2 * data_len
            &&& exists|e: nat| old(leaves)@[0]@.len() == pow2(e)
            &&& forall|i: int|
                0 <= i < old(leaves)@[0]@.len() ==> H::node_ok(
                    (#[trigger] old(leaves)@[0]@[i]).hash@,
                )
        },
    ensures
        data_len < 2 ==> r == Err::<(Node<D>, usize), MerkleError>(
            MerkleError::InvalidDataLength { len: data_len },
        ) && final(leaves)@ == old(leaves)@,
        2 <= data_len ==> match r {
            Ok((root, height)) => {
                &&& 1 <= height
                &&& pow2(height as nat) == old(leaves)@[0]@.len()
                &&& final(leaves)@[0] == old(leaves)@[0]
                &&& grid_shape_ok(final(leaves)@, height as nat)
                &&& grid_links_ok::<D, H>(final(leaves)@, height as nat)
                &&& grid_hashes_ok::<D, H>(final(leaves)@, height as nat)
                &&& root.hash@ == final(leaves)@[height as int]@[0].hash@
                &&& root.data is None
            },
            Err(_) => false,
        },
{
    if data_len < 2 {
        return Err(MerkleError::InvalidDataLength { len: data_len });
    }
    let (padded, height) = next_pow2(data_len);
    proof {
        let e = choose|e: nat| leaves@[0]@.len() == pow2(e);
        lemma_least_pow2_unique(data_len as nat, e, height as nat);
    }
    proof {
        lemma_pow2_exp_lt(height as nat);
        assert(pow2(height as nat) == padded);
    }
    build_levels(leaves, height, hasher);
    if leaves.len() <= height || leaves[height].len() < 1 {
        return Err(MerkleError::NodeNotFound { level: height, index: 0 });
    }
    let root = Node { hash: leaves[height][0].hash, data: None };
    Ok((root, height))
}

} // verus!
