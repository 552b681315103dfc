use vstd::prelude::*;

verus! {

/// Numeric order of two equal-length big-endian byte strings: `a < b` exactly
/// when, at the first position where they differ, `a` has the smaller byte.
pub open spec fn be_lt(a: Seq<u8>, b: Seq<u8>) -> bool
    recommends
        a.len() == b.len(),
{
    exists|i: int|
        0 <= i < a.len() && a[i] < b[i] && (forall|j: int| 0 <= j < i ==> a[j] == b[j])
}

/// The order of the BN254 scalar field, as 32 big-endian bytes. The Poseidon
/// hash below works on numbers below this prime.
pub open spec fn fr_modulus_be() -> Seq<u8> {
    seq![
        0x30u8, 0x64, 0x4e, 0x72, 0xe1, 0x31, 0xa0, 0x29,
        0xb8, 0x50, 0x45, 0xb6, 0x81, 0x81, 0x58, 0x5d,
        0x28, 0x33, 0xe8, 0x48, 0x79, 0xb9, 0x70, 0x91,
        0x43, 0xe1, 0xf5, 0x93, 0xf0, 0x00, 0x00, 0x01,
    ]
}

/// A 32-byte block holding `data` right-aligned after leading zero bytes.
pub open spec fn pad32(data: Seq<u8>) -> Seq<u8>
    recommends
        data.len() <= 32,
{
    Seq::new(32, |i: int| if i < 32 - data.len() { 0u8 } else { data[i - (32 - data.len())] })
}

/// What light_poseidon's Poseidon hash over the BN254 scalar field returns
/// for a sequence of 32-byte big-endian blocks. Only the outside crate
/// computes it, so the result is named, not written out.
pub uninterp spec fn poseidon_blocks(inputs: Seq<Seq<u8>>) -> Seq<u8>;

/// The Poseidon hash of the given blocks. A Poseidon output is always the
/// 32-byte big-endian form of a field element; stating results through this
/// wrapper keeps that shape available to proofs.
pub open spec fn poseidon_out(inputs: Seq<Seq<u8>>) -> Seq<u8> {
    let h = poseidon_blocks(inputs);
    if h.len() == 32 && be_lt(h, fr_modulus_be()) {
        h
    } else {
        Seq::new(32, |i: int| 0u8)
    }
}

/// An all-zero byte string is numerically below the field order.
pub proof fn lemma_zero_below_modulus(s: Seq<u8>)
    requires
        s.len() == 32,
        forall|i: int| 0 <= i < s.len() ==> s[i] == 0,
    ensures
        be_lt(s, fr_modulus_be()),
{
    assert(s[0] < fr_modulus_be()[0]);
}

/// Every Poseidon output is a 32-byte value below the field order.
pub proof fn lemma_poseidon_out_shape(inputs: Seq<Seq<u8>>)
    ensures
        poseidon_out(inputs).len() == 32,
        be_lt(poseidon_out(inputs), fr_modulus_be()),
{
    let h = poseidon_blocks(inputs);
    if !(h.len() == 32 && be_lt(h, fr_modulus_be())) {
        lemma_zero_below_modulus(Seq::new(32, |i: int| 0u8));
    }
}

/// Relies on light_poseidon: `Poseidon::<ark_bn254::Fr>::new_circom(n)`
/// followed by `hash_bytes_be` hashes `n` big-endian 32-byte blocks, each
/// required to be below the field order, and returns the hash as the 32-byte
/// big-endian form of a field element. For 1 to 12 such blocks neither call
/// can fail.
#[verifier::external_body]
fn poseidon_hash_blocks(blocks: &Vec<Vec<u8>>) -> (r: [u8; 32])
    requires
        1 <= blocks@.len() <= 12,
        forall|i: int|
            0 <= i < blocks@.len() ==> (#[trigger] blocks@[i])@.len() == 32 && be_lt(
                blocks@[i]@,
                fr_modulus_be(),
            ),
    ensures
        r@ == poseidon_blocks(blocks.deep_view()),
        r@ == poseidon_out(blocks.deep_view()),
{
    let refs: Vec<&[u8]> = blocks.iter().map(|b| b.as_slice()).collect();
    let mut poseidon = light_poseidon::Poseidon::<ark_bn254::Fr>::new_circom(refs.len()).unwrap();
    light_poseidon::PoseidonBytesHasher::hash_bytes_be(&mut poseidon, &refs).unwrap()
}

/// A pluggable one-way hash: leaf hashing, 2-to-1 internal node hashing, and
/// the canonical empty-leaf hash. Implementations are pure functions of their
/// inputs, with no internal state.
pub trait Hasher: Sized {
    /// The byte strings the implementation accepts as leaf data.
    spec fn leaf_ok(data: Seq<u8>) -> bool;

    /// The 32-byte values the implementation accepts and produces as hashes.
    spec fn node_ok(h: Seq<u8>) -> bool;

    /// The hash `hash_leaf` returns.
    spec fn leaf_hash(data: Seq<u8>) -> Seq<u8>;

    /// The hash `hash_internal` returns.
    spec fn node_hash(left: Seq<u8>, right: Seq<u8>) -> Seq<u8>;

    /// The canonical padding-leaf hash, returned by `zero`.
    spec fn zero_hash() -> Seq<u8>;

    proof fn lemma_zero_hash_ok()
        ensures
            Self::zero_hash().len() == 32,
            Self::node_ok(Self::zero_hash()),
    ;

    proof fn lemma_leaf_hash_ok(data: Seq<u8>)
        requires
            Self::leaf_ok(data),
        ensures
            Self::leaf_hash(data).len() == 32,
            Self::node_ok(Self::leaf_hash(data)),
    ;

    proof fn lemma_node_hash_ok(left: Seq<u8>, right: Seq<u8>)
        requires
            Self::node_ok(left),
            Self::node_ok(right),
        ensures
            Self::node_hash(left, right).len() == 32,
            Self::node_ok(Self::node_hash(left, right)),
    ;

    fn hash_leaf(&self, data: &[u8]) -> (r: [u8; 32])
        requires
            Self::leaf_ok(data@),
        ensures
            r@ == Self::leaf_hash(data@),
    ;

    fn hash_internal(&self, left: &[u8; 32], right: &[u8; 32]) -> (r: [u8; 32])
        requires
            Self::node_ok(left@),
            Self::node_ok(right@),
        ensures
            r@ == Self::node_hash(left@, right@),
    ;

    fn zero() -> (r: [u8; 32])
        ensures
            r@ == Self::zero_hash(),
    ;

    /// Decides at run time whether a 32-byte value lies in the hash domain,
    /// so that callers can establish `node_ok` for untrusted hashes.
    fn hash_in_domain(h: &[u8; 32]) -> (r: bool)
        ensures
            r == Self::node_ok(h@),
    ;
}

/// An arithmetic-circuit-friendly hasher over the BN254 scalar field, backed
/// by the light_poseidon crate. Leaf data of at most 31 bytes is padded to
/// one 32-byte block, which keeps it below the field order.
#[derive(Debug, Clone)]
pub struct PoseidonHasher;

impl Hasher for PoseidonHasher {
    open spec fn leaf_ok(data: Seq<u8>) -> bool {
        data.len() <= 31
    }

    open spec fn node_ok(h: Seq<u8>) -> bool {
        h.len() == 32 && be_lt(h, fr_modulus_be())
    }

    open spec fn leaf_hash(data: Seq<u8>) -> Seq<u8> {
        poseidon_out(seq![pad32(data)])
    }

    open spec fn node_hash(left: Seq<u8>, right: Seq<u8>) -> Seq<u8> {
        poseidon_out(seq![left, right])
    }

    open spec fn zero_hash() -> Seq<u8> {
        Seq::new(32, |i: int| 0u8)
    }

    proof fn lemma_zero_hash_ok() {
        lemma_zero_below_modulus(Self::zero_hash());
    }

    proof fn lemma_leaf_hash_ok(data: Seq<u8>) {
        lemma_poseidon_out_shape(seq![pad32(data)]);
    }

    proof fn lemma_node_hash_ok(left: Seq<u8>, right: Seq<u8>) {
        lemma_poseidon_out_shape(seq![left, right]);
    }

    fn hash_leaf(&self, data: &[u8]) -> (r: [u8; 32]) {
        let len: usize = data.len();
        let mut block: Vec<u8> = Vec::new();
        let mut j: usize = 0;
        while j < 32 - len
            invariant
                len <= 31,
                j <= 32 - len,
                block@.len() == j,
                forall|k: int| 0 <= k < j ==> block@[k] == 0u8,
            decreases 32 - len - j,
        {
            block.push(0u8);
            j += 1;
        }
        let mut k: usize = 0;
        while k < len
            invariant
                len <= 31,
                len == data@.len(),
                block@.len() == 32 - len + k,
                k <= len,
                forall|m: int| 0 <= m < 32 - len ==> block@[m] == 0u8,
                forall|m: int| 0 <= m < k ==> block@[32 - len + m] == data@[m],
            decreases len - k,
        {
            block.push(data[k]);
            k += 1;
        }
        proof {
            assert(block@ =~= pad32(data@));
            assert(be_lt(block@, fr_modulus_be())) by {
                assert(block@[0] == 0u8);
                assert(block@[0] < fr_modulus_be()[0]);
            }
        }
        let mut blocks: Vec<Vec<u8>> = Vec::new();
        blocks.push(block);
        let r = poseidon_hash_blocks(&blocks);
        proof {
            assert(blocks.deep_view() =~~= seq![pad32(data@)]);
        }
        r
    }

    fn hash_internal(&self, left: &[u8; 32], right: &[u8; 32]) -> (r: [u8; 32]) {
        let mut blocks: Vec<Vec<u8>> = Vec::new();
        blocks.push(block_to_vec(left));
        blocks.push(block_to_vec(right));
        let r = poseidon_hash_blocks(&blocks);
        proof {
            assert(blocks.deep_view() =~~= seq![left@, right@]);
        }
        r
    }

    fn zero() -> (r: [u8; 32]) {
        let r: [u8; 32] = vstd::array::array_fill_for_copy_types(0u8);
        proof {
            broadcast use vstd::array::axiom_spec_array_fill_for_copy_type;

            assert(r@ =~= Seq::new(32, |i: int| 0u8));
        }
        r
    }

    fn hash_in_domain(h: &[u8; 32]) -> (r: bool) {
        let m: Vec<u8> = fr_modulus_be_bytes();
        let mut i: usize = 0;
        while i < 32
            invariant
                i <= 32,
                m@ == fr_modulus_be(),
                forall|j: int| 0 <= j < i ==> h@[j] == fr_modulus_be()[j],
            decreases 32 - i,
        {
            if h[i] < m[i] {
                return true;
            }
            if h[i] > m[i] {
                proof {
                    lemma_be_lt_after_equal_prefix(h@, fr_modulus_be(), i as int);
                }
                return false;
            }
            i += 1;
        }
        proof {
            assert(h@ =~= fr_modulus_be());
            lemma_be_lt_irreflexive(h@);
        }
        false
    }
}

/// A byte string is never numerically below itself.
proof fn lemma_be_lt_irreflexive(a: Seq<u8>)
    ensures
        !be_lt(a, a),
{
}

/// If `a` and `b` agree up to a position where `a` has the larger byte, then
/// `a` is not numerically below `b`.
proof fn lemma_be_lt_after_equal_prefix(a: Seq<u8>, b: Seq<u8>, d: int)
    requires
        a.len() == b.len(),
        0 <= d < a.len(),
        forall|j: int| 0 <= j < d ==> a[j] == b[j],
        a[d] > b[d],
    ensures
        !be_lt(a, b),
{
    assert forall|i: int| 0 <= i < a.len() && a[i] < b[i] implies !(forall|j: int|
        0 <= j < i ==> a[j] == b[j]) by {
        if forall|j: int| 0 <= j < i ==> a[j] == b[j] {
            if i < d {
                assert(a[i] == b[i]);
            } else if i == d {
                assert(a[d] > b[d]);
            } else {
                assert(a[d] == b[d]);
            }
        }
    }
}

/// The 32 bytes of `fr_modulus_be`, for run-time comparisons.
fn fr_modulus_be_bytes() -> (v: Vec<u8>)
    ensures
        v@ == fr_modulus_be(),
{
    let v: Vec<u8> = vec![
        0x30u8, 0x64, 0x4e, 0x72, 0xe1, 0x31, 0xa0, 0x29,
        0xb8, 0x50, 0x45, 0xb6, 0x81, 0x81, 0x58, 0x5d,
        0x28, 0x33, 0xe8, 0x48, 0x79, 0xb9, 0x70, 0x91,
        0x43, 0xe1, 0xf5, 0x93, 0xf0, 0x00, 0x00, 0x01,
    ];
    proof {
        assert(v@ =~= fr_modulus_be());
    }
    v
}

/// Copies one 32-byte block into a vector.
fn block_to_vec(b: &[u8; 32]) -> (v: Vec<u8>)
    ensures
        v@ == b@,
{
    let mut v: Vec<u8> = Vec::new();
    let mut i: usize = 0;
    while i < 32
        invariant
            i <= 32,
            v@.len() == i,
            forall|j: int| 0 <= j < i ==> v@[j] == b@[j],
        decreases 32 - i,
    {
        v.push(b[i]);
        i += 1;
    }
    proof {
        assert(v@ =~= b@);
    }
    v
}

} // verus!
