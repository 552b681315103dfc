use vstd::prelude::*;

use vstd::bytes::lemma_auto_spec_u32_to_from_le_bytes;
use vstd::bytes::spec_u32_from_le_bytes;
use vstd::bytes::spec_u32_to_le_bytes;
use vstd::bytes::u32_from_le_bytes;
use vstd::bytes::u32_to_le_bytes;
use vstd::slice::slice_subrange;
use vstd::slice::slice_to_vec;
use vstd::string::StringSliceAdditionalSpecFns;
use vstd::utf8::decode_utf8;
use vstd::utf8::encode_utf8;
use vstd::utf8::encode_utf8_decode_utf8;
use vstd::utf8::encode_utf8_valid_utf8;
use vstd::utf8::valid_utf8;

use crate::hasher::Hasher;
use crate::hasher::PoseidonHasher;
use crate::node::SerializableData;

verus! {

/// The spec-level image of a distribution entry: its two fields as
/// character sequences.
pub struct DistributionEntryView {
    pub address: Seq<char>,
    pub amount: Seq<char>,
}

/// One reward-distribution record: an address and the amount it receives,
/// both strings. The address is the record's identity: its hash is the
/// record's lookup key.
#[derive(Debug, Clone)]
pub struct DistributionEntry {
    pub address: String,
    pub amount: String,
}

impl View for DistributionEntry {
    type V = DistributionEntryView;

    open spec fn view(&self) -> DistributionEntryView {
        DistributionEntryView { address: self.address@, amount: self.amount@ }
    }
}

/// The length-prefixed encoding of the two fields: each field's UTF-8 bytes
/// preceded by their count as four little-endian bytes. The prefixes make
/// the encoding unambiguous for fields of any length.
pub open spec fn spec_encode_entry(address: Seq<char>, amount: Seq<char>) -> Seq<u8> {
    let ab = encode_utf8(address);
    let mb = encode_utf8(amount);
    spec_u32_to_le_bytes(ab.len() as u32) + ab + spec_u32_to_le_bytes(mb.len() as u32) + mb
}

/// The byte strings that decode to a distribution entry: a four-byte length,
/// that many bytes of valid UTF-8, and the same again, with nothing left
/// over.
pub open spec fn entry_bytes_ok(bytes: Seq<u8>) -> bool {
    &&& bytes.len() >= 8
    &&& {
        let alen = spec_u32_from_le_bytes(bytes.subrange(0, 4)) as int;
        &&& bytes.len() >= 8 + alen
        &&& {
            let mlen = spec_u32_from_le_bytes(bytes.subrange(4 + alen, 8 + alen)) as int;
            &&& bytes.len() == 8 + alen + mlen
            &&& valid_utf8(bytes.subrange(4, 4 + alen))
            &&& valid_utf8(bytes.subrange(8 + alen, 8 + alen + mlen))
        }
    }
}

/// Relies on String::from_utf8: it succeeds exactly on valid UTF-8 input,
/// and the returned string consists of the characters those bytes encode.
#[verifier::external_body]
fn string_from_utf8(bytes: Vec<u8>) -> (r: Option<String>)
    ensures
        r is Some <==> valid_utf8(bytes@),
        r matches Some(s) ==> encode_utf8(s@) == bytes@,
{
    String::from_utf8(bytes).ok()
}

/// Appends a byte slice to a vector.
fn push_bytes(v: &mut Vec<u8>, s: &[u8])
    ensures
        final(v)@ == old(v)@ + s@,
{
    let mut i: usize = 0;
    while i < s.len()
        invariant
            i <= s@.len(),
            v@ == old(v)@ + s@.subrange(0, i as int),
        decreases s@.len() - i,
    {
        v.push(s[i]);
        proof {
            assert(v@ =~= old(v)@ + s@.subrange(0, i + 1));
        }
        i += 1;
    }
    proof {
        assert(v@ =~= old(v)@ + s@);
    }
}

impl SerializableData for DistributionEntry {
    /// Both fields fit a four-byte length prefix.
    open spec fn wf(self) -> bool {
        &&& encode_utf8(self.address@).len() <= u32::MAX
        &&& encode_utf8(self.amount@).len() <= u32::MAX
    }

    /// The address fits one Poseidon input block.
    open spec fn key_ok(self) -> bool {
        encode_utf8(self.address@).len() <= 31
    }

    open spec fn spec_to_bytes(self) -> Seq<u8> {
        spec_encode_entry(self.address@, self.amount@)
    }

    open spec fn spec_key(self) -> Seq<u8> {
        <PoseidonHasher as Hasher>::leaf_hash(encode_utf8(self.address@))
    }

    open spec fn bytes_ok(bytes: Seq<u8>) -> bool {
        entry_bytes_ok(bytes)
    }

    proof fn lemma_encoding_ok(self) {
        lemma_entry_encoding_parts(self.address@, self.amount@);
    }

    proof fn lemma_encoding_injective(self, other: Self) {
        lemma_entry_encoding_injective(self.address@, self.amount@, other.address@, other.amount@);
    }

    fn to_bytes(&self) -> (r: Vec<u8>) {
        let ghost ab = encode_utf8(self.address@);
        let ghost mb = encode_utf8(self.amount@);
        let alen = self.address.as_str().len();
        let mlen = self.amount.as_str().len();
        let mut r = u32_to_le_bytes(alen as u32);
        push_bytes(&mut r, self.address.as_str().as_bytes());
        let prefix = u32_to_le_bytes(mlen as u32);
        push_bytes(&mut r, prefix.as_slice());
        push_bytes(&mut r, self.amount.as_str().as_bytes());
        proof {
            assert(r@ =~= spec_u32_to_le_bytes(ab.len() as u32) + ab + spec_u32_to_le_bytes(
                mb.len() as u32,
            ) + mb);
        }
        r
    }

    fn from_bytes(bytes: Vec<u8>) -> (r: Self) {
        proof {
            lemma_auto_spec_u32_to_from_le_bytes();
        }
        let alen = u32_from_le_bytes(slice_subrange(bytes.as_slice(), 0, 4)) as usize;
        let abytes = slice_to_vec(slice_subrange(bytes.as_slice(), 4, 4 + alen));
        let mlen = u32_from_le_bytes(
            slice_subrange(bytes.as_slice(), 4 + alen, 8 + alen),
        ) as usize;
        let mbytes = slice_to_vec(slice_subrange(bytes.as_slice(), 8 + alen, 8 + alen + mlen));
        let address = string_from_utf8(abytes).unwrap();
        let amount = string_from_utf8(mbytes).unwrap();
        let r = DistributionEntry { address, amount };
        proof {
            let ab = encode_utf8(r.address@);
            let mb = encode_utf8(r.amount@);
            assert(ab == bytes@.subrange(4, 4 + alen as int));
            assert(mb == bytes@.subrange(8 + alen as int, 8 + alen as int + mlen as int));
            assert(spec_u32_to_le_bytes(ab.len() as u32) == bytes@.subrange(0, 4));
            assert(spec_u32_to_le_bytes(mb.len() as u32) == bytes@.subrange(
                4 + alen as int,
                8 + alen as int,
            ));
            assert(r.spec_to_bytes() =~= bytes@);
        }
        r
    }

    fn key(&self) -> (r: [u8; 32]) {
        let hasher = PoseidonHasher;
        hasher.hash_leaf(self.address.as_str().as_bytes())
    }

    fn clone_data(&self) -> (r: Self) {
        DistributionEntry { address: self.address.clone(), amount: self.amount.clone() }
    }
}

/// A valid entry's encoding parses back into exactly its two fields.
proof fn lemma_entry_encoding_parts(address: Seq<char>, amount: Seq<char>)
    requires
        encode_utf8(address).len() <= u32::MAX,
        encode_utf8(amount).len() <= u32::MAX,
    ensures
        ({
            let bytes = spec_encode_entry(address, amount);
            let alen = encode_utf8(address).len() as int;
            let mlen = encode_utf8(amount).len() as int;
            &&& bytes.len() == 8 + alen + mlen
            &&& bytes.subrange(0, 4) == spec_u32_to_le_bytes(encode_utf8(address).len() as u32)
            &&& spec_u32_from_le_bytes(bytes.subrange(0, 4)) == alen
            &&& bytes.subrange(4, 4 + alen) == encode_utf8(address)
            &&& bytes.subrange(4 + alen, 8 + alen) == spec_u32_to_le_bytes(
                encode_utf8(amount).len() as u32,
            )
            &&& spec_u32_from_le_bytes(bytes.subrange(4 + alen, 8 + alen)) == mlen
            &&& bytes.subrange(8 + alen, 8 + alen + mlen) == encode_utf8(amount)
            &&& entry_bytes_ok(bytes)
        }),
{
    lemma_auto_spec_u32_to_from_le_bytes();
    broadcast use encode_utf8_valid_utf8;

    let ab = encode_utf8(address);
    let mb = encode_utf8(amount);
    let bytes = spec_encode_entry(address, amount);
    let alen = ab.len() as int;
    let mlen = mb.len() as int;
    assert(bytes.subrange(0, 4) =~= spec_u32_to_le_bytes(ab.len() as u32));
    assert(bytes.subrange(4, 4 + alen) =~= ab);
    assert(bytes.subrange(4 + alen, 8 + alen) =~= spec_u32_to_le_bytes(mb.len() as u32));
    assert(bytes.subrange(8 + alen, 8 + alen + mlen) =~= mb);
}

/// The encoding is unambiguous: equal encodings come from equal fields.
proof fn lemma_entry_encoding_injective(
    a1: Seq<char>,
    m1: Seq<char>,
    a2: Seq<char>,
    m2: Seq<char>,
)
    requires
        encode_utf8(a1).len() <= u32::MAX,
        encode_utf8(m1).len() <= u32::MAX,
        encode_utf8(a2).len() <= u32::MAX,
        encode_utf8(m2).len() <= u32::MAX,
        spec_encode_entry(a1, m1) == spec_encode_entry(a2, m2),
    ensures
        a1 == a2,
        m1 == m2,
{
    broadcast use encode_utf8_decode_utf8;

    lemma_entry_encoding_parts(a1, m1);
    lemma_entry_encoding_parts(a2, m2);
    let bytes = spec_encode_entry(a1, m1);
    assert(encode_utf8(a1).len() == encode_utf8(a2).len());
    assert(encode_utf8(a1) == encode_utf8(a2));
    assert(encode_utf8(m1) == encode_utf8(m2));
    assert(decode_utf8(encode_utf8(a1)) == a1);
    assert(decode_utf8(encode_utf8(m1)) == m1);
}

} // verus!
