use vstd::prelude::*;

verus! {

/// The lowercase hex digit for a value below 16.
pub open spec fn hex_digit(n: u8) -> char
    recommends
        n < 16,
{
    if n < 10 {
        ((n + 0x30) as char)
    } else {
        ((n + 0x57) as char)
    }
}

/// Lowercase hex rendering: two digits per byte, high nibble first.
pub open spec fn hex_of(bytes: Seq<u8>) -> Seq<char> {
    Seq::new(
        bytes.len() * 2,
        |i: int| if i % 2 == 0 {
            hex_digit(bytes[i / 2] >> 4)
        } else {
            hex_digit(bytes[i / 2] & 0xf)
        },
    )
}

/// Relies on hex::encode: encodes bytes as lowercase hex, two digits per
/// byte, high nibble first.
#[verifier::external_body]
pub(crate) fn hex_encode(bytes: &[u8]) -> (r: String)
    ensures
        r@ == hex_of(bytes@),
{
    hex::encode(bytes)
}

} // verus!
