//! Hex rendering of vector payloads, as the bulk-write path stores them.
//!
//! The rendering itself is pinned down by `spec_hex`; the one outside call,
//! `hex::encode`, is trusted to produce exactly that.

use vstd::prelude::*;
use vstd::string::StringExecFns;
use crate::codec::{spec_encode, encode};
use crate::records::{LabelType, InputStored};

verus! {

/// The lowercase hex digit for a nibble.
pub open spec fn hex_digit(n: u8) -> char
    recommends
        n < 16,
{
    if n == 0 { '0' }
    else if n == 1 { '1' }
    else if n == 2 { '2' }
    else if n == 3 { '3' }
    else if n == 4 { '4' }
    else if n == 5 { '5' }
    else if n == 6 { '6' }
    else if n == 7 { '7' }
    else if n == 8 { '8' }
    else if n == 9 { '9' }
    else if n == 10 { 'a' }
    else if n == 11 { 'b' }
    else if n == 12 { 'c' }
    else if n == 13 { 'd' }
    else if n == 14 { 'e' }
    else { 'f' }
}

/// The lowercase hex rendering of a byte string: two digits per byte, high
/// nibble first.
pub open spec fn spec_hex(b: Seq<u8>) -> Seq<char>
    decreases b.len(),
{
    if b.len() == 0 {
        Seq::empty()
    } else {
        spec_hex(b.drop_last()) + seq![
            hex_digit((b.last() / 16) as u8),
            hex_digit((b.last() % 16) as u8),
        ]
    }
}

/// Hex rendering distributes over concatenation of byte strings.
pub proof fn lemma_spec_hex_add(a: Seq<u8>, b: Seq<u8>)
    ensures
        spec_hex(a + b) == spec_hex(a) + spec_hex(b),
    decreases b.len(),
{
    if b.len() == 0 {
        assert(a + b =~= a);
        assert(spec_hex(a) + spec_hex(b) =~= spec_hex(a));
    } else {
        lemma_spec_hex_add(a, b.drop_last());
        assert((a + b).drop_last() =~= a + b.drop_last());
        assert((a + b).last() == b.last());
        assert(spec_hex(a) + spec_hex(b) =~= spec_hex(a) + spec_hex(b.drop_last()) + seq![
            hex_digit((b.last() / 16) as u8),
            hex_digit((b.last() % 16) as u8),
        ]);
    }
}

/// Relies on hex::encode: it renders each byte as two lowercase hex digits,
/// high nibble first, in byte order.
#[verifier::external_body]
fn to_hex(bytes: &[u8]) -> (r: String)
    ensures
        r@ == spec_hex(bytes@),
{
    hex::encode(bytes)
}

/// Renders a label vector as the hex of its byte payload.
pub fn label_to_hex(label: &LabelType) -> (r: String)
    ensures
        r@ == spec_hex(spec_encode(label@)),
{
    let bytes = encode(label);
    to_hex(bytes.as_slice())
}

/// Renders a full model input as the hex of its byte payload: the feature
/// part's encoding, then the series part's.
pub fn input_to_hex(input: &InputStored) -> (r: String)
    ensures
        r@ == spec_hex(spec_encode(input.0@) + spec_encode(input.1@)),
{
    let chrono_bytes = encode(&input.0);
    let series_bytes = encode(&input.1);
    let mut s = to_hex(chrono_bytes.as_slice());
    let tail = to_hex(series_bytes.as_slice());
    s.append(tail.as_str());
    proof {
        lemma_spec_hex_add(spec_encode(input.0@), spec_encode(input.1@));
    }
    s
}

} // verus!
