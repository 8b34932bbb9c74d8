//! Vector codec: packs fixed-length scalar vectors to byte payloads and back.
//!
//! Encoding is the concatenation of each element's little-endian bytes, with
//! no length prefix: the length is implied by the expected element count and
//! validated on decode.

use vstd::prelude::*;
use vstd::bytes::{spec_u32_to_le_bytes, spec_u32_from_le_bytes, lemma_auto_spec_u32_to_from_le_bytes, u32_to_le_bytes, u32_from_le_bytes};
use vstd::slice::slice_subrange;
use crate::FloatBits;
use crate::records::{LabelType, InputStored, LABEL_LEN, CHRONO_LEN, SERIES_LEN, INPUT_LEN};

verus! {

/// Decoding failure: the payload length does not match the expected shape.
#[derive(Clone, Copy, Debug, PartialEq, Eq, Structural)]
pub enum CodecError {
    LengthMismatch,
}

/// The byte payload of a vector: each element's little-endian bytes, in order.
pub open spec fn spec_encode(s: Seq<FloatBits>) -> Seq<u8>
    decreases s.len(),
{
    if s.len() == 0 {
        Seq::empty()
    } else {
        spec_encode(s.drop_last()) + spec_u32_to_le_bytes(s.last())
    }
}

/// The vector a payload of `4 * n` bytes decodes to: one element per 4-byte
/// group, each read little-endian.
pub open spec fn spec_decode(b: Seq<u8>) -> Seq<FloatBits>
    decreases b.len(),
{
    if b.len() < 4 {
        Seq::empty()
    } else {
        spec_decode(b.take(b.len() - 4)).push(spec_u32_from_le_bytes(b.skip(b.len() - 4)))
    }
}

pub broadcast proof fn lemma_spec_encode_len(s: Seq<FloatBits>)
    ensures
        #[trigger] spec_encode(s).len() == 4 * s.len(),
    decreases s.len(),
{
    lemma_auto_spec_u32_to_from_le_bytes();
    if s.len() > 0 {
        lemma_spec_encode_len(s.drop_last());
    }
}

/// Round trip: decoding the encoding of any vector gives the vector back,
/// bit for bit.
pub proof fn lemma_round_trip(s: Seq<FloatBits>)
    ensures
        spec_decode(spec_encode(s)) == s,
    decreases s.len(),
{
    lemma_auto_spec_u32_to_from_le_bytes();
    broadcast use lemma_spec_encode_len;
    if s.len() > 0 {
        lemma_round_trip(s.drop_last());
        let b = spec_encode(s);
        assert(b.take(b.len() - 4) =~= spec_encode(s.drop_last()));
        assert(b.skip(b.len() - 4) =~= spec_u32_to_le_bytes(s.last()));
        assert(spec_decode(b) =~= s);
    } else {
        assert(spec_decode(spec_encode(s)) =~= s);
    }
}

/// Packs a vector into its byte payload.
pub fn encode(v: &Vec<FloatBits>) -> (r: Vec<u8>)
    ensures
        r@ == spec_encode(v@),
        r@.len() == 4 * v@.len(),
{
    broadcast use lemma_spec_encode_len;
    let mut out: Vec<u8> = Vec::new();
    let mut i: usize = 0;
    while i < v.len()
        invariant
            i <= v@.len(),
            out@ == spec_encode(v@.take(i as int)),
            out@.len() == 4 * i,
        decreases v@.len() - i,
    {
        let bytes = u32_to_le_bytes(v[i]);
        let ghost prev = out@;
        out.push(bytes[0]);
        out.push(bytes[1]);
        out.push(bytes[2]);
        out.push(bytes[3]);
        proof {
            assert(out@ =~= prev + spec_u32_to_le_bytes(v@[i as int]));
            assert(v@.take(i + 1).drop_last() =~= v@.take(i as int));
            assert(v@.take(i + 1).last() == v@[i as int]);
        }
        i += 1;
    }
    proof {
        assert(v@.take(v@.len() as int) =~= v@);
    }
    out
}

/// Unpacks a byte payload into a vector of `n` elements. Fails with
/// `CodecError::LengthMismatch` if and only if the payload is not exactly
/// `4 * n` bytes.
pub fn decode(b: &[u8], n: usize) -> (r: Result<Vec<FloatBits>, CodecError>)
    ensures
        b@.len() == 4 * n ==> r is Ok && r->Ok_0@ == spec_decode(b@) && r->Ok_0@.len() == n,
        b@.len() != 4 * n ==> r == Err::<Vec<FloatBits>, _>(CodecError::LengthMismatch),
{
    let blen: usize = b.len();
    if blen % 4 != 0 || blen / 4 != n {
        return Err(CodecError::LengthMismatch);
    }
    proof {
        assert(b@.len() == 4 * n);
    }
    let mut out: Vec<FloatBits> = Vec::new();
    let mut i: usize = 0;
    while i < n
        invariant
            i <= n,
            b@.len() == 4 * n,
            4 * n <= usize::MAX,
            out@ == spec_decode(b@.take(4 * i)),
            out@.len() == i,
        decreases n - i,
    {
        let word = u32_from_le_bytes(slice_subrange(b, 4 * i, 4 * i + 4));
        let ghost prev = b@.take(4 * i);
        out.push(word);
        proof {
            let cur = b@.take(4 * (i + 1));
            assert(cur.take(cur.len() - 4) =~= prev);
            assert(cur.skip(cur.len() - 4) =~= b@.subrange(4 * i, 4 * i + 4));
        }
        i += 1;
    }
    proof {
        assert(b@.take(4 * n) =~= b@);
    }
    Ok(out)
}

/// A label vector as read back from a stored payload.
pub struct LabelTypeStoredDb(pub LabelType);

impl LabelTypeStoredDb {
    /// Decodes a stored label payload of exactly `LABEL_LEN` elements.
    pub fn decode(bytes: &[u8]) -> (r: Result<LabelTypeStoredDb, CodecError>)
        ensures
            bytes@.len() == 4 * LABEL_LEN ==> r is Ok && r->Ok_0.0@ == spec_decode(bytes@),
            bytes@.len() != 4 * LABEL_LEN ==> r == Err::<LabelTypeStoredDb, _>(
                CodecError::LengthMismatch,
            ),
    {
        match decode(bytes, LABEL_LEN) {
            Ok(v) => Ok(LabelTypeStoredDb(v)),
            Err(e) => Err(e),
        }
    }

    /// The decoded vector.
    pub fn into_inner(self) -> (r: LabelType)
        ensures
            r@ == self.0@,
    {
        self.0
    }
}

/// A full model input as read back from a stored payload: the feature bytes
/// come first, the series bytes after them, at statically known offsets.
pub struct InputStoredDb(pub InputStored);

impl InputStoredDb {
    /// Decodes a stored input payload: `CHRONO_LEN` elements, then
    /// `SERIES_LEN` elements.
    pub fn decode(bytes: &[u8]) -> (r: Result<InputStoredDb, CodecError>)
        ensures
            bytes@.len() == 4 * INPUT_LEN ==> r is Ok
                && r->Ok_0.0.0@ == spec_decode(bytes@.take(4 * CHRONO_LEN))
                && r->Ok_0.0.1@ == spec_decode(bytes@.skip(4 * CHRONO_LEN)),
            bytes@.len() != 4 * INPUT_LEN ==> r == Err::<InputStoredDb, _>(
                CodecError::LengthMismatch,
            ),
    {
        if bytes.len() != 4 * INPUT_LEN {
            return Err(CodecError::LengthMismatch);
        }
        let chrono_bytes = slice_subrange(bytes, 0, 4 * CHRONO_LEN);
        let series_bytes = slice_subrange(bytes, 4 * CHRONO_LEN, 4 * INPUT_LEN);
        proof {
            assert(chrono_bytes@ =~= bytes@.take(4 * CHRONO_LEN));
            assert(series_bytes@ =~= bytes@.skip(4 * CHRONO_LEN));
        }
        let chrono = match decode(chrono_bytes, CHRONO_LEN) {
            Ok(v) => v,
            Err(e) => { return Err(e); },
        };
        let series = match decode(series_bytes, SERIES_LEN) {
            Ok(v) => v,
            Err(e) => { return Err(e); },
        };
        Ok(InputStoredDb((chrono, series)))
    }

    /// The decoded input pair.
    pub fn into_inner(self) -> (r: InputStored)
        ensures
            r.0@ == self.0.0@ && r.1@ == self.0.1@,
    {
        self.0
    }
}

} // verus!
