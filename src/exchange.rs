//! Loading and dumping whole exchange strings: the envelope around a
//! zlib-compressed payload.

use vstd::prelude::*;
use vstd::string::StringSliceAdditionalSpecFns;
use crate::envelope::{decode_envelope, encode_envelope, spec_envelope, is_envelope_of};
use crate::error::Error;

verus! {

/// What zlib decompression makes of some bytes; none when they are not a
/// valid zlib stream.
pub uninterp spec fn zlib_inflated(b: Seq<u8>) -> Option<Seq<u8>>;

/// What the bundled zlib's compression at level 6 makes of some bytes.
pub uninterp spec fn zlib_deflated(b: Seq<u8>) -> Seq<u8>;

/// Relies on `miniz_oxide::inflate::decompress_to_vec_zlib`: the bytes
/// that a zlib stream holds, or an error when the stream is not valid.
#[verifier::external_body]
fn inflate(b: &[u8]) -> (r: Option<Vec<u8>>)
    ensures
        r matches Some(v) ==> zlib_inflated(b@) == Some(v@),
        r is None ==> zlib_inflated(b@) is None,
{
    miniz_oxide::inflate::decompress_to_vec_zlib(b).ok()
}

/// Relies on `flate2::read::ZlibEncoder` at level 6 over the zlib library
/// that libz-sys builds from its bundled source (its `static` feature):
/// the zlib stream of the bytes. Reading from a slice does not fail: the
/// encoder reports an error only when zlib's deflate does, which it does
/// not with a full output buffer and the stream finished.
#[verifier::external_body]
fn deflate(b: &[u8]) -> (r: Option<Vec<u8>>)
    ensures
        r is Some,
        r matches Some(v) ==> v@ == zlib_deflated(b@),
{
    let mut out = Vec::new();
    let mut encoder = flate2::read::ZlibEncoder::new(b, flate2::Compression::new(6));
    std::io::Read::read_to_end(&mut encoder, &mut out).ok().map(|_| out)
}

/// The payload, given the length that the envelope announced and what
/// decompression gave: it must have decompressed, to that length.
pub fn payload_from_parts(n: u32, inflated: Option<Vec<u8>>) -> (r: Result<Vec<u8>, Error>)
    ensures
        match inflated {
            Some(v) => if v@.len() == n as nat {
                r matches Ok(p) && p@ == v@
            } else {
                r is Err
            },
            None => r is Err,
        },
{
    match inflated {
        None => Err(Error::from_reason("exchange payload should decompress")),
        Some(v) => {
            if v.len() != n as usize {
                Err(Error::from_reason("exchange payload should have the announced length"))
            } else {
                Ok(v)
            }
        },
    }
}

/// Decodes an exchange string into its payload: the envelope is read, its
/// bytes decompressed, and their length checked against the announced one.
pub fn load_blueprint(data: &str) -> (r: Result<Vec<u8>, Error>)
    ensures
        r matches Ok(p) ==> exists|c: Seq<u8>|
            data.spec_bytes() == spec_envelope(p@.len(), c) && zlib_inflated(c) == Some(p@),
        !(exists|n: nat, c: Seq<u8>| #[trigger] is_envelope_of(data.spec_bytes(), n, c)) ==> r is Err,
        forall|n: nat, c: Seq<u8>| #[trigger] is_envelope_of(data.spec_bytes(), n, c) ==> match zlib_inflated(c) {
            Some(p) => if p.len() == n {
                r matches Ok(q) && q@ == p
            } else {
                r is Err
            },
            None => r is Err,
        },
{
    let bytes = data.as_bytes();
    let (n, compressed) = match decode_envelope(bytes) {
        Ok(x) => x,
        Err(e) => { return Err(e); },
    };
    let inflated = inflate(compressed.as_slice());
    let r = payload_from_parts(n, inflated);
    proof {
        assert(is_envelope_of(data.spec_bytes(), n as nat, compressed@));
        if r is Ok {
            assert(data.spec_bytes() == spec_envelope(r->Ok_0@.len(), compressed@));
        }
    }
    r
}

/// The exchange string of a payload of length `n`, given what compression
/// gave for it.
pub fn envelope_from_parts(n: u32, deflated: Option<Vec<u8>>) -> (r: Result<Vec<u8>, Error>)
    ensures
        match deflated {
            Some(c) => r matches Ok(s) && s@ == spec_envelope(n as nat, c@),
            None => r is Err,
        },
{
    match deflated {
        None => Err(Error::from_reason("exchange payload should compress")),
        Some(c) => Ok(encode_envelope(n, c.as_slice())),
    }
}

/// Encodes a payload as an exchange string: compressed, then wrapped in
/// an envelope that announces its length.
pub fn dump_blueprint(payload: &[u8]) -> (r: Result<Vec<u8>, Error>)
    ensures
        payload@.len() <= u32::MAX ==> (r matches Ok(s) && s@ == spec_envelope(
            payload@.len(),
            zlib_deflated(payload@),
        )),
        payload@.len() > u32::MAX ==> r is Err,
{
    if payload.len() > u32::MAX as usize {
        return Err(Error::from_reason("exchange payload should fit a 32-bit length"));
    }
    let compressed = deflate(payload);
    envelope_from_parts(payload.len() as u32, compressed)
}

} // verus!
