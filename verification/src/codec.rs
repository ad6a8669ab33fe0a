//! The trusted boundary of the library: the outside framing codec that turns
//! an ordered list of opaque blobs into wire bytes and back, and std's UTF-8
//! decoding.  Everything else in the crate is verified against the contracts
//! stated here.

use vstd::prelude::*;

use crate::transports::TransportFail;
use vstd::utf8::encode_utf8;
use vstd::utf8::valid_utf8;

verus! {

/// The wire image that the outside codec gives to an ordered list of blobs.
pub uninterp spec fn framed(blobs: Seq<Seq<u8>>) -> Seq<u8>;

/// Relies on bincode::serialize: a list of byte blobs has one wire image, a
/// function of the blobs alone, and framing a list already held in memory
/// into a fresh byte vector succeeds — its size pass runs with no limit and
/// its writer is a growable vector, neither of which has a failing path for
/// this shape of data.  The error arm only converts, and is unreachable.
#[verifier::external_body]
pub(crate) fn encode_blobs(blobs: &Vec<Vec<u8>>) -> (r: Result<Vec<u8>, TransportFail>)
    ensures
        r is Ok,
        r matches Ok(b) ==> b@ == framed(blobs.deep_view()),
{
    match bincode::serialize(blobs) {
        Ok(b) => Ok(b),
        Err(e) => Err(TransportFail::Other(format!("{}", e))),
    }
}

/// Relies on bincode::deserialize: on the wire image of a list of blobs it
/// returns exactly that list.  Every value of the framed type has one wire
/// image, read deterministically from the front of the input with trailing
/// bytes tolerated, so any successful parse consumes the wire image of its
/// result as a prefix of the input.
#[verifier::external_body]
pub(crate) fn decode_blobs(bytes: &[u8]) -> (r: Option<Vec<Vec<u8>>>)
    ensures
        r is Some <== exists|x: Seq<Seq<u8>>| bytes@ == #[trigger] framed(x),
        r matches Some(v) ==> forall|x: Seq<Seq<u8>>|
            bytes@ == #[trigger] framed(x) ==> v.deep_view() == x,
        r matches Some(v) ==> framed(v.deep_view()).len() <= bytes@.len() && bytes@.take(
            framed(v.deep_view()).len() as int,
        ) == framed(v.deep_view()),
{
    bincode::deserialize::<Vec<Vec<u8>>>(bytes).ok()
}

/// Relies on String::from_utf8: it succeeds exactly on valid UTF-8, and the
/// string it returns encodes back to the input bytes.
#[verifier::external_body]
pub(crate) fn utf8_to_string(bytes: Vec<u8>) -> (r: Option<String>)
    ensures
        r is Some <==> valid_utf8(bytes@),
        r matches Some(s) ==> encode_utf8(s@) == bytes@,
{
    String::from_utf8(bytes).ok()
}

} // verus!
