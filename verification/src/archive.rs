//! The archive layer: the codec's bytes piped through a general-purpose
//! streaming compressor, producing the artifact that goes to disk and
//! reading it back. File input and output stay with the caller; this module
//! works on in-memory bytes.

use vstd::prelude::*;
use crate::card::{CardCollection, CardV};
use crate::codec::{
    DecodeError, collection_fits, decode_cards, encode_cards, lemma_round_trip, spec_decode,
    spec_encode,
};
use lz4::{Decoder, EncoderBuilder};
use std::io::{Read, Write};

verus! {

/// Why reading an artifact's bytes back failed: the two causes stay
/// distinguishable for the caller.
#[derive(Debug, Clone, Copy, PartialEq, Eq, Structural)]
pub enum ArchiveError {
    /// The compressed frame is corrupt or cut short.
    CorruptFrame,
    /// The frame decompressed, but its payload does not decode.
    Decode(DecodeError),
}

/// The compressed frame the streaming compressor produces for a payload at
/// this library's fixed compression level: a function of the payload alone.
pub uninterp spec fn lz4_frame_of(data: Seq<u8>) -> Seq<u8>;

/// Relies on `lz4::EncoderBuilder::build`, `Encoder::write_all` and
/// `Encoder::finish` over an in-memory buffer: the frame depends on the
/// payload and the fixed level alone, and failures surface as error values.
#[verifier::external_body]
fn lz4_compress(data: &[u8]) -> (r: Option<Vec<u8>>)
    ensures
        r matches Some(out) ==> out@ == lz4_frame_of(data@),
{
    let mut enc = match EncoderBuilder::new().level(4).build(Vec::new()) {
        Ok(e) => e,
        Err(_) => return None,
    };
    if enc.write_all(data).is_err() {
        return None;
    }
    let (out, result) = enc.finish();
    match result {
        Ok(()) => Some(out),
        Err(_) => None,
    }
}

/// Relies on `lz4::Decoder::new` and `Read::read_to_end` over an in-memory
/// buffer: decompressing a frame the compressor produced yields the
/// original payload; anything else fails or yields other bytes, never a
/// crash.
#[verifier::external_body]
fn lz4_decompress(data: &[u8]) -> (r: Option<Vec<u8>>)
    ensures
        (exists|d: Seq<u8>| data@ == lz4_frame_of(d)) ==> r is Some,
        r matches Some(out) ==> forall|d: Seq<u8>| data@ == lz4_frame_of(d) ==> out@ == d,
{
    let mut dec = match Decoder::new(data) {
        Ok(d) => d,
        Err(_) => return None,
    };
    let mut out = Vec::new();
    match dec.read_to_end(&mut out) {
        Ok(_) => Some(out),
        Err(_) => None,
    }
}

/// Produce the artifact bytes for a collection: its canonical encoding,
/// compressed. Fails only if the compressor itself reports an error.
pub fn pack_cards(cards: &CardCollection) -> (r: Option<Vec<u8>>)
    ensures
        r matches Some(out) ==> out@ == lz4_frame_of(spec_encode(cards@)),
        collection_fits(cards@),
{
    let encoded = encode_cards(cards);
    lz4_compress(encoded.as_slice())
}

/// Read artifact bytes back into a collection: decompress the full frame,
/// then decode. A corrupt frame and an undecodable payload surface as the
/// two distinct [`ArchiveError`] causes.
pub fn unpack_cards(bytes: &[u8]) -> (r: Result<CardCollection, ArchiveError>)
    ensures
        match r {
            Ok(c) => forall|d: Seq<u8>|
                bytes@ == lz4_frame_of(d) ==> spec_decode(d) == Ok::<Seq<CardV>, DecodeError>(c@),
            Err(ArchiveError::CorruptFrame) => forall|d: Seq<u8>| bytes@ != lz4_frame_of(d),
            Err(ArchiveError::Decode(e)) => forall|d: Seq<u8>|
                bytes@ == lz4_frame_of(d) ==> spec_decode(d) == Err::<Seq<CardV>, DecodeError>(e),
        },
{
    let payload = match lz4_decompress(bytes) {
        Some(p) => p,
        None => {
            return Err(ArchiveError::CorruptFrame);
        },
    };
    match decode_cards(payload.as_slice()) {
        Ok(c) => Ok(c),
        Err(e) => Err(ArchiveError::Decode(e)),
    }
}

/// Archive law: the artifact bytes produced for a collection read back as
/// exactly that collection, field for field. Failure can come only from the
/// compressor refusing the payload, never from the codec or the frame.
pub fn pack_then_unpack(cards: &CardCollection) -> (r: Option<CardCollection>)
    ensures
        r matches Some(c) ==> c@ == cards@,
{
    match pack_cards(cards) {
        Some(bytes) => {
            proof {
                lemma_round_trip(cards@);
            }
            match unpack_cards(bytes.as_slice()) {
                Ok(c) => Some(c),
                Err(_) => {
                    proof {
                        assert(false);
                    }
                    unreached()
                },
            }
        },
        None => None,
    }
}

} // verus!
