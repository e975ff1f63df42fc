//! The pieces of the SCALE encoding that the block types are made of.
//!
//! The compact encoding of integers, the encoding of byte vectors and that of
//! hashes are those of the `parity-scale-codec` and `primitive-types` crates,
//! which this module calls. What these calls return is taken on trust: the
//! contracts below state it, and nothing proves them.

use vstd::prelude::*;
use primitive_types::H256;

verus! {

/// `primitive_types::H256`, a hash of 32 bytes, of which nothing is known but
/// what the functions below tell.
#[verifier::external_type_specification]
#[verifier::external_body]
pub struct ExH256(H256);

/// The 32 bytes that a hash holds.
pub uninterp spec fn hash_bytes(hash: H256) -> Seq<u8>;

/// The compact encoding of a 32-bit integer.
pub uninterp spec fn compact_u32_bytes(value: u32) -> Seq<u8>;

/// The integer whose compact encoding `input` starts with, and what follows
/// that encoding; `None` where `input` starts with no such encoding.
pub uninterp spec fn compact_u32_parse(input: Seq<u8>) -> Option<(u32, Seq<u8>)>;

/// The compact encoding of a 64-bit integer.
pub uninterp spec fn compact_u64_bytes(value: u64) -> Seq<u8>;

/// The integer whose compact encoding `input` starts with, and what follows
/// that encoding; `None` where `input` starts with no such encoding.
pub uninterp spec fn compact_u64_parse(input: Seq<u8>) -> Option<(u64, Seq<u8>)>;

/// The encoding of a vector of bytes: its length in compact form, then the
/// bytes.
pub open spec fn byte_vec_bytes(data: Seq<u8>) -> Seq<u8> {
    compact_u32_bytes(data.len() as u32) + data
}

/// The vector of bytes whose encoding `input` starts with, and what follows
/// that encoding: a length in compact form, then at least as many bytes.
pub open spec fn byte_vec_parse(input: Seq<u8>) -> Option<(Seq<u8>, Seq<u8>)> {
    match compact_u32_parse(input) {
        Some((len, rest)) => if len <= rest.len() {
            Some((rest.take(len as int), rest.skip(len as int)))
        } else {
            None
        },
        None => None,
    }
}

/// Whether the compact encoding of 32-bit integers reads back: whatever
/// follows it, the encoding of an integer is parsed as that integer, and what
/// follows is left.
pub open spec fn compact_u32_reads_back() -> bool {
    forall|value: u32, rest: Seq<u8>| #[trigger]
        compact_u32_parse(compact_u32_bytes(value) + rest) == Some((value, rest))
}

/// Whether the compact encoding of 64-bit integers reads back.
pub open spec fn compact_u64_reads_back() -> bool {
    forall|value: u64, rest: Seq<u8>| #[trigger]
        compact_u64_parse(compact_u64_bytes(value) + rest) == Some((value, rest))
}

/// Where the compact encoding reads back, so does the encoding of a vector
/// of bytes.
pub proof fn lemma_byte_vec_reads_back(data: Seq<u8>, rest: Seq<u8>)
    requires
        compact_u32_reads_back(),
        data.len() <= u32::MAX,
    ensures
        byte_vec_parse(byte_vec_bytes(data) + rest) == Some((data, rest)),
{
    let count = data.len() as u32;
    assert(byte_vec_bytes(data) + rest =~= compact_u32_bytes(count) + (data + rest));
    assert(compact_u32_parse(compact_u32_bytes(count) + (data + rest)) == Some(
        (count, data + rest),
    ));
    assert((data + rest).take(count as int) =~= data);
    assert((data + rest).skip(count as int) =~= rest);
}

/// `Clone::clone` of a hash, which copies its bytes.
pub assume_specification[ <H256 as Clone>::clone ](hash: &H256) -> (copy: H256)
    ensures
        hash_bytes(copy) == hash_bytes(*hash),
;

/// Calls `Encode::encode` on a hash, which yields the 32 bytes that the hash
/// holds.
#[verifier::external_body]
pub(crate) fn encode_hash(hash: &H256) -> (out: Vec<u8>)
    ensures
        out@ == hash_bytes(*hash),
        out@.len() == 32,
{
    parity_scale_codec::Encode::encode(hash)
}

/// Calls `Decode::decode` for a hash on `input`, which succeeds where at
/// least 32 bytes are left, and takes the first 32 as the hash. Returns the
/// hash with what is left of the input.
#[verifier::external_body]
pub(crate) fn decode_hash<'a>(input: &'a [u8]) -> (r: (Option<H256>, &'a [u8]))
    ensures
        r.0 is Some <==> input@.len() >= 32,
        r.0 matches Some(hash) ==> hash_bytes(hash) == input@.take(32) && r.1@ == input@.skip(32),
{
    let mut rest = input;
    let hash = <H256 as parity_scale_codec::Decode>::decode(&mut rest).ok();
    (hash, rest)
}

/// Calls `Encode::encode` on `Compact(value)`.
#[verifier::external_body]
pub(crate) fn encode_compact_u32(value: u32) -> (out: Vec<u8>)
    ensures
        out@ == compact_u32_bytes(value),
{
    parity_scale_codec::Encode::encode(&parity_scale_codec::Compact(value))
}

/// Calls `Decode::decode` for a `Compact<u32>` on `input`. Returns the
/// integer with what is left of the input.
#[verifier::external_body]
pub(crate) fn decode_compact_u32<'a>(input: &'a [u8]) -> (r: (Option<u32>, &'a [u8]))
    ensures
        match r.0 {
            Some(value) => compact_u32_parse(input@) == Some((value, r.1@)),
            None => compact_u32_parse(input@) is None,
        },
{
    let mut rest = input;
    let value = <parity_scale_codec::Compact<u32> as parity_scale_codec::Decode>::decode(
        &mut rest,
    ).ok().map(|compact| compact.0);
    (value, rest)
}

/// Calls `Encode::encode` on `Compact(value)`.
#[verifier::external_body]
pub(crate) fn encode_compact_u64(value: u64) -> (out: Vec<u8>)
    ensures
        out@ == compact_u64_bytes(value),
{
    parity_scale_codec::Encode::encode(&parity_scale_codec::Compact(value))
}

/// Calls `Decode::decode` for a `Compact<u64>` on `input`. Returns the
/// integer with what is left of the input.
#[verifier::external_body]
pub(crate) fn decode_compact_u64<'a>(input: &'a [u8]) -> (r: (Option<u64>, &'a [u8]))
    ensures
        match r.0 {
            Some(value) => compact_u64_parse(input@) == Some((value, r.1@)),
            None => compact_u64_parse(input@) is None,
        },
{
    let mut rest = input;
    let value = <parity_scale_codec::Compact<u64> as parity_scale_codec::Decode>::decode(
        &mut rest,
    ).ok().map(|compact| compact.0);
    (value, rest)
}

/// Calls `Encode::encode` on a vector of bytes, which writes the length as a
/// `Compact<u32>` and then the bytes, and panics where the length does not
/// fit 32 bits.
#[verifier::external_body]
pub(crate) fn encode_byte_vec(data: &Vec<u8>) -> (out: Vec<u8>)
    requires
        data@.len() <= u32::MAX,
    ensures
        out@ == byte_vec_bytes(data@),
{
    parity_scale_codec::Encode::encode(data)
}

/// Calls `Decode::decode` for a vector of bytes on `input`, which reads a
/// `Compact<u32>` length, fails where fewer bytes are left, and takes that
/// many. Returns the vector with what is left of the input.
#[verifier::external_body]
pub(crate) fn decode_byte_vec<'a>(input: &'a [u8]) -> (r: (Option<Vec<u8>>, &'a [u8]))
    ensures
        match r.0 {
            Some(data) => byte_vec_parse(input@) == Some((data@, r.1@)),
            None => byte_vec_parse(input@) is None,
        },
{
    let mut rest = input;
    let data = <Vec<u8> as parity_scale_codec::Decode>::decode(&mut rest).ok();
    (data, rest)
}

} // verus!
