//! Snappy decompression/compression used by circuit containers, through the
//! `snap` crate's raw (unframed) codec.
use vstd::prelude::*;
use crate::text::{chars_to_string, dec_nat, push_str};

verus! {

/// Safety cap on the decompressed size of a body.
pub const MAX_DECOMPRESSED_SIZE: u32 = 512 * 1024 * 1024;

/// Largest input the raw Snappy encoder accepts (`snap::MAX_INPUT_SIZE`).
pub open spec fn snappy_input_limit() -> int {
    0xFFFF_FFFF
}

/// What `snap::raw::Decoder::decompress` gives for `input` into a zeroed
/// buffer of `capacity` bytes: the decoded bytes, or the display text of the
/// `snap::Error` it reports.
pub uninterp spec fn snappy_decode(input: Seq<u8>, capacity: usize) -> Result<Seq<u8>, Seq<char>>;

/// The bytes that `snap::raw::Encoder::compress_vec` produces from `input`.
pub uninterp spec fn snappy_encoded(input: Seq<u8>) -> Seq<u8>;

/// The raw decoder turns `block` back into `body`, given a buffer of at
/// least `body`'s length.
pub open spec fn decodes_to(block: Seq<u8>, body: Seq<u8>) -> bool {
    forall|cap: usize| body.len() <= cap ==> #[trigger] snappy_decode(block, cap) == Ok::<Seq<u8>, Seq<char>>(body)
}

/// The display text of snap's `TooBig` error for an input of `n` bytes.
pub open spec fn snappy_too_big_text(n: nat) -> Seq<char> {
    "snappy: input buffer (size = "@ + dec_nat(n) + ") is larger than allowed (size = 4294967295)"@
}

/// Calls `snap::raw::Decoder::decompress` into a zeroed buffer of `capacity`
/// bytes. The contract claims: the result is `snappy_decode(input, capacity)`
/// (bytes, or the error's display text), the decoded bytes fit the buffer
/// (the decoder checks the header length against it first), and empty input
/// is snap's `Empty` error.
#[verifier::external_body]
fn snap_decompress(input: &[u8], capacity: usize) -> (res: Result<Vec<u8>, String>)
    ensures
        match snappy_decode(input@, capacity) {
            Ok(v) => res matches Ok(x) && x@ == v,
            Err(e) => res matches Err(x) && x@ == e,
        },
        res matches Ok(v) ==> v@.len() <= capacity,
        input@.len() == 0 ==> res is Err && res->Err_0@ == "snappy: corrupt input (empty)"@,
{
    let mut buf = vec![0u8; capacity];
    match snap::raw::Decoder::new().decompress(input, &mut buf) {
        Ok(n) => {
            buf.truncate(n);
            Ok(buf)
        },
        Err(e) => Err(e.to_string()),
    }
}

/// Calls `snap::raw::Encoder::compress_vec`. The contract claims: it fails
/// only when `max_compress_len` of the input length exceeds the encoder's
/// input limit, with the `TooBig` error's display text; its output is
/// `snappy_encoded(input)`, which the raw decoder turns back into `input`
/// given a buffer of at least the input's length.
#[verifier::external_body]
fn snap_compress(input: &[u8]) -> (res: Result<Vec<u8>, String>)
    ensures
        res is Ok <==> 32 + input@.len() + input@.len() / 6 <= snappy_input_limit(),
        res matches Err(e) ==> e@ == snappy_too_big_text(input@.len()),
        res matches Ok(c) ==> c@ == snappy_encoded(input@) && decodes_to(c@, input@),
{
    snap::raw::Encoder::new().compress_vec(input).map_err(|e| e.to_string())
}

/// Decompress a raw Snappy block (at most `MAX_DECOMPRESSED_SIZE` bytes).
/// Returns the body bytes, or `CIRCUIT_SNAPPY|` and the decoder's message.
pub fn decompress(input: &[u8]) -> (res: Result<Vec<u8>, String>)
    ensures
        match snappy_decode(input@, MAX_DECOMPRESSED_SIZE as usize) {
            Ok(v) => res matches Ok(x) && x@ == v,
            Err(e) => res matches Err(x) && x@ == "CIRCUIT_SNAPPY|"@ + e,
        },
        res matches Ok(v) ==> v@.len() <= MAX_DECOMPRESSED_SIZE,
        input@.len() == 0 ==> res is Err && res->Err_0@ == "CIRCUIT_SNAPPY|snappy: corrupt input (empty)"@,
{
    match snap_decompress(input, MAX_DECOMPRESSED_SIZE as usize) {
        Ok(v) => Ok(v),
        Err(detail) => {
            proof {
                reveal_strlit("CIRCUIT_SNAPPY|");
                reveal_strlit("snappy: corrupt input (empty)");
                reveal_strlit("CIRCUIT_SNAPPY|snappy: corrupt input (empty)");
                assert("CIRCUIT_SNAPPY|"@ + "snappy: corrupt input (empty)"@ =~= "CIRCUIT_SNAPPY|snappy: corrupt input (empty)"@);
            }
            Err(prefixed("CIRCUIT_SNAPPY|", detail.as_str()))
        },
    }
}

/// Compress a body into a raw Snappy block; on failure
/// `CIRCUIT_SNAPPY_COMPRESS|` and snap's `TooBig` message.
pub fn compress(input: &[u8]) -> (res: Result<Vec<u8>, String>)
    ensures
        res is Ok <==> 32 + input@.len() + input@.len() / 6 <= snappy_input_limit(),
        res matches Ok(c) ==> c@ == snappy_encoded(input@) && decodes_to(c@, input@),
        res matches Err(e) ==> e@ == "CIRCUIT_SNAPPY_COMPRESS|"@ + snappy_too_big_text(input@.len()),
{
    match snap_compress(input) {
        Ok(c) => Ok(c),
        Err(detail) => Err(prefixed("CIRCUIT_SNAPPY_COMPRESS|", detail.as_str())),
    }
}

/// `code` followed by `detail`.
pub fn prefixed(code: &str, detail: &str) -> (s: String)
    ensures
        s@ == code@ + detail@,
        code@.is_prefix_of(s@),
{
    let mut v: Vec<char> = Vec::new();
    push_str(&mut v, code);
    push_str(&mut v, detail);
    assert(v@.subrange(0, code@.len() as int) =~= code@);
    chars_to_string(v.as_slice())
}

} // verus!
