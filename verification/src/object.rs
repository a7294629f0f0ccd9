use std::io::{Read, Write};

use flate2::read::ZlibDecoder;
use flate2::write::ZlibEncoder;
use flate2::Compression;
use sha2::{Digest, Sha256};
use vstd::prelude::*;

use crate::repo::{path_join, Repository};
use crate::text::{hex_digit, hex_lower, push_char, string_of_range, chars_of};

verus! {

/// The SHA-256 digest of a byte string.
pub uninterp spec fn sha256_digest(data: Seq<u8>) -> Seq<u8>;

/// The zlib stream that flate2 writes for a byte string at the default level.
pub uninterp spec fn zlib_compressed(data: Seq<u8>) -> Seq<u8>;

/// What flate2's zlib decoder reads out of a byte string, if it is a zlib stream.
pub uninterp spec fn zlib_decompressed(data: Seq<u8>) -> Option<Seq<u8>>;

/// `sha2::Sha256::digest`: the 32-byte SHA-256 digest of `data`.
#[verifier::external_body]
pub(crate) fn sha256(data: &[u8]) -> (out: Vec<u8>)
    ensures
        out@ == sha256_digest(data@),
        out@.len() == 32,
{
    Sha256::digest(data).to_vec()
}

/// `flate2::write::ZlibEncoder` at `Compression::default()` writing into a `Vec`,
/// once, then finished: the bytes are the zlib stream of `data`, which decodes
/// back to `data`. It reports no error: a `Vec` takes every byte it is given, and
/// miniz_oxide reports a parameter error only for a flush that follows a finish
/// or an earlier failure, which one write followed by `finish` never makes.
#[verifier::external_body]
fn zlib_encode(data: &[u8]) -> (out: Option<Vec<u8>>)
    ensures
        out is Some,
        out matches Some(c) ==> c@ == zlib_compressed(data@),
        out matches Some(c) ==> zlib_decompressed(c@) == Some(data@),
{
    let mut encoder = ZlibEncoder::new(Vec::new(), Compression::default());
    if encoder.write_all(data).is_err() {
        return None;
    }
    encoder.finish().ok()
}

/// `flate2::read::ZlibDecoder` reading `data` to the end: the decoded bytes, or
/// `None` when it reports an error.
#[verifier::external_body]
fn zlib_decode(data: &[u8]) -> (out: Option<Vec<u8>>)
    ensures
        out is Some <==> zlib_decompressed(data@) is Some,
        out matches Some(o) ==> zlib_decompressed(data@) == Some(o@),
{
    let mut decoder = ZlibDecoder::new(data);
    let mut out = Vec::new();
    match decoder.read_to_end(&mut out) {
        Ok(_) => Some(out),
        Err(_) => None,
    }
}

/// Failures of object encoding.
#[derive(Debug, Clone, Copy, PartialEq, Eq)]
pub enum ObjectError {
    /// The zlib encoder reported an error.
    Compress,
    /// The bytes are not a zlib stream.
    Decompress,
}

/// The lower-case hexadecimal digit for a nibble.
fn hex_digit_exec(d: u8) -> (c: char)
    requires
        d < 16,
    ensures
        c == hex_digit(d as nat),
{
    if d == 0 { '0' } else if d == 1 { '1' } else if d == 2 { '2' } else if d == 3 { '3' }
    else if d == 4 { '4' } else if d == 5 { '5' } else if d == 6 { '6' } else if d == 7 { '7' }
    else if d == 8 { '8' } else if d == 9 { '9' } else if d == 10 { 'a' } else if d == 11 { 'b' }
    else if d == 12 { 'c' } else if d == 13 { 'd' } else if d == 14 { 'e' } else { 'f' }
}

pub proof fn lemma_hex_lower_len(bytes: Seq<u8>)
    ensures
        hex_lower(bytes).len() == 2 * bytes.len(),
    decreases bytes.len(),
{
    if bytes.len() > 0 {
        lemma_hex_lower_len(bytes.drop_last());
    }
}

/// Lower-case hexadecimal text of `bytes`.
pub fn hex_encode(bytes: &[u8]) -> (out: String)
    ensures
        out@ == hex_lower(bytes@),
        out@.len() == 2 * bytes@.len(),
{
    let mut out = String::new();
    let mut k: usize = 0;
    while k < bytes.len()
        invariant
            k <= bytes.len(),
            out@ == hex_lower(bytes@.take(k as int)),
        decreases bytes.len() - k,
    {
        let b = bytes[k];
        push_char(&mut out, hex_digit_exec(b / 16));
        push_char(&mut out, hex_digit_exec(b % 16));
        proof {
            let next = bytes@.take(k + 1);
            assert(next.drop_last() == bytes@.take(k as int));
            assert(next.last() == b);
        }
        k += 1;
    }
    proof {
        assert(bytes@.take(bytes@.len() as int) == bytes@);
        lemma_hex_lower_len(bytes@);
    }
    out
}

/// The name of a content: the lower-case hexadecimal SHA-256 of its bytes.
pub open spec fn content_hash(data: Seq<u8>) -> Seq<char> {
    hex_lower(sha256_digest(data))
}

/// Hash of `data` as 64 lower-case hexadecimal digits.
pub fn hash_bytes(data: &[u8]) -> (out: String)
    ensures
        out@ == content_hash(data@),
        out@.len() == 64,
{
    let digest = sha256(data);
    hex_encode(digest.as_slice())
}

/// Compresses `data` into a zlib stream; it always succeeds.
pub fn compress(data: &[u8]) -> (r: Result<Vec<u8>, ObjectError>)
    ensures
        r is Ok,
        r matches Ok(c) ==> c@ == zlib_compressed(data@),
        r matches Ok(c) ==> zlib_decompressed(c@) == Some(data@),
{
    match zlib_encode(data) {
        Some(c) => Ok(c),
        None => Err(ObjectError::Compress),
    }
}

/// Decompresses a zlib stream. What `compress` produced comes back unchanged.
pub fn decompress(data: &[u8]) -> (r: Result<Vec<u8>, ObjectError>)
    ensures
        r is Ok <==> zlib_decompressed(data@) is Some,
        r matches Ok(o) ==> zlib_decompressed(data@) == Some(o@),
        r matches Err(e) ==> e == ObjectError::Decompress,
{
    match zlib_decode(data) {
        Some(o) => Ok(o),
        None => Err(ObjectError::Decompress),
    }
}

/// Content is stored under the name of its bytes: equal contents land in the
/// same object file of a store, so each content is stored once.
pub proof fn lemma_same_content_same_object(objects: Seq<char>, a: Seq<u8>, b: Seq<u8>)
    requires
        a == b,
    ensures
        object_path_spec(objects, content_hash(a)) == object_path_spec(objects, content_hash(b)),
{
}

/// Whether `compressed` is a zlib stream whose content is named `hash`: what
/// the server checks before it stores an object it is sent.
pub fn object_matches(compressed: &[u8], hash: &str) -> (b: bool)
    ensures
        b == (zlib_decompressed(compressed@) matches Some(raw) && content_hash(raw) == hash@),
{
    match decompress(compressed) {
        Ok(raw) => crate::text::str_eq(hash_bytes(raw.as_slice()).as_str(), hash),
        Err(_) => false,
    }
}

/// Whether the first two bytes of the UTF-8 text of `s` end on a character:
/// two one-byte characters, or one two-byte character.
pub open spec fn splits_after_two_bytes(s: Seq<char>) -> bool {
    ||| (s.len() >= 2 && (s[0] as u32) < 0x80 && (s[1] as u32) < 0x80)
    ||| (s.len() >= 1 && 0x80 <= (s[0] as u32) < 0x800)
}

/// How many characters make up the first two bytes of `s`.
pub open spec fn two_byte_prefix_chars(s: Seq<char>) -> int {
    if (s[0] as u32) < 0x80 { 2 } else { 1 }
}

/// Where the object named `hash` is stored: a folder named by its first two
/// bytes, holding a file named by the rest.
pub open spec fn object_path_spec(objects: Seq<char>, hash: Seq<char>) -> Seq<char> {
    let n = two_byte_prefix_chars(hash);
    path_join(path_join(objects, hash.take(n)), hash.skip(n))
}

/// Path of the object `hash` inside the object store folder `objects`.
pub fn object_path_in(objects: &str, hash: &str) -> (out: String)
    requires
        splits_after_two_bytes(hash@),
    ensures
        out@ == object_path_spec(objects@, hash@),
{
    let cs = chars_of(hash);
    let n: usize = if (cs[0] as u32) < 0x80 { 2 } else { 1 };
    let head = string_of_range(&cs, 0, n);
    let tail = string_of_range(&cs, n, cs.len());
    proof {
        assert(cs@.subrange(0, n as int) == hash@.take(n as int));
        assert(cs@.subrange(n as int, cs@.len() as int) == hash@.skip(n as int));
    }
    let dir = crate::repo::join(objects, &head);
    crate::repo::join(&dir, &tail)
}

/// Path of the object `hash` inside the repository's object store.
pub fn object_path(repo: &Repository, hash: &str) -> (out: String)
    requires
        splits_after_two_bytes(hash@),
    ensures
        out@ == object_path_spec(repo.objects_spec(), hash@),
{
    object_path_in(repo.objects().as_str(), hash)
}

} // verus!
