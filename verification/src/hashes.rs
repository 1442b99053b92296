//! Digest generation over text and file contents.  The digests
//! themselves come from the md5, sha1 and sha2 crates; their bytes are
//! named, and the hexadecimal rendering is verified here.

use vstd::prelude::*;
use vstd::string::StrSliceExecFns;
use vstd::string::StringExecFns;
use crate::text::{bytes_hex_lower, slice_to_hex_lower};
use vstd::utf8::encode_utf8;
use sha1::Digest;

verus! {

/// The four digests of one input.
#[derive(Clone, Debug)]
pub struct HashResult {
    pub input: String,
    pub input_type: String,
    pub md5: String,
    pub sha1: String,
    pub sha256: String,
    pub sha512: String,
}

/// The MD5 digest of a byte string.
pub uninterp spec fn md5_digest_of(data: Seq<u8>) -> Seq<u8>;

/// The SHA-1 digest of a byte string.
pub uninterp spec fn sha1_digest_of(data: Seq<u8>) -> Seq<u8>;

/// The SHA-256 digest of a byte string.
pub uninterp spec fn sha256_digest_of(data: Seq<u8>) -> Seq<u8>;

/// The SHA-512 digest of a byte string.
pub uninterp spec fn sha512_digest_of(data: Seq<u8>) -> Seq<u8>;

/// Relies on `md5::compute`: the digest depends on the bytes alone and
/// is sixteen bytes long.
#[verifier::external_body]
fn md5_bytes(data: &[u8]) -> (r: Vec<u8>)
    ensures
        r@ == md5_digest_of(data@),
        r@.len() == 16,
{
    md5::compute(data).0.to_vec()
}

/// Relies on `sha1::Sha1` through the `Digest` trait: the digest
/// depends on the bytes alone and is twenty bytes long.
#[verifier::external_body]
fn sha1_bytes(data: &[u8]) -> (r: Vec<u8>)
    ensures
        r@ == sha1_digest_of(data@),
        r@.len() == 20,
{
    sha1::Sha1::digest(data).to_vec()
}

/// Relies on `sha2::Sha256` through the `Digest` trait: the digest
/// depends on the bytes alone and is thirty-two bytes long.
#[verifier::external_body]
fn sha256_bytes(data: &[u8]) -> (r: Vec<u8>)
    ensures
        r@ == sha256_digest_of(data@),
        r@.len() == 32,
{
    sha2::Sha256::digest(data).to_vec()
}

/// Relies on `sha2::Sha512` through the `Digest` trait: the digest
/// depends on the bytes alone and is sixty-four bytes long.
#[verifier::external_body]
fn sha512_bytes(data: &[u8]) -> (r: Vec<u8>)
    ensures
        r@ == sha512_digest_of(data@),
        r@.len() == 64,
{
    sha2::Sha512::digest(data).to_vec()
}

/// The four digests of a byte string, rendered in lower-case
/// hexadecimal, with the caller's labels carried alongside.
pub fn digests_of_bytes(input: String, input_type: String, data: &[u8]) -> (r: HashResult)
    ensures
        r.input == input,
        r.input_type == input_type,
        r.md5@ == bytes_hex_lower(md5_digest_of(data@)),
        r.sha1@ == bytes_hex_lower(sha1_digest_of(data@)),
        r.sha256@ == bytes_hex_lower(sha256_digest_of(data@)),
        r.sha512@ == bytes_hex_lower(sha512_digest_of(data@)),
{
    let md5d = md5_bytes(data);
    let sha1d = sha1_bytes(data);
    let sha256d = sha256_bytes(data);
    let sha512d = sha512_bytes(data);
    HashResult {
        input,
        input_type,
        md5: slice_to_hex_lower(md5d.as_slice()),
        sha1: slice_to_hex_lower(sha1d.as_slice()),
        sha256: slice_to_hex_lower(sha256d.as_slice()),
        sha512: slice_to_hex_lower(sha512d.as_slice()),
    }
}

/// Digest a text: the four digests of its bytes, the reported input
/// shortened to its first hundred characters with an ellipsis when it
/// is longer.
pub fn generate_hashes(text: String) -> (r: HashResult)
    ensures
        r.input_type@ == "text"@,
        text@.len() <= 100 ==> r.input@ == text@,
        text@.len() > 100 ==> r.input@ == text@.take(100).add("..."@),
        r.md5@ == bytes_hex_lower(md5_digest_of(encode_utf8(text@))),
        r.sha1@ == bytes_hex_lower(sha1_digest_of(encode_utf8(text@))),
        r.sha256@ == bytes_hex_lower(sha256_digest_of(encode_utf8(text@))),
        r.sha512@ == bytes_hex_lower(sha512_digest_of(encode_utf8(text@))),
{
    let len = text.as_str().unicode_len();
    let shown: String = if len > 100 {
        let mut s = text.as_str().substring_char(0, 100).to_owned();
        s.append("...");
        s
    } else {
        text.clone()
    };
    let data = text.as_str().as_bytes();
    proof {
        assert(data@ == encode_utf8(text@));
    }
    digests_of_bytes(shown, "text".to_owned(), data)
}

/// Digest file contents handed in by the caller, reported under the
/// file's path.
pub fn hash_file_contents(path: String, data: &[u8]) -> (r: HashResult)
    ensures
        r.input == path,
        r.input_type@ == "file"@,
        r.md5@ == bytes_hex_lower(md5_digest_of(data@)),
        r.sha1@ == bytes_hex_lower(sha1_digest_of(data@)),
        r.sha256@ == bytes_hex_lower(sha256_digest_of(data@)),
        r.sha512@ == bytes_hex_lower(sha512_digest_of(data@)),
{
    digests_of_bytes(path, "file".to_owned(), data)
}

} // verus!
