//! Content hashing: the digest stage of the pipeline.
//!
//! The digest of a file is the lowercase hexadecimal encoding of a 256-bit
//! cryptographic hash of its contents, so it is 64 characters long and a
//! function of the contents alone: byte-identical files share a digest.

use vstd::prelude::*;

use crate::types::UnsummarizedFile;

verus! {

/// The hex digest of a text's contents. The result is a function of the
/// characters alone, so equal contents always give equal digests.
pub uninterp spec fn content_digest_of(s: Seq<char>) -> Seq<char>;

/// A lowercase hexadecimal digit.
pub open spec fn is_hex_char(c: char) -> bool {
    ('0' <= c && c <= '9') || ('a' <= c && c <= 'f')
}

/// A well-formed content digest: 64 lowercase hex characters.
pub open spec fn is_digest(s: Seq<char>) -> bool {
    s.len() == 64 && forall|i: int| 0 <= i < s.len() ==> is_hex_char(#[trigger] s[i])
}

/// Relies on `blake3::hash` and `blake3::Hash::to_hex`: the hash of the
/// text's bytes depends on those bytes alone, and `to_hex` encodes its 32
/// bytes as 64 lowercase hexadecimal characters.
#[verifier::external_body]
fn content_digest(contents: &str) -> (r: String)
    ensures
        r@ == content_digest_of(contents@),
        is_digest(r@),
{
    let mut out = String::with_capacity(64);
    out.push_str(blake3::hash(contents.as_bytes()).to_hex().as_str());
    out
}

/// The digest stage's work for one file, after the attempt to read it from
/// disk: a file whose read failed is dropped (it stays unrecorded and is
/// retried on the next scan); one whose contents were read is hashed.
pub fn digest_file(path: String, mtime: Option<u64>, loaded: Option<String>) -> (r: Option<
    UnsummarizedFile,
>)
    ensures
        match loaded {
            None => r is None,
            Some(contents) => {
                &&& r is Some
                &&& r.unwrap().path == path
                &&& r.unwrap().mtime == mtime
                &&& r.unwrap().contents == contents
                &&& r.unwrap().digest@ == content_digest_of(contents@)
                &&& is_digest(r.unwrap().digest@)
            },
        },
{
    match loaded {
        None => None,
        Some(contents) => {
            let digest = content_digest(contents.as_str());
            Some(UnsummarizedFile { path, mtime, digest, contents })
        },
    }
}

} // verus!
