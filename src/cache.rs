//! Content hashes and the per-repository names of cache files.

use vstd::prelude::*;
use crate::config::RepoCachePath;
use vstd::utf8::encode_utf8;
use crate::text::{push_str, push_char};

verus! {

/// The SHA-256 digest of `data`.
pub uninterp spec fn sha256_of(data: Seq<u8>) -> Seq<u8>;

/// Relies on `sha2::Sha256::digest`: the SHA-256 digest of `data`, 32
/// bytes, a function of the bytes alone.
#[verifier::external_body]
fn sha256_digest(data: &[u8]) -> (r: Vec<u8>)
    ensures
        r@ == sha256_of(data@),
        r@.len() == 32,
{
    <sha2::Sha256 as sha2::Digest>::digest(data).to_vec()
}

/// Lower-case hexadecimal digit for `d` (below 16).
pub open spec fn hex_digit(d: int) -> char {
    if d < 10 {
        (('0' as int) + d) as char
    } else {
        (('a' as int) + d - 10) as char
    }
}

/// Two lower-case hexadecimal digits per byte, high nibble first.
pub open spec fn hex_of(b: Seq<u8>) -> Seq<char>
    decreases b.len(),
{
    if b.len() == 0 {
        Seq::<char>::empty()
    } else {
        hex_of(b.drop_last()) + seq![hex_digit(b.last() as int / 16), hex_digit(b.last() as int % 16)]
    }
}

fn hex_digit_exec(d: u8) -> (c: char)
    requires
        d < 16,
    ensures
        c == hex_digit(d as int),
{
    if d < 10 {
        (48 + d) as char
    } else {
        (87 + d) as char
    }
}

/// Lower-case hexadecimal encoding of `b`.
pub fn hex_encode(b: &[u8]) -> (r: String)
    ensures
        r@ == hex_of(b@),
{
    let mut r = String::new();
    let mut i: usize = 0;
    assert(b@.subrange(0, 0) =~= Seq::<u8>::empty());
    while i < b.len()
        invariant
            i <= b@.len(),
            r@ == hex_of(b@.subrange(0, i as int)),
        decreases b@.len() - i,
    {
        let x = b[i];
        push_char(&mut r, hex_digit_exec(x / 16));
        push_char(&mut r, hex_digit_exec(x % 16));
        proof {
            let p = b@.subrange(0, i as int + 1);
            assert(p.drop_last() =~= b@.subrange(0, i as int));
            assert(p.last() == x);
        }
        i = i + 1;
        assert(r@ =~= hex_of(b@.subrange(0, i as int)));
    }
    assert(b@.subrange(0, i as int) =~= b@);
    r
}

/// The hex SHA-256 of a text, over its UTF-8 bytes.
pub open spec fn content_hash(s: Seq<char>) -> Seq<char> {
    hex_of(sha256_of(encode_utf8(s)))
}

/// Hashes a string with SHA-256 and returns the digest in lower-case hex.
pub fn hash_content(content: &str) -> (r: String)
    ensures
        r@ == content_hash(content@),
{
    let digest = sha256_digest(content.as_bytes());
    hex_encode(digest.as_slice())
}

impl RepoCachePath {
    /// The cache naming of the repository whose canonical path is
    /// `canonical_path`: the hex SHA-256 of that path.
    pub fn new(canonical_path: &str) -> (r: RepoCachePath)
        ensures
            r.repo_hash@ == content_hash(canonical_path@),
    {
        RepoCachePath { repo_hash: hash_content(canonical_path) }
    }

    /// The file name `{prefix}_{hash}.{extension}` of a cache file of this
    /// repository.
    pub fn cache_file_name(&self, prefix: &str, extension: &str) -> (r: String)
        ensures
            r@ == prefix@ + seq!['_'] + self.repo_hash@ + seq!['.'] + extension@,
    {
        let mut r = String::new();
        push_str(&mut r, prefix);
        push_char(&mut r, '_');
        push_str(&mut r, self.repo_hash.as_str());
        push_char(&mut r, '.');
        push_str(&mut r, extension);
        r
    }
}

/// Loads and saves cached records for one repository.
pub struct CacheManager {
    pub repo_path_handler: RepoCachePath,
}

impl CacheManager {
    /// A cache manager for the repository whose canonical path is
    /// `canonical_repo_path`.
    pub fn new(canonical_repo_path: &str) -> (r: CacheManager)
        ensures
            r.repo_path_handler.repo_hash@ == content_hash(canonical_repo_path@),
    {
        CacheManager { repo_path_handler: RepoCachePath::new(canonical_repo_path) }
    }

    /// The file name of the cache file with key `key` and extension
    /// `extension`.
    pub fn get_path_for(&self, key: &str, extension: &str) -> (r: String)
        ensures
            r@ == key@ + seq!['_'] + self.repo_path_handler.repo_hash@ + seq!['.'] + extension@,
    {
        self.repo_path_handler.cache_file_name(key, extension)
    }
}

} // verus!
