//! What a download reports, and the check on paths inside an archive.
use vstd::prelude::*;
use crate::text::{chars_of, has_prefix};

verus! {

/// Result of downloading and extracting a package source.
#[derive(Debug)]
pub struct DownloadResult {
    /// The URL that was fetched (git clone URL or tarball URL).
    pub url: String,
    /// The resolved git commit hash, if the source was a git repo.
    pub commit: Option<String>,
    /// Hex-encoded hash of the downloaded tarball, if the source was a tarball.
    pub hash: Option<String>,
    /// Hash algorithm used (e.g. "sha256").
    pub hash_algorithm: Option<String>,
}

/// Why a path inside an archive was refused.
#[derive(Debug, PartialEq, Eq)]
pub enum PathError {
    UnsafePath { path: String },
}

/// A `/`-separated component `..` starts at index `i` of `p`.
pub open spec fn parent_at(p: Seq<char>, i: int) -> bool {
    0 <= i && i + 2 <= p.len() && p[i] == '.' && p[i + 1] == '.' && (i == 0 || p[i - 1] == '/')
        && (i + 2 == p.len() || p[i + 2] == '/')
}

/// `p` has a `/`-separated component that is exactly `..`.
pub open spec fn has_parent_component(p: Seq<char>) -> bool {
    exists|i: int| parent_at(p, i)
}

/// A path is safe to extract to when it is relative and never climbs out
/// through a `..` component.
pub open spec fn safe_path(p: Seq<char>) -> bool {
    !has_prefix(p, "/"@) && !has_parent_component(p)
}

/// Accepts a relative path without `..` components; refuses an absolute
/// path or one that climbs out with `..`.
pub fn validate_path(path: &str) -> (r: Result<(), PathError>)
    ensures
        r is Ok <==> safe_path(path@),
        r matches Err(PathError::UnsafePath { path: p }) ==> p@ == path@,
{
    let c = chars_of(path);
    proof {
        reveal_strlit("/");
    }
    assert("/"@ =~= seq!['/']);
    if c.len() > 0 && c[0] == '/' {
        assert(path@.take(1) =~= "/"@);
        return Err(PathError::UnsafePath { path: path.to_owned() });
    }
    let n = c.len();
    let mut i: usize = 0;
    while n >= 2 && i <= n - 2
        invariant
            n == c@.len() == path@.len(),
            c@ == path@,
            forall|j: int| 0 <= j < i ==> !#[trigger] parent_at(path@, j),
        decreases n - i,
    {
        if c[i] == '.' && c[i + 1] == '.' && (i == 0 || c[i - 1] == '/') && (i + 2 == n || c[i
            + 2] == '/') {
            assert(parent_at(path@, i as int));
            return Err(PathError::UnsafePath { path: path.to_owned() });
        }
        i += 1;
    }
    assert forall|j: int| !parent_at(path@, j) by {
        if 0 <= j < i {
        } else if j >= i {
            assert(!parent_at(path@, j));
        }
    }
    proof {
        if has_prefix(path@, "/"@) {
            assert(path@.take(1)[0] == '/');
        }
    }
    Ok(())
}

// ---------------------------------------------------------------------------
// Tarball hashes
// ---------------------------------------------------------------------------

/// The SHA-256 digest of `data`.
pub uninterp spec fn sha256_of(data: Seq<u8>) -> Seq<u8>;

/// `sha2::Sha256::digest`, as bytes: the 32-byte SHA-256 digest of `data`,
/// a function of the bytes alone; the algorithm is not restated here.
#[verifier::external_body]
fn sha256_digest(data: &[u8]) -> (r: Vec<u8>)
    ensures
        r@ == sha256_of(data@),
        r@.len() == 32,
{
    <sha2::Sha256 as sha2::Digest>::digest(data).to_vec()
}

/// The lowercase hexadecimal digit of `n` (below 16).
pub open spec fn hex_digit(n: int) -> char {
    if n < 10 {
        (48 + n) as char
    } else {
        (87 + n) as char
    }
}

/// Each byte as two lowercase hexadecimal digits, high one first.
pub open spec fn hex_lower(b: Seq<u8>) -> Seq<char>
    decreases b.len(),
{
    if b.len() == 0 {
        Seq::empty()
    } else {
        hex_lower(b.drop_last()) + seq![hex_digit(b.last() as int / 16), hex_digit(b.last() as int % 16)]
    }
}

/// `hex::encode`: each byte as two lowercase hexadecimal digits, in order,
/// as the crate documents it.
#[verifier::external_body]
fn hex_encode(bytes: &[u8]) -> (r: String)
    ensures
        r@ == hex_lower(bytes@),
{
    hex::encode(bytes)
}

/// Why a downloaded tarball was refused.
#[derive(Debug)]
pub enum TarballError {
    /// The index names a hash algorithm other than SHA-256.
    UnsupportedAlgorithm { algorithm: String },
    /// The tarball's SHA-256 differs from the one the index expects.
    HashMismatch { expected: String, actual: String },
}

/// The hash algorithm to check a tarball with: SHA-256 unless another is
/// named, which is refused.
pub fn hash_algorithm(requested: Option<&str>) -> (r: Result<String, TarballError>)
    ensures
        match requested {
            None => r matches Ok(a) && a@ == "sha256"@,
            Some(x) => if x@ == "sha256"@ {
                r matches Ok(a) && a@ == x@
            } else {
                r matches Err(TarballError::UnsupportedAlgorithm { algorithm }) && algorithm@ == x@
            },
        },
{
    match requested {
        None => Ok("sha256".to_string()),
        Some(x) => {
            if crate::text::eq_chars(chars_of(x).as_slice(), chars_of("sha256").as_slice()) {
                Ok(x.to_owned())
            } else {
                Err(TarballError::UnsupportedAlgorithm { algorithm: x.to_owned() })
            }
        },
    }
}

/// The lowercase hexadecimal SHA-256 of a tarball's bytes.
pub fn tarball_hash(data: &[u8]) -> (r: String)
    ensures
        r@ == hex_lower(sha256_of(data@)),
{
    let digest = sha256_digest(data);
    hex_encode(digest.as_slice())
}

/// Checks a tarball against the hash that the index expects, if any: the
/// tarball's hash, or the mismatch.
pub fn check_tarball_hash(data: &[u8], expected: Option<&str>) -> (r: Result<String, TarballError>)
    ensures
        match expected {
            None => r matches Ok(h) && h@ == hex_lower(sha256_of(data@)),
            Some(e) => if e@ == hex_lower(sha256_of(data@)) {
                r matches Ok(h) && h@ == e@
            } else {
                r matches Err(TarballError::HashMismatch { expected: x, actual: y }) && x@ == e@ && y@
                    == hex_lower(sha256_of(data@))
            },
        },
{
    let hash = tarball_hash(data);
    match expected {
        None => Ok(hash),
        Some(e) => {
            if crate::text::eq_chars(chars_of(hash.as_str()).as_slice(), chars_of(e).as_slice()) {
                Ok(hash)
            } else {
                Err(TarballError::HashMismatch { expected: e.to_owned(), actual: hash })
            }
        },
    }
}

} // verus!
