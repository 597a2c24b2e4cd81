//! Content identifiers: an algorithm tag, a colon, and the lowercase
//! hexadecimal digest of the exact bytes.

use sha2::Digest;
use vstd::prelude::*;
use vstd::string::StrSliceExecFns;
use vstd::string::StringExecFns;

verus! {

/// The hash algorithms a content identifier can be tagged with.
#[derive(Debug, Clone, Copy, PartialEq, Eq, Structural)]
pub enum CidAlgo {
    /// The fast tree hash, the default.
    Blake3,
    /// The cryptographic hash kept for interoperability.
    Sha256,
}

/// Length in bytes of a digest of either algorithm.
pub const DIGEST_LEN: usize = 32;

/// Length in characters of a content identifier: a tag of six characters, a
/// colon, and two hexadecimal digits for each byte of the digest.
pub const CID_LEN: usize = 71;

/// The 32-byte BLAKE3 hash of `data`, as the `blake3` crate computes it.
pub uninterp spec fn blake3_digest(data: Seq<u8>) -> Seq<u8>;

/// The 32-byte SHA-256 hash of `data`, as the `sha2` crate computes it.
pub uninterp spec fn sha256_digest(data: Seq<u8>) -> Seq<u8>;

/// The sixteen lowercase hexadecimal digits, by value.
pub open spec fn hex_digits() -> Seq<char> {
    seq!['0', '1', '2', '3', '4', '5', '6', '7', '8', '9', 'a', 'b', 'c', 'd', 'e', 'f']
}

/// Lowercase hexadecimal text of `bytes`: two digits per byte, high half first.
pub open spec fn hex_lower(bytes: Seq<u8>) -> Seq<char> {
    Seq::new(
        2 * bytes.len(),
        |i: int|
            if i % 2 == 0 {
                hex_digits()[bytes[i / 2] as int / 16]
            } else {
                hex_digits()[bytes[i / 2] as int % 16]
            },
    )
}

/// The tag that names an algorithm inside a content identifier.
pub open spec fn algo_tag(algo: CidAlgo) -> Seq<char> {
    match algo {
        CidAlgo::Blake3 => seq!['b', 'l', 'a', 'k', 'e', '3'],
        CidAlgo::Sha256 => seq!['s', 'h', 'a', '2', '5', '6'],
    }
}

/// The digest an algorithm assigns to `data`.
pub open spec fn algo_digest(algo: CidAlgo, data: Seq<u8>) -> Seq<u8> {
    match algo {
        CidAlgo::Blake3 => blake3_digest(data),
        CidAlgo::Sha256 => sha256_digest(data),
    }
}

/// Text of the identifier made of an algorithm's tag and a digest.
pub open spec fn cid_text(algo: CidAlgo, digest: Seq<u8>) -> Seq<char> {
    algo_tag(algo) + seq![':'] + hex_lower(digest)
}

/// The content identifier of `data` under `algo`.
pub open spec fn cid_of(algo: CidAlgo, data: Seq<u8>) -> Seq<char> {
    cid_text(algo, algo_digest(algo, data))
}

/// The identifier begins with the tag of `algo` and a colon.
pub open spec fn has_tag(cid: Seq<char>, algo: CidAlgo) -> bool {
    let head = algo_tag(algo) + seq![':'];
    cid.len() >= head.len() && cid.subrange(0, head.len() as int) == head
}

/// The algorithm an identifier's tag names, if it names one.
pub open spec fn tagged_algo(cid: Seq<char>) -> Option<CidAlgo> {
    if has_tag(cid, CidAlgo::Blake3) {
        Some(CidAlgo::Blake3)
    } else if has_tag(cid, CidAlgo::Sha256) {
        Some(CidAlgo::Sha256)
    } else {
        None
    }
}

/// Why an identifier does not vouch for some bytes.
#[derive(Debug, Clone, Copy, PartialEq, Eq, Structural)]
pub enum CidError {
    /// The identifier carries no tag of a known algorithm.
    UnknownAlgorithm,
    /// The bytes do not hash to the identifier under the algorithm it names.
    Mismatch,
}

/// What checking an identifier against bytes yields.
pub open spec fn cid_check(cid: Seq<char>, data: Seq<u8>) -> Result<(), CidError> {
    match tagged_algo(cid) {
        None => Err(CidError::UnknownAlgorithm),
        Some(algo) => if cid == cid_of(algo, data) {
            Ok(())
        } else {
            Err(CidError::Mismatch)
        },
    }
}

/// Calls `blake3::hash` and copies the 32 bytes of the hash it returns. The
/// result is taken to be a function of the input bytes alone.
#[verifier::external_body]
fn blake3_hash(data: &[u8]) -> (out: Vec<u8>)
    ensures
        out@ == blake3_digest(data@),
        out@.len() == 32,
{
    blake3::hash(data).as_bytes().to_vec()
}

/// Calls `sha2::Sha256::digest` and copies the 32 bytes of its output. The
/// result is taken to be a function of the input bytes alone.
#[verifier::external_body]
fn sha256_hash(data: &[u8]) -> (out: Vec<u8>)
    ensures
        out@ == sha256_digest(data@),
        out@.len() == 32,
{
    sha2::Sha256::digest(data).to_vec()
}

/// Calls `hex::encode`, which writes each byte as two lowercase hexadecimal
/// digits, the high half first.
#[verifier::external_body]
pub(crate) fn hex_encode(bytes: &[u8]) -> (out: String)
    ensures
        out@ == hex_lower(bytes@),
{
    hex::encode(bytes)
}

/// The identifier made of an algorithm's tag, a colon and the hexadecimal
/// text of a digest.
pub fn tagged_cid(algo: CidAlgo, digest: &[u8]) -> (cid: String)
    ensures
        cid@ == cid_text(algo, digest@),
        cid@.len() == 7 + 2 * digest@.len(),
{
    let mut cid = match algo {
        CidAlgo::Blake3 => {
            proof {
                reveal_strlit("blake3:");
            }
            String::from_str("blake3:")
        },
        CidAlgo::Sha256 => {
            proof {
                reveal_strlit("sha256:");
            }
            String::from_str("sha256:")
        },
    };
    assert(cid@ =~= algo_tag(algo) + seq![':']);
    let hex = hex_encode(digest);
    cid.append(hex.as_str());
    cid
}

/// Content identifier of `data` under the fast tree hash.
pub fn cid_blake3(data: &[u8]) -> (cid: String)
    ensures
        cid@ == cid_of(CidAlgo::Blake3, data@),
        cid@.len() == CID_LEN,
        algo_digest(CidAlgo::Blake3, data@).len() == DIGEST_LEN,
{
    let digest = blake3_hash(data);
    tagged_cid(CidAlgo::Blake3, digest.as_slice())
}

/// Content identifier of `data` under the cryptographic hash.
pub fn cid_sha256(data: &[u8]) -> (cid: String)
    ensures
        cid@ == cid_of(CidAlgo::Sha256, data@),
        cid@.len() == CID_LEN,
        algo_digest(CidAlgo::Sha256, data@).len() == DIGEST_LEN,
{
    let digest = sha256_hash(data);
    tagged_cid(CidAlgo::Sha256, digest.as_slice())
}

/// Content identifier of `data` under the chosen algorithm.
pub fn cid_for(algo: CidAlgo, data: &[u8]) -> (cid: String)
    ensures
        cid@ == cid_of(algo, data@),
        cid@.len() == CID_LEN,
        algo_digest(algo, data@).len() == DIGEST_LEN,
{
    match algo {
        CidAlgo::Blake3 => cid_blake3(data),
        CidAlgo::Sha256 => cid_sha256(data),
    }
}

/// Reads the algorithm out of an identifier's tag.
pub fn cid_algo(cid: &str) -> (algo: Option<CidAlgo>)
    ensures
        algo == tagged_algo(cid@),
{
    let n = cid.unicode_len();
    if n < 7 {
        return None;
    }
    let head = String::from_str(cid.substring_char(0, 7));
    proof {
        reveal_strlit("blake3:");
        reveal_strlit("sha256:");
    }
    let blake = String::from_str("blake3:");
    let sha = String::from_str("sha256:");
    assert(blake@ =~= algo_tag(CidAlgo::Blake3) + seq![':']);
    assert(sha@ =~= algo_tag(CidAlgo::Sha256) + seq![':']);
    if head == blake {
        Some(CidAlgo::Blake3)
    } else if head == sha {
        Some(CidAlgo::Sha256)
    } else {
        None
    }
}

/// Checks that `data` hashes to `cid` under the algorithm the identifier names.
pub fn verify_cid(cid: &str, data: &[u8]) -> (r: Result<(), CidError>)
    ensures
        r == cid_check(cid@, data@),
{
    match cid_algo(cid) {
        None => Err(CidError::UnknownAlgorithm),
        Some(algo) => {
            let fresh = cid_for(algo, data);
            let given = String::from_str(cid);
            if given == fresh {
                Ok(())
            } else {
                Err(CidError::Mismatch)
            }
        },
    }
}

proof fn lemma_hex_digit_distinct(m: int, n: int)
    requires
        0 <= m < 16,
        0 <= n < 16,
        hex_digits()[m] == hex_digits()[n],
    ensures
        m == n,
{
}

/// Hexadecimal text determines the bytes it was written from.
pub proof fn lemma_hex_lower_injective(a: Seq<u8>, b: Seq<u8>)
    requires
        hex_lower(a) == hex_lower(b),
    ensures
        a == b,
{
    assert(hex_lower(a).len() == 2 * a.len());
    assert(hex_lower(b).len() == 2 * b.len());
    assert forall|k: int| 0 <= k < a.len() implies a[k] == b[k] by {
        let x = a[k] as int;
        let y = b[k] as int;
        assert(hex_lower(a)[2 * k] == hex_digits()[x / 16]);
        assert(hex_lower(b)[2 * k] == hex_digits()[y / 16]);
        assert(hex_lower(a)[2 * k + 1] == hex_digits()[x % 16]);
        assert(hex_lower(b)[2 * k + 1] == hex_digits()[y % 16]);
        lemma_hex_digit_distinct(x / 16, y / 16);
        lemma_hex_digit_distinct(x % 16, y % 16);
    }
    assert(a =~= b);
}

/// Equal identifiers name the same algorithm and the same digest: an
/// identifier is its tag and digest and nothing else.
pub proof fn lemma_cid_text_injective(algo1: CidAlgo, d1: Seq<u8>, algo2: CidAlgo, d2: Seq<u8>)
    requires
        cid_text(algo1, d1) == cid_text(algo2, d2),
    ensures
        algo1 == algo2,
        d1 == d2,
{
    let c1 = cid_text(algo1, d1);
    let c2 = cid_text(algo2, d2);
    assert(c1[0] == algo_tag(algo1)[0]);
    assert(c2[0] == algo_tag(algo2)[0]);
    assert(algo1 == algo2);
    let head = algo_tag(algo1) + seq![':'];
    assert(c1.subrange(7, c1.len() as int) =~= hex_lower(d1));
    assert(c2.subrange(7, c2.len() as int) =~= hex_lower(d2));
    lemma_hex_lower_injective(d1, d2);
}

/// The shape of an identifier: it begins with the tag of its algorithm and a
/// colon, and every character after the colon is a lowercase hexadecimal
/// digit, two for each byte of the digest. For a digest of 32 bytes it is 71
/// characters long.
pub proof fn lemma_cid_shape(algo: CidAlgo, digest: Seq<u8>)
    ensures
        cid_text(algo, digest).len() == 7 + 2 * digest.len(),
        digest.len() == DIGEST_LEN ==> cid_text(algo, digest).len() == CID_LEN,
        has_tag(cid_text(algo, digest), algo),
        cid_text(algo, digest).subrange(0, 6) == algo_tag(algo),
        cid_text(algo, digest)[6] == ':',
        forall|i: int|
            7 <= i < cid_text(algo, digest).len() ==> hex_digits().contains(
                #[trigger] cid_text(algo, digest)[i],
            ),
{
    let cid = cid_text(algo, digest);
    let head = algo_tag(algo) + seq![':'];
    assert(cid.subrange(0, 7) =~= head);
    assert(cid.subrange(0, 6) =~= algo_tag(algo));
    assert forall|i: int| 7 <= i < cid.len() implies hex_digits().contains(#[trigger] cid[i]) by {
        let k = i - 7;
        let b = digest[k / 2] as int;
        assert(cid[i] == hex_lower(digest)[k]);
        assert(0 <= b / 16 < 16 && 0 <= b % 16 < 16);
        if k % 2 == 0 {
            assert(hex_lower(digest)[k] == hex_digits()[b / 16]);
        } else {
            assert(hex_lower(digest)[k] == hex_digits()[b % 16]);
        }
    }
}

/// Hashing is deterministic: the same bytes under the same algorithm have the
/// same identifier, and two pieces of content share an identifier only if they
/// share the algorithm and the digest.
pub proof fn lemma_cid_deterministic(algo1: CidAlgo, a: Seq<u8>, algo2: CidAlgo, b: Seq<u8>)
    ensures
        algo1 == algo2 && a == b ==> cid_of(algo1, a) == cid_of(algo2, b),
        cid_of(algo1, a) == cid_of(algo2, b) ==> algo1 == algo2 && algo_digest(algo1, a)
            == algo_digest(algo2, b),
{
    if cid_of(algo1, a) == cid_of(algo2, b) {
        lemma_cid_text_injective(algo1, algo_digest(algo1, a), algo2, algo_digest(algo2, b));
    }
}

/// An identifier built for an algorithm carries that algorithm's tag, so
/// checking the bytes it was built from succeeds.
pub proof fn lemma_cid_checks_own_bytes(algo: CidAlgo, data: Seq<u8>)
    ensures
        tagged_algo(cid_of(algo, data)) == Some(algo),
        cid_check(cid_of(algo, data), data) == Ok::<(), CidError>(()),
{
    let cid = cid_of(algo, data);
    let head = algo_tag(algo) + seq![':'];
    assert(cid.subrange(0, 7) =~= head);
    assert(cid[0] == algo_tag(algo)[0]);
    match algo {
        CidAlgo::Blake3 => {},
        CidAlgo::Sha256 => {
            let other = algo_tag(CidAlgo::Blake3) + seq![':'];
            assert(cid.subrange(0, 7)[0] == cid[0]);
            assert(other[0] == 'b');
        },
    }
}

} // verus!
