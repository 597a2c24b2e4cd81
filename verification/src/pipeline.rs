//! The publish pipeline: content is compressed if asked, then sealed if asked,
//! then cut into chunks; and the way back.

use crate::chunker::bytes_per_chunk;
use crate::chunker::chunk_count;
use crate::chunker::plan_chunks;
use crate::chunker::tiles;
use crate::chunker::ChunkSpec;
use crate::codec::compress_zstd;
use crate::codec::decompress_zstd;
use crate::codec::zstd_frame;
use crate::codec::zstd_unframe;
use crate::codec::CodecError;
use crate::crypto::decrypt_xchacha20;
use crate::crypto::encrypt_xchacha20;
use crate::crypto::sealable_len;
use crate::crypto::TAG_LEN;
use crate::crypto::opened;
use crate::crypto::xchacha_sealed;
use crate::crypto::CryptoError;
use crate::hash::cid_blake3;
use crate::hash::cid_check;
use crate::hash::cid_of;
use crate::hash::hex_encode;
use crate::hash::hex_lower;
use crate::hash::lemma_cid_checks_own_bytes;
use crate::hash::verify_cid;
use crate::hash::CidAlgo;
use crate::hash::CidError;
use crate::manifests::chunk_views;
use crate::manifests::opt_enc;
use crate::manifests::ChunkRefView;
use crate::manifests::FileChunkRef;
use crate::manifests::EncDesc;
use crate::manifests::EncDescView;
use crate::text::opt_text;
use vstd::prelude::*;
use vstd::string::StringExecFns;

verus! {

/// The key and nonce a payload is sealed under.
#[derive(Clone, Copy)]
pub struct Sealing {
    pub key: [u8; 32],
    pub nonce: [u8; 24],
}

/// The marker a manifest records for a compressed payload.
pub open spec fn zstd_marker() -> Seq<char> {
    seq!['z', 's', 't', 'd']
}

/// The algorithm name a manifest records for a sealed payload.
pub open spec fn xchacha_name() -> Seq<char> {
    seq![
        'x',
        'c',
        'h',
        'a',
        'c',
        'h',
        'a',
        '2',
        '0',
        'p',
        'o',
        'l',
        'y',
        '1',
        '3',
        '0',
        '5',
    ]
}

/// Content ready to be published.
#[derive(Debug, Clone)]
pub struct Prepared {
    /// The bytes to publish: the content after compression and sealing.
    pub payload: Vec<u8>,
    /// The chunks the payload is cut into.
    pub plan: Vec<ChunkSpec>,
    /// The identifier of the content itself.
    pub file_cid: String,
    /// The length of the content itself.
    pub size: u64,
    /// The compression marker, where the content was compressed.
    pub z: Option<String>,
    /// The encoding descriptor, where the payload was sealed.
    pub enc: Option<EncDesc>,
}

/// Why content could not be prepared or restored.
#[derive(Debug, Clone, Copy, PartialEq, Eq, Structural)]
pub enum PipelineError {
    /// Compression or decompression failed.
    Codec(CodecError),
    /// Sealing or opening failed.
    Crypto(CryptoError),
    /// The restored content, or a fetched chunk, does not bear the expected
    /// identifier.
    Cid(CidError),
    /// The number of fetched chunks is not the number of chunk references.
    ChunkCount,
}

/// The content, compressed where a level is given; `None` where the encoder
/// reports an error.
pub open spec fn packed(content: Seq<u8>, level: Option<i32>) -> Option<Seq<u8>> {
    match level {
        None => Some(content),
        Some(l) => zstd_frame(content, l as int),
    }
}

/// The bytes, sealed where a key and nonce are given.
pub open spec fn sealed(bytes: Seq<u8>, sealing: Option<Sealing>) -> Seq<u8> {
    match sealing {
        None => bytes,
        Some(s) => xchacha_sealed(s.key@, s.nonce@, bytes),
    }
}

/// The bytes, opened where a key and nonce are given; `None` where the cipher
/// rejects them.
pub open spec fn unsealed(payload: Seq<u8>, sealing: Option<Sealing>) -> Option<Seq<u8>> {
    match sealing {
        None => Some(payload),
        Some(s) => opened(s.key@, s.nonce@, payload),
    }
}

/// The bytes, decompressed where they were compressed; `None` where the
/// decoder rejects them.
pub open spec fn unpacked(bytes: Seq<u8>, compressed: bool) -> Option<Seq<u8>> {
    if compressed {
        zstd_unframe(bytes)
    } else {
        Some(bytes)
    }
}

/// What restoring a payload yields: the content, or the first step that fails,
/// in the order opening, decompressing, checking the identifier.
pub open spec fn restored(
    payload: Seq<u8>,
    compressed: bool,
    sealing: Option<Sealing>,
    file_cid: Seq<char>,
) -> Result<Seq<u8>, PipelineError> {
    match unsealed(payload, sealing) {
        None => Err(PipelineError::Crypto(CryptoError::AuthenticationFailure)),
        Some(opened) => match unpacked(opened, compressed) {
            None => Err(PipelineError::Codec(CodecError::CorruptStream)),
            Some(content) => match cid_check(file_cid, content) {
                Err(e) => Err(PipelineError::Cid(e)),
                Ok(()) => Ok(content),
            },
        },
    }
}

/// The description of content that was prepared from `content` into `bytes`
/// after compression: the payload is `bytes`, sealed where sealing is asked,
/// one tag longer where it is sealed, cut into chunks that tile it under the
/// budget; the content's identifier and
/// length and the markers of what was applied are recorded; and the payload
/// restores to the content.
pub open spec fn describes(
    p: Prepared,
    content: Seq<u8>,
    bytes: Seq<u8>,
    level: Option<i32>,
    sealing: Option<Sealing>,
    max_payload_chars: int,
) -> bool {
    &&& p.payload@ == sealed(bytes, sealing)
    &&& p.payload@.len() == (if sealing is Some {
        bytes.len() + TAG_LEN
    } else {
        bytes.len() as int
    })
    &&& tiles(p.plan@, p.payload@.len() as int)
    &&& p.plan@.len() == chunk_count(p.payload@.len() as int, bytes_per_chunk(max_payload_chars))
    &&& forall|i: int|
        0 <= i < p.plan@.len() ==> (#[trigger] p.plan@[i]).offset == i * bytes_per_chunk(
            max_payload_chars,
        )
    &&& p.file_cid@ == cid_of(CidAlgo::Blake3, content)
    &&& p.size == content.len()
    &&& opt_text(p.z) == (match level {
        Some(_) => Some(zstd_marker()),
        None => None,
    })
    &&& opt_enc(p.enc) == (match sealing {
        Some(s) => Some(EncDescView { alg: xchacha_name(), nonce: hex_lower(s.nonce@) }),
        None => None,
    })
    &&& restored(p.payload@, level is Some, sealing, p.file_cid@) == Ok::<Seq<u8>, PipelineError>(
        content,
    )
}

/// What preparing content returns. Where compression is asked and the encoder
/// reports an error: `EncoderFailed`. Otherwise, where sealing is asked and the
/// compressed content is too long to seal: `MessageTooLong`. Otherwise the
/// prepared content, as `describes` says.
pub open spec fn prepare_outcome(
    content: Seq<u8>,
    level: Option<i32>,
    sealing: Option<Sealing>,
    max_payload_chars: int,
    r: Result<Prepared, PipelineError>,
) -> bool {
    match packed(content, level) {
        None => r matches Err(e) && e == PipelineError::Codec(CodecError::EncoderFailed),
        Some(bytes) => if sealing is Some && !sealable_len(bytes.len() as int) {
            r matches Err(e) && e == PipelineError::Crypto(CryptoError::MessageTooLong)
        } else {
            r matches Ok(p) && describes(p, content, bytes, level, sealing, max_payload_chars)
        },
    }
}

/// Copies bytes.
pub fn copy_bytes(bytes: &[u8]) -> (out: Vec<u8>)
    ensures
        out@ == bytes@,
{
    let mut out: Vec<u8> = Vec::new();
    let mut i: usize = 0;
    while i < bytes.len()
        invariant
            i <= bytes@.len(),
            out@ == bytes@.take(i as int),
        decreases bytes@.len() - i,
    {
        out.push(bytes[i]);
        assert(out@ =~= bytes@.take(i + 1));
        i += 1;
    }
    assert(bytes@.take(i as int) =~= bytes@);
    out
}

/// Prepares content for publishing: compresses it where `level` is given,
/// seals it where `sealing` is given, and plans its chunks under the budget.
pub fn prepare_payload(
    content: &[u8],
    level: Option<i32>,
    sealing: Option<Sealing>,
    max_payload_chars: usize,
) -> (r: Result<Prepared, PipelineError>)
    ensures
        prepare_outcome(content@, level, sealing, max_payload_chars as int, r),
{
    let file_cid = cid_blake3(content);
    proof {
        lemma_cid_checks_own_bytes(CidAlgo::Blake3, content@);
    }
    let (compressed, z) = match level {
        None => (copy_bytes(content), None),
        Some(l) => match compress_zstd(content, l) {
            Err(e) => {
                return Err(PipelineError::Codec(e));
            },
            Ok(bytes) => {
                proof {
                    reveal_strlit("zstd");
                }
                let marker = String::from_str("zstd");
                assert(marker@ =~= zstd_marker());
                (bytes, Some(marker))
            },
        },
    };
    assert(packed(content@, level) == Some(compressed@));
    assert(unpacked(compressed@, level is Some) == Some(content@));
    let (payload, enc) = match sealing {
        None => (compressed, None),
        Some(s) => match encrypt_xchacha20(&s.key, &s.nonce, compressed.as_slice()) {
            Err(e) => {
                return Err(PipelineError::Crypto(e));
            },
            Ok(bytes) => {
                proof {
                    reveal_strlit("xchacha20poly1305");
                }
                let alg = String::from_str("xchacha20poly1305");
                assert(alg@ =~= xchacha_name());
                let nonce = hex_encode(s.nonce.as_slice());
                (bytes, Some(EncDesc { alg, nonce }))
            },
        },
    };
    let plan = plan_chunks(payload.len(), max_payload_chars);
    Ok(Prepared { payload, plan, file_cid, size: content.len() as u64, z, enc })
}

/// Restores content from a payload: opens it where `sealing` is given,
/// decompresses it where it was compressed, and checks it against the
/// identifier it should bear.
pub fn restore_payload(
    payload: &[u8],
    compressed: bool,
    sealing: Option<Sealing>,
    file_cid: &str,
) -> (r: Result<Vec<u8>, PipelineError>)
    ensures
        match restored(payload@, compressed, sealing, file_cid@) {
            Ok(content) => r matches Ok(out) && out@ == content,
            Err(e) => r == Err::<Vec<u8>, PipelineError>(e),
        },
{
    let opened = match sealing {
        None => copy_bytes(payload),
        Some(s) => match decrypt_xchacha20(&s.key, &s.nonce, payload) {
            Err(e) => {
                return Err(PipelineError::Crypto(e));
            },
            Ok(bytes) => bytes,
        },
    };
    let content = if compressed {
        match decompress_zstd(opened.as_slice()) {
            Err(e) => {
                return Err(PipelineError::Codec(e));
            },
            Ok(bytes) => bytes,
        }
    } else {
        opened
    };
    match verify_cid(file_cid, content.as_slice()) {
        Err(e) => Err(PipelineError::Cid(e)),
        Ok(()) => Ok(content),
    }
}

/// The bytes of one chunk of a payload, or `None` where the chunk reaches past
/// the payload's end.
pub fn chunk_bytes(payload: &[u8], chunk: &ChunkSpec) -> (r: Option<Vec<u8>>)
    ensures
        match r {
            Some(bytes) => chunk.offset + chunk.size <= payload@.len() && bytes@
                == payload@.subrange(chunk.offset as int, chunk.offset + chunk.size),
            None => chunk.offset + chunk.size > payload@.len(),
        },
{
    if chunk.offset > payload.len() || chunk.size > payload.len() - chunk.offset {
        return None;
    }
    let end: usize = chunk.offset + chunk.size;
    let mut out: Vec<u8> = Vec::new();
    let mut i: usize = chunk.offset;
    while i < end
        invariant
            chunk.offset <= i <= end,
            end <= payload@.len(),
            out@ == payload@.subrange(chunk.offset as int, i as int),
        decreases end - i,
    {
        out.push(payload[i]);
        assert(out@ =~= payload@.subrange(chunk.offset as int, i + 1));
        i += 1;
    }
    Some(out)
}

/// The bytes of the first `n` chunks of a plan, joined in order.
pub open spec fn joined(payload: Seq<u8>, plan: Seq<ChunkSpec>, n: int) -> Seq<u8>
    decreases n,
{
    if n <= 0 {
        Seq::empty()
    } else {
        joined(payload, plan, n - 1) + payload.subrange(
            plan[n - 1].offset as int,
            plan[n - 1].offset + plan[n - 1].size,
        )
    }
}

/// The chunks of a tiling, joined in order, are the payload: nothing is lost
/// and nothing is carried twice.
pub proof fn lemma_chunks_rejoin(payload: Seq<u8>, plan: Seq<ChunkSpec>)
    requires
        tiles(plan, payload.len() as int),
    ensures
        joined(payload, plan, plan.len() as int) == payload,
{
    if plan.len() > 0 {
        lemma_joined_prefix(payload, plan, plan.len() as int);
        assert(payload.subrange(0, payload.len() as int) =~= payload);
    } else {
        assert(payload =~= Seq::<u8>::empty());
    }
}

proof fn lemma_joined_prefix(payload: Seq<u8>, plan: Seq<ChunkSpec>, n: int)
    requires
        tiles(plan, payload.len() as int),
        1 <= n <= plan.len(),
    ensures
        plan[n - 1].offset + plan[n - 1].size <= payload.len(),
        joined(payload, plan, n) == payload.subrange(0, plan[n - 1].offset + plan[n - 1].size),
    decreases n,
{
    crate::chunker::lemma_tiling_covers_once(plan, payload.len() as int);
    let c = plan[n - 1];
    assert(c.size > 0);
    assert(crate::chunker::holds_byte(c, c.offset as int));
    assert(crate::chunker::holds_byte(c, c.offset + c.size - 1));
    if n == 1 {
        assert(joined(payload, plan, 0) =~= Seq::<u8>::empty());
        assert(joined(payload, plan, 1) =~= payload.subrange(0, c.offset + c.size));
    } else {
        lemma_joined_prefix(payload, plan, n - 1);
        assert(plan[n - 2].offset + plan[n - 2].size == c.offset);
        assert(joined(payload, plan, n) =~= payload.subrange(0, c.offset + c.size));
    }
}

/// The views of a sequence of byte strings.
pub open spec fn byte_views(parts: Seq<Vec<u8>>) -> Seq<Seq<u8>> {
    parts.map_values(|p: Vec<u8>| p@)
}

/// Byte strings joined in order.
pub open spec fn flattened(parts: Seq<Seq<u8>>) -> Seq<u8>
    decreases parts.len(),
{
    if parts.len() == 0 {
        Seq::empty()
    } else {
        flattened(parts.drop_last()) + parts.last()
    }
}

/// The first `n` fetched chunks bear the identifiers of their references.
pub open spec fn parts_verified(refs: Seq<ChunkRefView>, parts: Seq<Seq<u8>>, n: int) -> bool {
    forall|k: int| 0 <= k < n ==> cid_check(refs[k].cid, #[trigger] parts[k]) is Ok
}

/// What assembling fetched chunks yields: the chunks joined in order where
/// there is one per reference and each bears the identifier of its reference;
/// otherwise `ChunkCount`, or the failure of the first chunk that does not.
pub open spec fn assembled(refs: Seq<ChunkRefView>, parts: Seq<Seq<u8>>, r: Result<
    Seq<u8>,
    PipelineError,
>) -> bool {
    if refs.len() != parts.len() {
        r == Err::<Seq<u8>, PipelineError>(PipelineError::ChunkCount)
    } else {
        match r {
            Ok(payload) => parts_verified(refs, parts, parts.len() as int) && payload == flattened(
                parts,
            ),
            Err(e) => exists|k: int|
                0 <= k < parts.len() && parts_verified(refs, parts, k) && (#[trigger] cid_check(
                    refs[k].cid,
                    parts[k],
                )) == Err::<(), CidError>(e->Cid_0) && e is Cid,
        }
    }
}

/// Assembles the payload of a file from the chunks fetched for its chunk
/// references, checking each against the identifier its reference records.
pub fn assemble(refs: &Vec<FileChunkRef>, parts: &Vec<Vec<u8>>) -> (r: Result<Vec<u8>, PipelineError>)
    ensures
        assembled(
            chunk_views(refs@),
            byte_views(parts@),
            match r {
                Ok(out) => Ok(out@),
                Err(e) => Err(e),
            },
        ),
{
    if refs.len() != parts.len() {
        return Err(PipelineError::ChunkCount);
    }
    let ghost rv = chunk_views(refs@);
    let ghost pv = byte_views(parts@);
    let mut out: Vec<u8> = Vec::new();
    let mut k: usize = 0;
    assert(pv.take(0) =~= Seq::<Seq<u8>>::empty());
    while k < parts.len()
        invariant
            k <= parts@.len(),
            refs@.len() == parts@.len(),
            rv == chunk_views(refs@),
            pv == byte_views(parts@),
            parts_verified(rv, pv, k as int),
            out@ == flattened(pv.take(k as int)),
        decreases parts@.len() - k,
    {
        assert(rv[k as int].cid == refs@[k as int].cid@);
        assert(pv[k as int] == parts@[k as int]@);
        match verify_cid(refs[k].cid.as_str(), parts[k].as_slice()) {
            Err(e) => {
                return Err(PipelineError::Cid(e));
            },
            Ok(()) => {},
        }
        let mut copy = copy_bytes(parts[k].as_slice());
        out.append(&mut copy);
        proof {
            let next = pv.take(k + 1);
            assert(next.drop_last() =~= pv.take(k as int));
            assert(next.last() == pv[k as int]);
        }
        k += 1;
    }
    assert(pv.take(k as int) =~= pv);
    Ok(out)
}

/// Assembling inverts chunking: the bytes of the chunks of a tiling, joined in
/// order, are the payload.
pub proof fn lemma_assemble_inverts_chunking(payload: Seq<u8>, plan: Seq<ChunkSpec>, parts: Seq<Seq<u8>>)
    requires
        tiles(plan, payload.len() as int),
        parts.len() == plan.len(),
        forall|k: int|
            0 <= k < plan.len() ==> #[trigger] parts[k] == payload.subrange(
                plan[k].offset as int,
                plan[k].offset + plan[k].size,
            ),
    ensures
        flattened(parts) == payload,
{
    lemma_flattened_is_joined(payload, plan, parts, plan.len() as int);
    assert(parts.take(plan.len() as int) =~= parts);
    lemma_chunks_rejoin(payload, plan);
}

proof fn lemma_flattened_is_joined(payload: Seq<u8>, plan: Seq<ChunkSpec>, parts: Seq<Seq<u8>>, n: int)
    requires
        0 <= n <= plan.len(),
        parts.len() == plan.len(),
        forall|k: int|
            0 <= k < plan.len() ==> #[trigger] parts[k] == payload.subrange(
                plan[k].offset as int,
                plan[k].offset + plan[k].size,
            ),
    ensures
        flattened(parts.take(n)) == joined(payload, plan, n),
    decreases n,
{
    if n == 0 {
        assert(parts.take(0) =~= Seq::<Seq<u8>>::empty());
    } else {
        lemma_flattened_is_joined(payload, plan, parts, n - 1);
        assert(parts.take(n).drop_last() =~= parts.take(n - 1));
        assert(parts.take(n).last() == parts[n - 1]);
    }
}

} // verus!
