//! The canonical byte form of a manifest, and the identifier it gives.
//!
//! Fields are written in a fixed order. An integer takes eight bytes, low byte
//! first; a signed one is shifted by 2^63 first. A text is its length in bytes
//! and then its UTF-8 bytes. An optional value is a zero byte, or a one byte and
//! the value. A list is its length and then its items.

use crate::hash::cid_blake3;
use crate::hash::cid_of;
use crate::hash::CidAlgo;
use crate::hash::CID_LEN;
use crate::manifests::ChunkRefView;
use crate::manifests::DirChild;
use crate::manifests::DirChildView;
use crate::manifests::DirManifest;
use crate::manifests::DirManifestView;
use crate::manifests::EncDesc;
use crate::manifests::EncDescView;
use crate::manifests::FileChunkRef;
use crate::manifests::FileManifest;
use crate::manifests::FileManifestView;
use crate::manifests::chunk_views;
use crate::manifests::child_views;
use vstd::bytes::lemma_auto_spec_u64_to_from_le_bytes;
use vstd::bytes::spec_u64_from_le_bytes;
use vstd::bytes::spec_u64_to_le_bytes;
use vstd::bytes::u64_to_le_bytes;
use vstd::prelude::*;
use vstd::string::StrSliceExecFns;
use vstd::utf8::encode_utf8;
use vstd::utf8::encode_utf8_decode_utf8;

verus! {

/// Eight bytes, low byte first.
pub open spec fn enc_u64(n: int) -> Seq<u8> {
    spec_u64_to_le_bytes(n as u64)
}

/// A signed integer, shifted into the unsigned range.
pub open spec fn enc_i64(n: int) -> Seq<u8> {
    enc_u64(n + 0x8000_0000_0000_0000)
}

/// A text: the length of its UTF-8 encoding, then the encoding.
pub open spec fn enc_text(s: Seq<char>) -> Seq<u8> {
    enc_u64(encode_utf8(s).len() as int) + encode_utf8(s)
}

/// An optional text.
pub open spec fn enc_opt_text(o: Option<Seq<char>>) -> Seq<u8> {
    match o {
        None => seq![0u8],
        Some(s) => seq![1u8] + enc_text(s),
    }
}

/// An optional encoding descriptor.
pub open spec fn enc_opt_enc(o: Option<EncDescView>) -> Seq<u8> {
    match o {
        None => seq![0u8],
        Some(e) => seq![1u8] + (enc_text(e.alg) + enc_text(e.nonce)),
    }
}

/// A chunk reference.
pub open spec fn enc_chunk(c: ChunkRefView) -> Seq<u8> {
    enc_u64(c.i) + (enc_text(c.cid) + enc_text(c.msg))
}

/// Chunk references, one after the other.
pub open spec fn enc_chunks(chunks: Seq<ChunkRefView>) -> Seq<u8>
    decreases chunks.len(),
{
    if chunks.len() == 0 {
        Seq::empty()
    } else {
        enc_chunks(chunks.drop_last()) + enc_chunk(chunks.last())
    }
}

/// A directory child.
pub open spec fn enc_child(c: DirChildView) -> Seq<u8> {
    enc_text(c.t) + (enc_text(c.name) + (enc_text(c.manifest) + enc_text(c.thread)))
}

/// Directory children, one after the other.
pub open spec fn enc_children(children: Seq<DirChildView>) -> Seq<u8>
    decreases children.len(),
{
    if children.len() == 0 {
        Seq::empty()
    } else {
        enc_children(children.drop_last()) + enc_child(children.last())
    }
}

/// The canonical bytes of a file manifest.
pub open spec fn file_manifest_bytes(m: FileManifestView) -> Seq<u8> {
    seq![m.v as u8] + (enc_text(m.kind) + (enc_text(m.name) + (enc_u64(m.size) + (enc_u64(
        m.chunks.len() as int,
    ) + (enc_chunks(m.chunks) + (enc_text(m.file_cid) + (enc_opt_enc(m.enc) + (enc_opt_text(m.z)
        + (enc_i64(m.ctime) + (enc_i64(m.mtime) + enc_opt_text(m.prev)))))))))))
}

/// The canonical bytes of a directory manifest.
pub open spec fn dir_manifest_bytes(m: DirManifestView) -> Seq<u8> {
    seq![m.v as u8] + (enc_text(m.kind) + (enc_text(m.name) + (enc_u64(m.children.len() as int)
        + (enc_children(m.children) + (enc_i64(m.ctime) + (enc_i64(m.mtime) + enc_opt_text(
        m.prev,
    )))))))
}

/// The identifier of a file manifest: the tree hash of its canonical bytes.
pub open spec fn file_manifest_cid_text(m: FileManifestView) -> Seq<char> {
    cid_of(CidAlgo::Blake3, file_manifest_bytes(m))
}

/// The identifier of a directory manifest: the tree hash of its canonical
/// bytes.
pub open spec fn dir_manifest_cid_text(m: DirManifestView) -> Seq<char> {
    cid_of(CidAlgo::Blake3, dir_manifest_bytes(m))
}

fn put_u64(out: &mut Vec<u8>, n: u64)
    ensures
        final(out)@ == old(out)@ + enc_u64(n as int),
{
    let mut bytes = u64_to_le_bytes(n);
    out.append(&mut bytes);
}

fn put_i64(out: &mut Vec<u8>, n: i64)
    ensures
        final(out)@ == old(out)@ + enc_i64(n as int),
{
    let shifted: u64 = if n >= 0 {
        n as u64 + 0x8000_0000_0000_0000u64
    } else {
        ((n + i64::MAX) + 1) as u64
    };
    put_u64(out, shifted);
}

fn put_text(out: &mut Vec<u8>, s: &str)
    ensures
        final(out)@ == old(out)@ + enc_text(s@),
{
    let mut bytes = s.as_bytes_vec();
    let len = bytes.len();
    put_u64(out, len as u64);
    out.append(&mut bytes);
    assert(out@ =~= old(out)@ + enc_text(s@));
}

fn put_opt_text(out: &mut Vec<u8>, o: &Option<String>)
    ensures
        final(out)@ == old(out)@ + enc_opt_text(crate::text::opt_text(*o)),
{
    match o {
        None => {
            out.push(0u8);
            assert(out@ =~= old(out)@ + seq![0u8]);
        },
        Some(s) => {
            out.push(1u8);
            put_text(out, s.as_str());
            assert(out@ =~= old(out)@ + (seq![1u8] + enc_text(s@)));
        },
    }
}

fn put_opt_enc(out: &mut Vec<u8>, o: &Option<EncDesc>)
    ensures
        final(out)@ == old(out)@ + enc_opt_enc(crate::manifests::opt_enc(*o)),
{
    match o {
        None => {
            out.push(0u8);
            assert(out@ =~= old(out)@ + seq![0u8]);
        },
        Some(e) => {
            out.push(1u8);
            put_text(out, e.alg.as_str());
            put_text(out, e.nonce.as_str());
            assert(out@ =~= old(out)@ + (seq![1u8] + (enc_text(e.alg@) + enc_text(e.nonce@))));
        },
    }
}

fn put_chunks(out: &mut Vec<u8>, chunks: &Vec<FileChunkRef>)
    ensures
        final(out)@ == old(out)@ + enc_chunks(chunk_views(chunks@)),
{
    let ghost cv = chunk_views(chunks@);
    let mut k: usize = 0;
    assert(cv.take(0) =~= Seq::<ChunkRefView>::empty());
    assert(out@ =~= old(out)@ + enc_chunks(cv.take(0)));
    while k < chunks.len()
        invariant
            k <= chunks@.len(),
            cv == chunk_views(chunks@),
            out@ == old(out)@ + enc_chunks(cv.take(k as int)),
        decreases chunks@.len() - k,
    {
        let ghost before = out@;
        let c = &chunks[k];
        put_u64(out, c.i as u64);
        put_text(out, c.cid.as_str());
        put_text(out, c.msg.as_str());
        proof {
            let next = cv.take(k + 1);
            assert(next.drop_last() =~= cv.take(k as int));
            assert(next.last() == cv[k as int]);
            assert(out@ =~= before + enc_chunk(cv[k as int]));
            assert(out@ =~= old(out)@ + enc_chunks(next));
        }
        k += 1;
    }
    assert(cv.take(k as int) =~= cv);
}

fn put_children(out: &mut Vec<u8>, children: &Vec<DirChild>)
    ensures
        final(out)@ == old(out)@ + enc_children(child_views(children@)),
{
    let ghost cv = child_views(children@);
    let mut k: usize = 0;
    assert(cv.take(0) =~= Seq::<DirChildView>::empty());
    assert(out@ =~= old(out)@ + enc_children(cv.take(0)));
    while k < children.len()
        invariant
            k <= children@.len(),
            cv == child_views(children@),
            out@ == old(out)@ + enc_children(cv.take(k as int)),
        decreases children@.len() - k,
    {
        let ghost before = out@;
        let c = &children[k];
        put_text(out, c.t.as_str());
        put_text(out, c.name.as_str());
        put_text(out, c.manifest.as_str());
        put_text(out, c.thread.as_str());
        proof {
            let next = cv.take(k + 1);
            assert(next.drop_last() =~= cv.take(k as int));
            assert(next.last() == cv[k as int]);
            assert(out@ =~= before + enc_child(cv[k as int]));
            assert(out@ =~= old(out)@ + enc_children(next));
        }
        k += 1;
    }
    assert(cv.take(k as int) =~= cv);
}

proof fn lemma_file_bytes_grouping(m: FileManifestView)
    ensures
        seq![m.v as u8] + enc_text(m.kind) + enc_text(m.name) + enc_u64(m.size) + enc_u64(
            m.chunks.len() as int,
        ) + enc_chunks(m.chunks) + enc_text(m.file_cid) + enc_opt_enc(m.enc) + enc_opt_text(m.z)
            + enc_i64(m.ctime) + enc_i64(m.mtime) + enc_opt_text(m.prev) == file_manifest_bytes(m),
{
    let e0 = seq![m.v as u8];
    let e1 = enc_text(m.kind);
    let e2 = enc_text(m.name);
    let e3 = enc_u64(m.size);
    let e4 = enc_u64(m.chunks.len() as int);
    let e5 = enc_chunks(m.chunks);
    let e6 = enc_text(m.file_cid);
    let e7 = enc_opt_enc(m.enc);
    let e8 = enc_opt_text(m.z);
    let e9 = enc_i64(m.ctime);
    let e10 = enc_i64(m.mtime);
    let e11 = enc_opt_text(m.prev);
    let t10 = e10 + e11;
    let t9 = e9 + t10;
    let t8 = e8 + t9;
    let t7 = e7 + t8;
    let t6 = e6 + t7;
    let t5 = e5 + t6;
    let t4 = e4 + t5;
    let t3 = e3 + t4;
    let t2 = e2 + t3;
    let t1 = e1 + t2;
    let l1 = e0 + e1;
    let l2 = l1 + e2;
    let l3 = l2 + e3;
    let l4 = l3 + e4;
    let l5 = l4 + e5;
    let l6 = l5 + e6;
    let l7 = l6 + e7;
    let l8 = l7 + e8;
    let l9 = l8 + e9;
    let l10 = l9 + e10;
    lemma_regroup(e0, e1, t2);
    lemma_regroup(l1, e2, t3);
    lemma_regroup(l2, e3, t4);
    lemma_regroup(l3, e4, t5);
    lemma_regroup(l4, e5, t6);
    lemma_regroup(l5, e6, t7);
    lemma_regroup(l6, e7, t8);
    lemma_regroup(l7, e8, t9);
    lemma_regroup(l8, e9, t10);
    lemma_regroup(l9, e10, e11);
}

proof fn lemma_dir_bytes_grouping(m: DirManifestView)
    ensures
        seq![m.v as u8] + enc_text(m.kind) + enc_text(m.name) + enc_u64(m.children.len() as int)
            + enc_children(m.children) + enc_i64(m.ctime) + enc_i64(m.mtime) + enc_opt_text(m.prev)
            == dir_manifest_bytes(m),
{
    let e0 = seq![m.v as u8];
    let e1 = enc_text(m.kind);
    let e2 = enc_text(m.name);
    let e3 = enc_u64(m.children.len() as int);
    let e4 = enc_children(m.children);
    let e5 = enc_i64(m.ctime);
    let e6 = enc_i64(m.mtime);
    let e7 = enc_opt_text(m.prev);
    let t6 = e6 + e7;
    let t5 = e5 + t6;
    let t4 = e4 + t5;
    let t3 = e3 + t4;
    let t2 = e2 + t3;
    let l1 = e0 + e1;
    let l2 = l1 + e2;
    let l3 = l2 + e3;
    let l4 = l3 + e4;
    let l5 = l4 + e5;
    lemma_regroup(e0, e1, t2);
    lemma_regroup(l1, e2, t3);
    lemma_regroup(l2, e3, t4);
    lemma_regroup(l3, e4, t5);
    lemma_regroup(l4, e5, t6);
    lemma_regroup(l5, e6, e7);
}

/// Writes a file manifest in its canonical byte form.
pub fn canonical_file_bytes(m: &FileManifest) -> (out: Vec<u8>)
    ensures
        out@ == file_manifest_bytes(m@),
{
    let mut out: Vec<u8> = Vec::new();
    out.push(m.v);
    assert(out@ =~= seq![m@.v as u8]);
    put_text(&mut out, m.kind.as_str());
    put_text(&mut out, m.name.as_str());
    put_u64(&mut out, m.size);
    put_u64(&mut out, m.chunks.len() as u64);
    put_chunks(&mut out, &m.chunks);
    put_text(&mut out, m.file_cid.as_str());
    put_opt_enc(&mut out, &m.enc);
    put_opt_text(&mut out, &m.z);
    put_i64(&mut out, m.ctime);
    put_i64(&mut out, m.mtime);
    put_opt_text(&mut out, &m.prev);
    proof {
        lemma_file_bytes_grouping(m@);
    }
    out
}

/// Writes a directory manifest in its canonical byte form.
pub fn canonical_dir_bytes(m: &DirManifest) -> (out: Vec<u8>)
    ensures
        out@ == dir_manifest_bytes(m@),
{
    let mut out: Vec<u8> = Vec::new();
    out.push(m.v);
    assert(out@ =~= seq![m@.v as u8]);
    put_text(&mut out, m.kind.as_str());
    put_text(&mut out, m.name.as_str());
    put_u64(&mut out, m.children.len() as u64);
    put_children(&mut out, &m.children);
    put_i64(&mut out, m.ctime);
    put_i64(&mut out, m.mtime);
    put_opt_text(&mut out, &m.prev);
    proof {
        lemma_dir_bytes_grouping(m@);
    }
    out
}

/// The content identifier of a file manifest.
pub fn file_manifest_cid(m: &FileManifest) -> (cid: String)
    ensures
        cid@ == file_manifest_cid_text(m@),
        cid@.len() == CID_LEN,
{
    let bytes = canonical_file_bytes(m);
    cid_blake3(bytes.as_slice())
}

/// The content identifier of a directory manifest.
pub fn dir_manifest_cid(m: &DirManifest) -> (cid: String)
    ensures
        cid@ == dir_manifest_cid_text(m@),
        cid@.len() == CID_LEN,
{
    let bytes = canonical_dir_bytes(m);
    cid_blake3(bytes.as_slice())
}

/// The text can be written: its UTF-8 length fits eight bytes.
pub open spec fn text_fits(s: Seq<char>) -> bool {
    encode_utf8(s).len() <= u64::MAX
}

/// The optional text can be written.
pub open spec fn opt_text_fits(o: Option<Seq<char>>) -> bool {
    o matches Some(s) ==> text_fits(s)
}

/// The chunk reference can be written.
pub open spec fn chunk_fits(c: ChunkRefView) -> bool {
    0 <= c.i <= u64::MAX && text_fits(c.cid) && text_fits(c.msg)
}

/// The directory child can be written.
pub open spec fn child_fits(c: DirChildView) -> bool {
    text_fits(c.t) && text_fits(c.name) && text_fits(c.manifest) && text_fits(c.thread)
}

/// The file manifest can be written: every number is in the range of its
/// field and every text and list has a length that fits eight bytes. The view
/// of any manifest in memory is such.
pub open spec fn file_manifest_fits(m: FileManifestView) -> bool {
    &&& 0 <= m.v <= u8::MAX
    &&& text_fits(m.kind)
    &&& text_fits(m.name)
    &&& 0 <= m.size <= u64::MAX
    &&& m.chunks.len() <= u64::MAX
    &&& forall|k: int| 0 <= k < m.chunks.len() ==> chunk_fits(#[trigger] m.chunks[k])
    &&& text_fits(m.file_cid)
    &&& (m.enc matches Some(e) ==> text_fits(e.alg) && text_fits(e.nonce))
    &&& opt_text_fits(m.z)
    &&& i64::MIN <= m.ctime <= i64::MAX
    &&& i64::MIN <= m.mtime <= i64::MAX
    &&& opt_text_fits(m.prev)
}

/// The directory manifest can be written.
pub open spec fn dir_manifest_fits(m: DirManifestView) -> bool {
    &&& 0 <= m.v <= u8::MAX
    &&& text_fits(m.kind)
    &&& text_fits(m.name)
    &&& m.children.len() <= u64::MAX
    &&& forall|k: int| 0 <= k < m.children.len() ==> child_fits(#[trigger] m.children[k])
    &&& i64::MIN <= m.ctime <= i64::MAX
    &&& i64::MIN <= m.mtime <= i64::MAX
    &&& opt_text_fits(m.prev)
}

proof fn lemma_regroup(l: Seq<u8>, e: Seq<u8>, t: Seq<u8>)
    ensures
        l + (e + t) == (l + e) + t,
{
    assert(l + (e + t) =~= (l + e) + t);
}

proof fn lemma_same_prefix(a: Seq<u8>, r1: Seq<u8>, b: Seq<u8>, r2: Seq<u8>)
    requires
        a.len() == b.len(),
        a + r1 == b + r2,
    ensures
        a == b,
        r1 == r2,
{
    assert(a =~= (a + r1).subrange(0, a.len() as int));
    assert(b =~= (b + r2).subrange(0, b.len() as int));
    assert(r1 =~= (a + r1).subrange(a.len() as int, (a + r1).len() as int));
    assert(r2 =~= (b + r2).subrange(b.len() as int, (b + r2).len() as int));
}

proof fn lemma_u64_split(x: int, r1: Seq<u8>, y: int, r2: Seq<u8>)
    requires
        0 <= x <= u64::MAX,
        0 <= y <= u64::MAX,
        enc_u64(x) + r1 == enc_u64(y) + r2,
    ensures
        x == y,
        r1 == r2,
{
    lemma_auto_spec_u64_to_from_le_bytes();
    assert(enc_u64(x).len() == 8 && enc_u64(y).len() == 8);
    lemma_same_prefix(enc_u64(x), r1, enc_u64(y), r2);
    assert(spec_u64_from_le_bytes(spec_u64_to_le_bytes(x as u64)) == x as u64);
    assert(spec_u64_from_le_bytes(spec_u64_to_le_bytes(y as u64)) == y as u64);
}

proof fn lemma_i64_split(x: int, r1: Seq<u8>, y: int, r2: Seq<u8>)
    requires
        i64::MIN <= x <= i64::MAX,
        i64::MIN <= y <= i64::MAX,
        enc_i64(x) + r1 == enc_i64(y) + r2,
    ensures
        x == y,
        r1 == r2,
{
    lemma_u64_split(x + 0x8000_0000_0000_0000, r1, y + 0x8000_0000_0000_0000, r2);
}

proof fn lemma_text_split(s: Seq<char>, r1: Seq<u8>, t: Seq<char>, r2: Seq<u8>)
    requires
        text_fits(s),
        text_fits(t),
        enc_text(s) + r1 == enc_text(t) + r2,
    ensures
        s == t,
        r1 == r2,
{
    let us = encode_utf8(s);
    let ut = encode_utf8(t);
    lemma_regroup(enc_u64(us.len() as int), us, r1);
    lemma_regroup(enc_u64(ut.len() as int), ut, r2);
    lemma_u64_split(us.len() as int, us + r1, ut.len() as int, ut + r2);
    lemma_same_prefix(us, r1, ut, r2);
    encode_utf8_decode_utf8(s);
    encode_utf8_decode_utf8(t);
}

proof fn lemma_opt_text_split(a: Option<Seq<char>>, r1: Seq<u8>, b: Option<Seq<char>>, r2: Seq<u8>)
    requires
        opt_text_fits(a),
        opt_text_fits(b),
        enc_opt_text(a) + r1 == enc_opt_text(b) + r2,
    ensures
        a == b,
        r1 == r2,
{
    let x = enc_opt_text(a) + r1;
    let y = enc_opt_text(b) + r2;
    assert(x[0] == enc_opt_text(a)[0]);
    assert(y[0] == enc_opt_text(b)[0]);
    match (a, b) {
        (Some(s), Some(t)) => {
            lemma_regroup(seq![1u8], enc_text(s), r1);
            lemma_regroup(seq![1u8], enc_text(t), r2);
            lemma_same_prefix(seq![1u8], enc_text(s) + r1, seq![1u8], enc_text(t) + r2);
            lemma_text_split(s, r1, t, r2);
        },
        (None, None) => {
            lemma_same_prefix(seq![0u8], r1, seq![0u8], r2);
        },
        _ => {
            assert(x[0] != y[0]);
        },
    }
}

proof fn lemma_opt_enc_split(a: Option<EncDescView>, r1: Seq<u8>, b: Option<EncDescView>, r2: Seq<u8>)
    requires
        a matches Some(e) ==> text_fits(e.alg) && text_fits(e.nonce),
        b matches Some(e) ==> text_fits(e.alg) && text_fits(e.nonce),
        enc_opt_enc(a) + r1 == enc_opt_enc(b) + r2,
    ensures
        a == b,
        r1 == r2,
{
    let x = enc_opt_enc(a) + r1;
    let y = enc_opt_enc(b) + r2;
    assert(x[0] == enc_opt_enc(a)[0]);
    assert(y[0] == enc_opt_enc(b)[0]);
    match (a, b) {
        (Some(s), Some(t)) => {
            lemma_regroup(enc_text(s.alg), enc_text(s.nonce), r1);
            lemma_regroup(seq![1u8], enc_text(s.alg) + enc_text(s.nonce), r1);
            lemma_regroup(enc_text(t.alg), enc_text(t.nonce), r2);
            lemma_regroup(seq![1u8], enc_text(t.alg) + enc_text(t.nonce), r2);
            lemma_same_prefix(
                seq![1u8],
                enc_text(s.alg) + (enc_text(s.nonce) + r1),
                seq![1u8],
                enc_text(t.alg) + (enc_text(t.nonce) + r2),
            );
            lemma_text_split(s.alg, enc_text(s.nonce) + r1, t.alg, enc_text(t.nonce) + r2);
            lemma_text_split(s.nonce, r1, t.nonce, r2);
        },
        (None, None) => {
            lemma_same_prefix(seq![0u8], r1, seq![0u8], r2);
        },
        _ => {
            assert(x[0] != y[0]);
        },
    }
}

proof fn lemma_chunk_split(a: ChunkRefView, r1: Seq<u8>, b: ChunkRefView, r2: Seq<u8>)
    requires
        chunk_fits(a),
        chunk_fits(b),
        enc_chunk(a) + r1 == enc_chunk(b) + r2,
    ensures
        a == b,
        r1 == r2,
{
    lemma_regroup(enc_text(a.cid), enc_text(a.msg), r1);
    lemma_regroup(enc_u64(a.i), enc_text(a.cid) + enc_text(a.msg), r1);
    lemma_regroup(enc_text(b.cid), enc_text(b.msg), r2);
    lemma_regroup(enc_u64(b.i), enc_text(b.cid) + enc_text(b.msg), r2);
    lemma_u64_split(
        a.i,
        enc_text(a.cid) + (enc_text(a.msg) + r1),
        b.i,
        enc_text(b.cid) + (enc_text(b.msg) + r2),
    );
    lemma_text_split(a.cid, enc_text(a.msg) + r1, b.cid, enc_text(b.msg) + r2);
    lemma_text_split(a.msg, r1, b.msg, r2);
}

proof fn lemma_child_split(a: DirChildView, r1: Seq<u8>, b: DirChildView, r2: Seq<u8>)
    requires
        child_fits(a),
        child_fits(b),
        enc_child(a) + r1 == enc_child(b) + r2,
    ensures
        a == b,
        r1 == r2,
{
    let ta = enc_text(a.name) + (enc_text(a.manifest) + (enc_text(a.thread) + r1));
    let tb = enc_text(b.name) + (enc_text(b.manifest) + (enc_text(b.thread) + r2));
    lemma_regroup(enc_text(a.manifest), enc_text(a.thread), r1);
    lemma_regroup(enc_text(a.name), enc_text(a.manifest) + enc_text(a.thread), r1);
    lemma_regroup(
        enc_text(a.t),
        enc_text(a.name) + (enc_text(a.manifest) + enc_text(a.thread)),
        r1,
    );
    lemma_regroup(enc_text(b.manifest), enc_text(b.thread), r2);
    lemma_regroup(enc_text(b.name), enc_text(b.manifest) + enc_text(b.thread), r2);
    lemma_regroup(
        enc_text(b.t),
        enc_text(b.name) + (enc_text(b.manifest) + enc_text(b.thread)),
        r2,
    );
    lemma_text_split(a.t, ta, b.t, tb);
    lemma_text_split(
        a.name,
        enc_text(a.manifest) + (enc_text(a.thread) + r1),
        b.name,
        enc_text(b.manifest) + (enc_text(b.thread) + r2),
    );
    lemma_text_split(a.manifest, enc_text(a.thread) + r1, b.manifest, enc_text(b.thread) + r2);
    lemma_text_split(a.thread, r1, b.thread, r2);
}

proof fn lemma_chunks_front(chunks: Seq<ChunkRefView>)
    requires
        chunks.len() > 0,
    ensures
        enc_chunks(chunks) == enc_chunk(chunks[0]) + enc_chunks(chunks.drop_first()),
    decreases chunks.len(),
{
    if chunks.len() == 1 {
        assert(chunks.drop_last() =~= Seq::<ChunkRefView>::empty());
        assert(chunks.drop_first() =~= Seq::<ChunkRefView>::empty());
        assert(enc_chunks(chunks) =~= enc_chunk(chunks[0]) + enc_chunks(chunks.drop_first()));
    } else {
        let front = chunks.drop_last();
        lemma_chunks_front(front);
        assert(front.drop_first() =~= chunks.drop_first().drop_last());
        assert(chunks.drop_first().last() == chunks.last());
        assert(enc_chunks(chunks) =~= enc_chunk(chunks[0]) + enc_chunks(chunks.drop_first()));
    }
}

proof fn lemma_children_front(children: Seq<DirChildView>)
    requires
        children.len() > 0,
    ensures
        enc_children(children) == enc_child(children[0]) + enc_children(children.drop_first()),
    decreases children.len(),
{
    if children.len() == 1 {
        assert(children.drop_last() =~= Seq::<DirChildView>::empty());
        assert(children.drop_first() =~= Seq::<DirChildView>::empty());
        assert(enc_children(children) =~= enc_child(children[0]) + enc_children(
            children.drop_first(),
        ));
    } else {
        let front = children.drop_last();
        lemma_children_front(front);
        assert(front.drop_first() =~= children.drop_first().drop_last());
        assert(children.drop_first().last() == children.last());
        assert(enc_children(children) =~= enc_child(children[0]) + enc_children(
            children.drop_first(),
        ));
    }
}

#[verifier::rlimit(40)]
proof fn lemma_chunks_split(a: Seq<ChunkRefView>, r1: Seq<u8>, b: Seq<ChunkRefView>, r2: Seq<u8>)
    requires
        a.len() == b.len(),
        forall|k: int| 0 <= k < a.len() ==> chunk_fits(#[trigger] a[k]),
        forall|k: int| 0 <= k < b.len() ==> chunk_fits(#[trigger] b[k]),
        enc_chunks(a) + r1 == enc_chunks(b) + r2,
    ensures
        a == b,
        r1 == r2,
    decreases a.len(),
{
    if a.len() == 0 {
        assert(a =~= b);
        assert(enc_chunks(a) + r1 =~= r1);
        assert(enc_chunks(b) + r2 =~= r2);
    } else {
        lemma_chunks_front(a);
        lemma_chunks_front(b);
        let ta = a.drop_first();
        let tb = b.drop_first();
        lemma_regroup(enc_chunk(a[0]), enc_chunks(ta), r1);
        lemma_regroup(enc_chunk(b[0]), enc_chunks(tb), r2);
        lemma_chunk_split(a[0], enc_chunks(ta) + r1, b[0], enc_chunks(tb) + r2);
        assert forall|k: int| 0 <= k < ta.len() implies chunk_fits(#[trigger] ta[k]) by {
            assert(ta[k] == a[k + 1]);
        }
        assert forall|k: int| 0 <= k < tb.len() implies chunk_fits(#[trigger] tb[k]) by {
            assert(tb[k] == b[k + 1]);
        }
        lemma_chunks_split(ta, r1, tb, r2);
        assert(a =~= seq![a[0]] + ta);
        assert(b =~= seq![b[0]] + tb);
    }
}

#[verifier::rlimit(40)]
proof fn lemma_children_split(a: Seq<DirChildView>, r1: Seq<u8>, b: Seq<DirChildView>, r2: Seq<u8>)
    requires
        a.len() == b.len(),
        forall|k: int| 0 <= k < a.len() ==> child_fits(#[trigger] a[k]),
        forall|k: int| 0 <= k < b.len() ==> child_fits(#[trigger] b[k]),
        enc_children(a) + r1 == enc_children(b) + r2,
    ensures
        a == b,
        r1 == r2,
    decreases a.len(),
{
    if a.len() == 0 {
        assert(a =~= b);
        assert(enc_children(a) + r1 =~= r1);
        assert(enc_children(b) + r2 =~= r2);
    } else {
        lemma_children_front(a);
        lemma_children_front(b);
        let ta = a.drop_first();
        let tb = b.drop_first();
        lemma_regroup(enc_child(a[0]), enc_children(ta), r1);
        lemma_regroup(enc_child(b[0]), enc_children(tb), r2);
        lemma_child_split(a[0], enc_children(ta) + r1, b[0], enc_children(tb) + r2);
        assert forall|k: int| 0 <= k < ta.len() implies child_fits(#[trigger] ta[k]) by {
            assert(ta[k] == a[k + 1]);
        }
        assert forall|k: int| 0 <= k < tb.len() implies child_fits(#[trigger] tb[k]) by {
            assert(tb[k] == b[k + 1]);
        }
        lemma_children_split(ta, r1, tb, r2);
        assert(a =~= seq![a[0]] + ta);
        assert(b =~= seq![b[0]] + tb);
    }
}

/// The canonical form loses nothing: two file manifests with the same
/// canonical bytes are the same manifest, field for field. So manifests share
/// an identifier only if they are equal or the hash collides.
pub proof fn lemma_file_manifest_bytes_injective(a: FileManifestView, b: FileManifestView)
    requires
        file_manifest_fits(a),
        file_manifest_fits(b),
        file_manifest_bytes(a) == file_manifest_bytes(b),
    ensures
        a == b,
{
    let none = Seq::<u8>::empty();
    let a11 = enc_opt_text(a.prev);
    let b11 = enc_opt_text(b.prev);
    let a10 = enc_i64(a.mtime) + a11;
    let b10 = enc_i64(b.mtime) + b11;
    let a9 = enc_i64(a.ctime) + a10;
    let b9 = enc_i64(b.ctime) + b10;
    let a8 = enc_opt_text(a.z) + a9;
    let b8 = enc_opt_text(b.z) + b9;
    let a7 = enc_opt_enc(a.enc) + a8;
    let b7 = enc_opt_enc(b.enc) + b8;
    let a6 = enc_text(a.file_cid) + a7;
    let b6 = enc_text(b.file_cid) + b7;
    let a5 = enc_chunks(a.chunks) + a6;
    let b5 = enc_chunks(b.chunks) + b6;
    let a4 = enc_u64(a.chunks.len() as int) + a5;
    let b4 = enc_u64(b.chunks.len() as int) + b5;
    let a3 = enc_u64(a.size) + a4;
    let b3 = enc_u64(b.size) + b4;
    let a2 = enc_text(a.name) + a3;
    let b2 = enc_text(b.name) + b3;
    let a1 = enc_text(a.kind) + a2;
    let b1 = enc_text(b.kind) + b2;
    lemma_same_prefix(seq![a.v as u8], a1, seq![b.v as u8], b1);
    assert(seq![a.v as u8][0] == seq![b.v as u8][0]);
    lemma_text_split(a.kind, a2, b.kind, b2);
    lemma_text_split(a.name, a3, b.name, b3);
    lemma_u64_split(a.size, a4, b.size, b4);
    lemma_u64_split(a.chunks.len() as int, a5, b.chunks.len() as int, b5);
    lemma_chunks_split(a.chunks, a6, b.chunks, b6);
    lemma_text_split(a.file_cid, a7, b.file_cid, b7);
    lemma_opt_enc_split(a.enc, a8, b.enc, b8);
    lemma_opt_text_split(a.z, a9, b.z, b9);
    lemma_i64_split(a.ctime, a10, b.ctime, b10);
    lemma_i64_split(a.mtime, a11, b.mtime, b11);
    assert(a11 =~= a11 + none);
    assert(b11 =~= b11 + none);
    lemma_opt_text_split(a.prev, none, b.prev, none);
}

/// The canonical form loses nothing: two directory manifests with the same
/// canonical bytes are the same manifest, field for field.
pub proof fn lemma_dir_manifest_bytes_injective(a: DirManifestView, b: DirManifestView)
    requires
        dir_manifest_fits(a),
        dir_manifest_fits(b),
        dir_manifest_bytes(a) == dir_manifest_bytes(b),
    ensures
        a == b,
{
    let none = Seq::<u8>::empty();
    let a7 = enc_opt_text(a.prev);
    let b7 = enc_opt_text(b.prev);
    let a6 = enc_i64(a.mtime) + a7;
    let b6 = enc_i64(b.mtime) + b7;
    let a5 = enc_i64(a.ctime) + a6;
    let b5 = enc_i64(b.ctime) + b6;
    let a4 = enc_children(a.children) + a5;
    let b4 = enc_children(b.children) + b5;
    let a3 = enc_u64(a.children.len() as int) + a4;
    let b3 = enc_u64(b.children.len() as int) + b4;
    let a2 = enc_text(a.name) + a3;
    let b2 = enc_text(b.name) + b3;
    let a1 = enc_text(a.kind) + a2;
    let b1 = enc_text(b.kind) + b2;
    lemma_same_prefix(seq![a.v as u8], a1, seq![b.v as u8], b1);
    assert(seq![a.v as u8][0] == seq![b.v as u8][0]);
    lemma_text_split(a.kind, a2, b.kind, b2);
    lemma_text_split(a.name, a3, b.name, b3);
    lemma_u64_split(a.children.len() as int, a4, b.children.len() as int, b4);
    lemma_children_split(a.children, a5, b.children, b5);
    lemma_i64_split(a.ctime, a6, b.ctime, b6);
    lemma_i64_split(a.mtime, a7, b.mtime, b7);
    assert(a7 =~= a7 + none);
    assert(b7 =~= b7 + none);
    lemma_opt_text_split(a.prev, none, b.prev, none);
}

} // verus!
