//! File and directory manifests: immutable descriptions of one version of a
//! path, linked to the version before it.

use crate::text::compare_text;
use crate::text::lemma_text_lt_strict_total;
use crate::text::opt_text;
use crate::text::text_lt;
use crate::text::TextOrder;
use vstd::prelude::*;
use vstd::string::StringExecFns;

verus! {

/// The schema version written into every manifest.
pub const MANIFEST_VERSION: u8 = 1;

/// The `kind` of a file manifest and of a directory child that is a file.
pub open spec fn file_kind() -> Seq<char> {
    seq!['f', 'i', 'l', 'e']
}

/// The `kind` of a directory manifest and of a directory child that is a
/// directory.
pub open spec fn dir_kind() -> Seq<char> {
    seq!['d', 'i', 'r']
}

/// A chunk's place in a file, its content identifier, and the transport
/// locator under which its bytes can be fetched.
#[derive(Debug, Clone)]
pub struct FileChunkRef {
    pub i: usize,
    pub cid: String,
    pub msg: String,
}

pub struct ChunkRefView {
    pub i: int,
    pub cid: Seq<char>,
    pub msg: Seq<char>,
}

impl View for FileChunkRef {
    type V = ChunkRefView;

    open spec fn view(&self) -> ChunkRefView {
        ChunkRefView { i: self.i as int, cid: self.cid@, msg: self.msg@ }
    }
}

/// How a payload was encrypted: the algorithm and the nonce, both in the
/// clear.
#[derive(Debug, Clone)]
pub struct EncDesc {
    pub alg: String,
    pub nonce: String,
}

pub struct EncDescView {
    pub alg: Seq<char>,
    pub nonce: Seq<char>,
}

impl View for EncDesc {
    type V = EncDescView;

    open spec fn view(&self) -> EncDescView {
        EncDescView { alg: self.alg@, nonce: self.nonce@ }
    }
}

/// One version of a file.
#[derive(Debug, Clone)]
pub struct FileManifest {
    pub v: u8,
    pub kind: String,
    pub name: String,
    pub size: u64,
    pub chunks: Vec<FileChunkRef>,
    pub file_cid: String,
    pub enc: Option<EncDesc>,
    pub z: Option<String>,
    pub ctime: i64,
    pub mtime: i64,
    pub prev: Option<String>,
}

pub struct FileManifestView {
    pub v: int,
    pub kind: Seq<char>,
    pub name: Seq<char>,
    pub size: int,
    pub chunks: Seq<ChunkRefView>,
    pub file_cid: Seq<char>,
    pub enc: Option<EncDescView>,
    pub z: Option<Seq<char>>,
    pub ctime: int,
    pub mtime: int,
    pub prev: Option<Seq<char>>,
}

/// The views of a sequence of chunk references.
pub open spec fn chunk_views(chunks: Seq<FileChunkRef>) -> Seq<ChunkRefView> {
    chunks.map_values(|c: FileChunkRef| c@)
}

/// The view of an optional encoding descriptor.
pub open spec fn opt_enc(enc: Option<EncDesc>) -> Option<EncDescView> {
    match enc {
        Some(e) => Some(e@),
        None => None,
    }
}

impl View for FileManifest {
    type V = FileManifestView;

    open spec fn view(&self) -> FileManifestView {
        FileManifestView {
            v: self.v as int,
            kind: self.kind@,
            name: self.name@,
            size: self.size as int,
            chunks: chunk_views(self.chunks@),
            file_cid: self.file_cid@,
            enc: opt_enc(self.enc),
            z: opt_text(self.z),
            ctime: self.ctime as int,
            mtime: self.mtime as int,
            prev: opt_text(self.prev),
        }
    }
}

/// Chunk references are numbered 0, 1, 2, … with no gap.
pub open spec fn chunks_in_order(chunks: Seq<ChunkRefView>) -> bool {
    forall|k: int| 0 <= k < chunks.len() ==> (#[trigger] chunks[k]).i == k
}

impl FileManifestView {
    /// The manifest carries the current version, the file kind, and chunk
    /// references in order.
    pub open spec fn well_formed(self) -> bool {
        &&& self.v == MANIFEST_VERSION
        &&& self.kind == file_kind()
        &&& chunks_in_order(self.chunks)
    }
}

/// One immediate child of a directory.
#[derive(Debug, Clone)]
pub struct DirChild {
    pub t: String,
    pub name: String,
    pub manifest: String,
    pub thread: String,
}

pub struct DirChildView {
    pub t: Seq<char>,
    pub name: Seq<char>,
    pub manifest: Seq<char>,
    pub thread: Seq<char>,
}

impl View for DirChild {
    type V = DirChildView;

    open spec fn view(&self) -> DirChildView {
        DirChildView {
            t: self.t@,
            name: self.name@,
            manifest: self.manifest@,
            thread: self.thread@,
        }
    }
}

/// One version of a directory.
#[derive(Debug, Clone)]
pub struct DirManifest {
    pub v: u8,
    pub kind: String,
    pub name: String,
    pub children: Vec<DirChild>,
    pub ctime: i64,
    pub mtime: i64,
    pub prev: Option<String>,
}

pub struct DirManifestView {
    pub v: int,
    pub kind: Seq<char>,
    pub name: Seq<char>,
    pub children: Seq<DirChildView>,
    pub ctime: int,
    pub mtime: int,
    pub prev: Option<Seq<char>>,
}

/// The views of a sequence of directory children.
pub open spec fn child_views(children: Seq<DirChild>) -> Seq<DirChildView> {
    children.map_values(|c: DirChild| c@)
}

impl View for DirManifest {
    type V = DirManifestView;

    open spec fn view(&self) -> DirManifestView {
        DirManifestView {
            v: self.v as int,
            kind: self.kind@,
            name: self.name@,
            children: child_views(self.children@),
            ctime: self.ctime as int,
            mtime: self.mtime as int,
            prev: opt_text(self.prev),
        }
    }
}

/// A child is marked as a file or as a directory.
pub open spec fn valid_child_kind(t: Seq<char>) -> bool {
    t == file_kind() || t == dir_kind()
}

/// Every child is marked as a file or as a directory.
pub open spec fn child_kinds_valid(children: Seq<DirChildView>) -> bool {
    forall|k: int| 0 <= k < children.len() ==> valid_child_kind((#[trigger] children[k]).t)
}

/// Children stand in strictly ascending order of name, so no name occurs
/// twice.
pub open spec fn names_ascending(children: Seq<DirChildView>) -> bool {
    forall|i: int, j: int|
        0 <= i < j < children.len() ==> text_lt(
            (#[trigger] children[i]).name,
            (#[trigger] children[j]).name,
        )
}

/// Two children share a name.
pub open spec fn has_duplicate_names(children: Seq<DirChildView>) -> bool {
    exists|i: int, j: int|
        0 <= i < j < children.len() && (#[trigger] children[i]).name == (
        #[trigger] children[j]).name
}

impl DirManifestView {
    /// The manifest carries the current version, the directory kind, and
    /// children of valid kinds in ascending order of name.
    pub open spec fn well_formed(self) -> bool {
        &&& self.v == MANIFEST_VERSION
        &&& self.kind == dir_kind()
        &&& child_kinds_valid(self.children)
        &&& names_ascending(self.children)
    }
}

/// The latest manifest of a path, the one before it, and the locator of the
/// container that holds the path's history.
#[derive(Debug, Clone)]
pub struct HeadPointer {
    pub head: String,
    pub prev: Option<String>,
    pub node: String,
}

pub struct HeadView {
    pub head: Seq<char>,
    pub prev: Option<Seq<char>>,
    pub node: Seq<char>,
}

impl View for HeadPointer {
    type V = HeadView;

    open spec fn view(&self) -> HeadView {
        HeadView { head: self.head@, prev: opt_text(self.prev), node: self.node@ }
    }
}

/// Why a manifest could not be built.
#[derive(Debug, Clone, Copy, PartialEq, Eq, Structural)]
pub enum ManifestError {
    /// A chunk reference does not carry its own position as its index.
    ChunkOutOfOrder,
    /// A child is marked neither as a file nor as a directory.
    BadChildKind,
    /// Two children share a name.
    DuplicateChild,
}

/// The text is the file kind.
pub fn is_file_kind(t: &String) -> (b: bool)
    ensures
        b == (t@ == file_kind()),
{
    proof {
        reveal_strlit("file");
    }
    let lit = String::from_str("file");
    assert(lit@ =~= file_kind());
    *t == lit
}

/// The text is the directory kind.
pub fn is_dir_kind(t: &String) -> (b: bool)
    ensures
        b == (t@ == dir_kind()),
{
    proof {
        reveal_strlit("dir");
    }
    let lit = String::from_str("dir");
    assert(lit@ =~= dir_kind());
    *t == lit
}

/// Whether the chunk references are numbered 0, 1, 2, … with no gap.
pub fn chunk_refs_in_order(chunks: &Vec<FileChunkRef>) -> (b: bool)
    ensures
        b == chunks_in_order(chunk_views(chunks@)),
{
    let mut k: usize = 0;
    while k < chunks.len()
        invariant
            k <= chunks@.len(),
            forall|j: int| 0 <= j < k ==> (#[trigger] chunk_views(chunks@)[j]).i == j,
        decreases chunks@.len() - k,
    {
        if chunks[k].i != k {
            assert(chunk_views(chunks@)[k as int].i != k);
            return false;
        }
        k += 1;
    }
    true
}

/// Builds the manifest of one version of a file from its published chunk
/// references and the identifier of the version before it.
pub fn build_file_manifest(
    name: String,
    size: u64,
    chunks: Vec<FileChunkRef>,
    file_cid: String,
    enc: Option<EncDesc>,
    z: Option<String>,
    ctime: i64,
    mtime: i64,
    prev: Option<String>,
) -> (r: Result<FileManifest, ManifestError>)
    ensures
        match r {
            Ok(m) => {
                &&& chunks_in_order(chunk_views(chunks@))
                &&& m@.well_formed()
                &&& m@ == (FileManifestView {
                    v: MANIFEST_VERSION as int,
                    kind: file_kind(),
                    name: name@,
                    size: size as int,
                    chunks: chunk_views(chunks@),
                    file_cid: file_cid@,
                    enc: opt_enc(enc),
                    z: opt_text(z),
                    ctime: ctime as int,
                    mtime: mtime as int,
                    prev: opt_text(prev),
                })
            },
            Err(e) => e == ManifestError::ChunkOutOfOrder && !chunks_in_order(chunk_views(chunks@)),
        },
{
    if !chunk_refs_in_order(&chunks) {
        return Err(ManifestError::ChunkOutOfOrder);
    }
    proof {
        reveal_strlit("file");
    }
    let kind = String::from_str("file");
    assert(kind@ =~= file_kind());
    Ok(
        FileManifest {
            v: MANIFEST_VERSION,
            kind,
            name,
            size,
            chunks,
            file_cid,
            enc,
            z,
            ctime,
            mtime,
            prev,
        },
    )
}

/// Whether the manifest is well formed, for one that was read back from
/// storage.
pub fn file_manifest_is_well_formed(m: &FileManifest) -> (b: bool)
    ensures
        b == m@.well_formed(),
{
    m.v == MANIFEST_VERSION && is_file_kind(&m.kind) && chunk_refs_in_order(&m.chunks)
}

/// Copies a directory child.
pub fn clone_child(c: &DirChild) -> (r: DirChild)
    ensures
        r@ == c@,
{
    DirChild {
        t: c.t.clone(),
        name: c.name.clone(),
        manifest: c.manifest.clone(),
        thread: c.thread.clone(),
    }
}

/// Whether every child is marked as a file or as a directory.
pub fn child_kinds_are_valid(children: &Vec<DirChild>) -> (b: bool)
    ensures
        b == child_kinds_valid(child_views(children@)),
{
    let mut k: usize = 0;
    while k < children.len()
        invariant
            k <= children@.len(),
            forall|j: int|
                0 <= j < k ==> valid_child_kind((#[trigger] child_views(children@)[j]).t),
        decreases children@.len() - k,
    {
        if !is_file_kind(&children[k].t) && !is_dir_kind(&children[k].t) {
            assert(!valid_child_kind(child_views(children@)[k as int].t));
            return false;
        }
        k += 1;
    }
    true
}

/// Whether the children stand in strictly ascending order of name.
pub fn children_are_ascending(children: &Vec<DirChild>) -> (b: bool)
    ensures
        b == names_ascending(child_views(children@)),
{
    let ghost cv = child_views(children@);
    if children.len() < 2 {
        return true;
    }
    let mut k: usize = 1;
    while k < children.len()
        invariant
            1 <= k <= children@.len(),
            cv == child_views(children@),
            forall|i: int, j: int|
                0 <= i < j < k ==> text_lt((#[trigger] cv[i]).name, (#[trigger] cv[j]).name),
        decreases children@.len() - k,
    {
        let order = compare_text(children[k - 1].name.as_str(), children[k].name.as_str());
        if order != TextOrder::Before {
            assert(!text_lt(cv[k - 1].name, cv[k as int].name)) by {
                lemma_text_lt_strict_total(cv[k - 1].name, cv[k as int].name, cv[k as int].name);
            }
            return false;
        }
        proof {
            assert forall|i: int, j: int| 0 <= i < j < k + 1 implies text_lt(
                (#[trigger] cv[i]).name,
                (#[trigger] cv[j]).name,
            ) by {
                if j == k && i < k - 1 {
                    lemma_text_lt_strict_total(cv[i].name, cv[k - 1].name, cv[k as int].name);
                }
            }
        }
        k += 1;
    }
    true
}

/// Where a name belongs among children in ascending order: the number of
/// children that come before it, and whether the child at that place already
/// bears the name.
fn insertion_point(sorted: &Vec<DirChild>, name: &str) -> (r: (usize, bool))
    requires
        names_ascending(child_views(sorted@)),
    ensures
        r.0 <= sorted@.len(),
        forall|j: int| 0 <= j < r.0 ==> text_lt((#[trigger] child_views(sorted@)[j]).name, name@),
        r.1 ==> r.0 < sorted@.len() && child_views(sorted@)[r.0 as int].name == name@,
        !r.1 ==> forall|j: int|
            r.0 <= j < sorted@.len() ==> text_lt(name@, (#[trigger] child_views(sorted@)[j]).name),
{
    let ghost sv = child_views(sorted@);
    let mut p: usize = 0;
    while p < sorted.len()
        invariant
            p <= sorted@.len(),
            sv == child_views(sorted@),
            names_ascending(sv),
            forall|j: int| 0 <= j < p ==> text_lt((#[trigger] sv[j]).name, name@),
        decreases sorted@.len() - p,
    {
        match compare_text(sorted[p].name.as_str(), name) {
            TextOrder::Before => {
                p += 1;
            },
            TextOrder::Same => {
                return (p, true);
            },
            TextOrder::After => {
                proof {
                    lemma_text_lt_strict_total(sv[p as int].name, name@, name@);
                    assert forall|j: int| p <= j < sorted@.len() implies text_lt(
                        name@,
                        (#[trigger] sv[j]).name,
                    ) by {
                        if j > p {
                            lemma_text_lt_strict_total(name@, sv[p as int].name, sv[j].name);
                        }
                    }
                }
                return (p, false);
            },
        }
    }
    (p, false)
}

/// The children in ascending order of name, or `None` where two share a name.
pub fn sort_children(children: &Vec<DirChild>) -> (r: Option<Vec<DirChild>>)
    ensures
        match r {
            Some(sorted) => {
                &&& !has_duplicate_names(child_views(children@))
                &&& names_ascending(child_views(sorted@))
                &&& sorted@.len() == children@.len()
                &&& forall|k: int|
                    0 <= k < children@.len() ==> child_views(sorted@).contains(
                        #[trigger] child_views(children@)[k],
                    )
                &&& forall|k: int|
                    0 <= k < sorted@.len() ==> child_views(children@).contains(
                        #[trigger] child_views(sorted@)[k],
                    )
            },
            None => has_duplicate_names(child_views(children@)),
        },
{
    let ghost cv = child_views(children@);
    let mut out: Vec<DirChild> = Vec::new();
    let ghost mut pos: Seq<int> = Seq::empty();
    let ghost mut src: Seq<int> = Seq::empty();
    let mut k: usize = 0;
    while k < children.len()
        invariant
            k <= children@.len(),
            cv == child_views(children@),
            out@.len() == k,
            pos.len() == k,
            src.len() == k,
            names_ascending(child_views(out@)),
            forall|i: int|
                0 <= i < k ==> 0 <= #[trigger] pos[i] < k && child_views(out@)[pos[i]] == cv[i],
            forall|t: int|
                0 <= t < k ==> 0 <= #[trigger] src[t] < k && child_views(out@)[t] == cv[src[t]],
            forall|i: int, j: int|
                0 <= i < j < k ==> (#[trigger] cv[i]).name != (#[trigger] cv[j]).name,
        decreases children@.len() - k,
    {
        let c = &children[k];
        let ghost ov = child_views(out@);
        let (p, taken) = insertion_point(&out, c.name.as_str());
        if taken {
            proof {
                let i = src[p as int];
                assert(cv[i].name == cv[k as int].name);
            }
            return None;
        }
        let copy = clone_child(c);
        out.insert(p, copy);
        proof {
            let nv = child_views(out@);
            assert(nv =~= ov.insert(p as int, cv[k as int]));
            let old_pos = pos;
            let old_src = src;
            pos = Seq::new(
                (k + 1) as nat,
                |i: int|
                    if i == k {
                        p as int
                    } else if old_pos[i] < p {
                        old_pos[i]
                    } else {
                        old_pos[i] + 1
                    },
            );
            src = Seq::new(
                (k + 1) as nat,
                |t: int|
                    if t < p {
                        old_src[t]
                    } else if t == p {
                        k as int
                    } else {
                        old_src[t - 1]
                    },
            );
            assert forall|i: int, j: int| 0 <= i < j < nv.len() implies text_lt(
                (#[trigger] nv[i]).name,
                (#[trigger] nv[j]).name,
            ) by {
                if j < p {
                    assert(nv[i] == ov[i] && nv[j] == ov[j]);
                } else if j == p {
                    assert(nv[i] == ov[i]);
                } else if i < p {
                    assert(nv[i] == ov[i] && nv[j] == ov[j - 1]);
                } else if i == p {
                    assert(nv[j] == ov[j - 1]);
                } else {
                    assert(nv[i] == ov[i - 1] && nv[j] == ov[j - 1]);
                }
            }
            assert forall|i: int| 0 <= i < k + 1 implies 0 <= #[trigger] pos[i] < k + 1 && nv[pos[i]]
                == cv[i] by {
                if i < k {
                    assert(ov[old_pos[i]] == cv[i]);
                }
            }
            assert forall|t: int| 0 <= t < k + 1 implies 0 <= #[trigger] src[t] < k + 1 && nv[t]
                == cv[src[t]] by {
                if t < p {
                    assert(nv[t] == ov[t]);
                } else if t > p {
                    assert(nv[t] == ov[t - 1]);
                }
            }
            assert forall|i: int, j: int| 0 <= i < j < k + 1 implies (#[trigger] cv[i]).name != (
            #[trigger] cv[j]).name by {
                if j == k {
                    let t = old_pos[i];
                    assert(ov[t] == cv[i]);
                    lemma_text_lt_strict_total(cv[i].name, cv[k as int].name, cv[k as int].name);
                    lemma_text_lt_strict_total(cv[k as int].name, cv[i].name, cv[i].name);
                }
            }
        }
        k += 1;
    }
    proof {
        let sv = child_views(out@);
        assert forall|i: int| 0 <= i < children@.len() implies sv.contains(#[trigger] cv[i]) by {
            assert(sv[pos[i]] == cv[i]);
        }
        assert forall|t: int| 0 <= t < out@.len() implies cv.contains(#[trigger] sv[t]) by {
            assert(cv[src[t]] == sv[t]);
        }
    }
    Some(out)
}

/// Builds the manifest of one version of a directory from its children and
/// the identifier of the version before it. The children are put in ascending
/// order of name.
pub fn build_dir_manifest(
    name: String,
    children: Vec<DirChild>,
    ctime: i64,
    mtime: i64,
    prev: Option<String>,
) -> (r: Result<DirManifest, ManifestError>)
    ensures
        match r {
            Ok(m) => {
                &&& child_kinds_valid(child_views(children@))
                &&& !has_duplicate_names(child_views(children@))
                &&& m@.well_formed()
                &&& m@.name == name@
                &&& m@.ctime == ctime
                &&& m@.mtime == mtime
                &&& m@.prev == opt_text(prev)
                &&& m@.children.len() == children@.len()
                &&& forall|k: int|
                    0 <= k < children@.len() ==> m@.children.contains(
                        #[trigger] child_views(children@)[k],
                    )
            },
            Err(e) => if !child_kinds_valid(child_views(children@)) {
                e == ManifestError::BadChildKind
            } else {
                e == ManifestError::DuplicateChild && has_duplicate_names(child_views(children@))
            },
        },
{
    if !child_kinds_are_valid(&children) {
        return Err(ManifestError::BadChildKind);
    }
    match sort_children(&children) {
        None => Err(ManifestError::DuplicateChild),
        Some(sorted) => {
            proof {
                reveal_strlit("dir");
                let cv = child_views(children@);
                let sv = child_views(sorted@);
                assert forall|k: int| 0 <= k < sv.len() implies valid_child_kind(
                    (#[trigger] sv[k]).t,
                ) by {
                    let i = choose|i: int| 0 <= i < cv.len() && cv[i] == sv[k];
                    assert(valid_child_kind(cv[i].t));
                }
            }
            let kind = String::from_str("dir");
            assert(kind@ =~= dir_kind());
            Ok(DirManifest { v: MANIFEST_VERSION, kind, name, children: sorted, ctime, mtime, prev })
        },
    }
}

/// Whether the manifest is well formed, for one that was read back from
/// storage.
pub fn dir_manifest_is_well_formed(m: &DirManifest) -> (b: bool)
    ensures
        b == m@.well_formed(),
{
    m.v == MANIFEST_VERSION && is_dir_kind(&m.kind) && child_kinds_are_valid(&m.children)
        && children_are_ascending(&m.children)
}

/// Whether two optional texts are the same.
pub fn same_opt_text(a: &Option<String>, b: &Option<String>) -> (same: bool)
    ensures
        same == (opt_text(*a) == opt_text(*b)),
{
    match (a, b) {
        (None, None) => true,
        (Some(x), Some(y)) => *x == *y,
        _ => false,
    }
}

/// Whether two lists of chunk references are the same.
pub fn same_chunks(a: &Vec<FileChunkRef>, b: &Vec<FileChunkRef>) -> (same: bool)
    ensures
        same == (chunk_views(a@) == chunk_views(b@)),
{
    if a.len() != b.len() {
        assert(chunk_views(a@).len() != chunk_views(b@).len());
        return false;
    }
    let mut k: usize = 0;
    while k < a.len()
        invariant
            k <= a@.len(),
            a@.len() == b@.len(),
            forall|j: int| 0 <= j < k ==> (#[trigger] chunk_views(a@)[j]) == chunk_views(b@)[j],
        decreases a@.len() - k,
    {
        if a[k].i != b[k].i || a[k].cid != b[k].cid || a[k].msg != b[k].msg {
            assert(chunk_views(a@)[k as int] != chunk_views(b@)[k as int]);
            return false;
        }
        k += 1;
    }
    assert(chunk_views(a@) =~= chunk_views(b@));
    true
}

/// Whether two lists of directory children are the same.
pub fn same_children(a: &Vec<DirChild>, b: &Vec<DirChild>) -> (same: bool)
    ensures
        same == (child_views(a@) == child_views(b@)),
{
    if a.len() != b.len() {
        assert(child_views(a@).len() != child_views(b@).len());
        return false;
    }
    let mut k: usize = 0;
    while k < a.len()
        invariant
            k <= a@.len(),
            a@.len() == b@.len(),
            forall|j: int| 0 <= j < k ==> (#[trigger] child_views(a@)[j]) == child_views(b@)[j],
        decreases a@.len() - k,
    {
        if a[k].t != b[k].t || a[k].name != b[k].name || a[k].manifest != b[k].manifest
            || a[k].thread != b[k].thread {
            assert(child_views(a@)[k as int] != child_views(b@)[k as int]);
            return false;
        }
        k += 1;
    }
    assert(child_views(a@) =~= child_views(b@));
    true
}

/// Whether two file manifests are the same in every field.
pub fn same_file_manifest(a: &FileManifest, b: &FileManifest) -> (same: bool)
    ensures
        same == (a@ == b@),
{
    let same_enc = match (&a.enc, &b.enc) {
        (None, None) => true,
        (Some(x), Some(y)) => x.alg == y.alg && x.nonce == y.nonce,
        _ => false,
    };
    a.v == b.v && a.kind == b.kind && a.name == b.name && a.size == b.size && same_chunks(
        &a.chunks,
        &b.chunks,
    ) && a.file_cid == b.file_cid && same_enc && same_opt_text(&a.z, &b.z) && a.ctime == b.ctime
        && a.mtime == b.mtime && same_opt_text(&a.prev, &b.prev)
}

/// Whether two directory manifests are the same in every field.
pub fn same_dir_manifest(a: &DirManifest, b: &DirManifest) -> (same: bool)
    ensures
        same == (a@ == b@),
{
    a.v == b.v && a.kind == b.kind && a.name == b.name && same_children(&a.children, &b.children)
        && a.ctime == b.ctime && a.mtime == b.mtime && same_opt_text(&a.prev, &b.prev)
}

} // verus!
