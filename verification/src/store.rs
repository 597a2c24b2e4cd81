//! The manifest store: an append-only, content-addressed set of manifests in
//! which every `prev` link points at a manifest of the same kind that was
//! committed earlier.

use crate::canonical::dir_manifest_cid;
use crate::canonical::dir_manifest_cid_text;
use crate::canonical::file_manifest_cid;
use crate::canonical::file_manifest_cid_text;
use crate::manifests::dir_manifest_is_well_formed;
use crate::manifests::file_manifest_is_well_formed;
use crate::manifests::same_dir_manifest;
use crate::manifests::same_file_manifest;
use crate::manifests::DirManifest;
use crate::manifests::DirManifestView;
use crate::manifests::FileManifest;
use crate::manifests::FileManifestView;
use crate::text::opt_text;
use vstd::prelude::*;
use vstd::string::StringExecFns;

verus! {

/// A manifest of either kind.
#[derive(Debug, Clone)]
pub enum Manifest {
    File(FileManifest),
    Dir(DirManifest),
}

pub enum ManifestView {
    File(FileManifestView),
    Dir(DirManifestView),
}

impl View for Manifest {
    type V = ManifestView;

    open spec fn view(&self) -> ManifestView {
        match self {
            Manifest::File(m) => ManifestView::File(m@),
            Manifest::Dir(m) => ManifestView::Dir(m@),
        }
    }
}

impl ManifestView {
    /// The identifier of the version before this one, if there is one.
    pub open spec fn prev(self) -> Option<Seq<char>> {
        match self {
            ManifestView::File(m) => m.prev,
            ManifestView::Dir(m) => m.prev,
        }
    }

    /// The manifest is well formed for its kind.
    pub open spec fn well_formed(self) -> bool {
        match self {
            ManifestView::File(m) => m.well_formed(),
            ManifestView::Dir(m) => m.well_formed(),
        }
    }

    /// The content identifier of the manifest.
    pub open spec fn cid(self) -> Seq<char> {
        match self {
            ManifestView::File(m) => file_manifest_cid_text(m),
            ManifestView::Dir(m) => dir_manifest_cid_text(m),
        }
    }

    /// Both manifests describe a file, or both a directory.
    pub open spec fn same_kind(self, other: ManifestView) -> bool {
        (self is File) == (other is File)
    }
}

/// A committed manifest and its identifier.
pub struct NodeView {
    pub cid: Seq<char>,
    pub manifest: ManifestView,
}

/// A manifest with this identifier was committed.
pub open spec fn has_cid(nodes: Seq<NodeView>, cid: Seq<char>) -> bool {
    exists|i: int| 0 <= i < nodes.len() && (#[trigger] nodes[i]).cid == cid
}

/// The place of the manifest with this identifier.
pub open spec fn place_of(nodes: Seq<NodeView>, cid: Seq<char>) -> int {
    choose|i: int| 0 <= i < nodes.len() && (#[trigger] nodes[i]).cid == cid
}

/// The manifest at place `i` may follow what stands before it: its `prev`, if
/// it has one, names a manifest of the same kind at an earlier place.
pub open spec fn links_back(nodes: Seq<NodeView>, i: int) -> bool {
    nodes[i].manifest.prev() matches Some(p) ==> exists|j: int|
        0 <= j < i && (#[trigger] nodes[j]).cid == p && nodes[j].manifest.same_kind(
            nodes[i].manifest,
        )
}

/// The history is well formed: identifiers are those of the manifests and
/// occur once, manifests are well formed, and every `prev` links back.
pub open spec fn dag_wf(nodes: Seq<NodeView>) -> bool {
    &&& forall|i: int|
        0 <= i < nodes.len() ==> (#[trigger] nodes[i]).cid == nodes[i].manifest.cid()
            && nodes[i].manifest.well_formed()
    &&& forall|i: int, j: int|
        0 <= i < j < nodes.len() ==> (#[trigger] nodes[i]).cid != (#[trigger] nodes[j]).cid
    &&& forall|i: int| 0 <= i < nodes.len() ==> #[trigger] links_back(nodes, i)
}

/// In a well-formed history an identifier names one place only.
pub proof fn lemma_place_is_unique(nodes: Seq<NodeView>, i: int)
    requires
        dag_wf(nodes),
        0 <= i < nodes.len(),
    ensures
        has_cid(nodes, nodes[i].cid),
        place_of(nodes, nodes[i].cid) == i,
{
    let j = place_of(nodes, nodes[i].cid);
    if j < i {
        assert(nodes[j].cid != nodes[i].cid);
    } else if i < j {
        assert(nodes[i].cid != nodes[j].cid);
    }
}

/// No committed manifest is its own predecessor: in a well-formed history the
/// `prev` of a manifest is never its own identifier.
pub proof fn lemma_prev_is_another(nodes: Seq<NodeView>, i: int)
    requires
        dag_wf(nodes),
        0 <= i < nodes.len(),
    ensures
        nodes[i].manifest.prev() != Some(nodes[i].cid),
{
    if nodes[i].manifest.prev() == Some(nodes[i].cid) {
        assert(links_back(nodes, i));
        let j = choose|j: int|
            0 <= j < i && (#[trigger] nodes[j]).cid == nodes[i].cid && nodes[j].manifest.same_kind(
                nodes[i].manifest,
            );
        assert(nodes[j].cid != nodes[i].cid);
    }
}

/// The place that the `prev` of the manifest at place `i` names.
pub open spec fn prev_place(nodes: Seq<NodeView>, i: int) -> int {
    choose|j: int|
        0 <= j < i && (#[trigger] nodes[j]).cid == nodes[i].manifest.prev()->0
            && nodes[j].manifest.same_kind(nodes[i].manifest)
}

/// The history of the manifest at place `i`: the places met by following
/// `prev` links, the manifest's own place first.
pub open spec fn history_from(nodes: Seq<NodeView>, i: int) -> Seq<int>
    decreases i,
{
    if 0 <= i < nodes.len() {
        if nodes[i].manifest.prev() is Some && 0 <= prev_place(nodes, i) < i {
            seq![i] + history_from(nodes, prev_place(nodes, i))
        } else {
            seq![i]
        }
    } else {
        Seq::empty()
    }
}

/// The history of a manifest with a `prev` is its own place and then the
/// history of the manifest that the `prev` names.
proof fn lemma_history_step(nodes: Seq<NodeView>, i: int, j: int)
    requires
        dag_wf(nodes),
        0 <= i < nodes.len(),
        0 <= j < nodes.len(),
        nodes[i].manifest.prev() == Some(nodes[j].cid),
    ensures
        j < i,
        nodes[j].manifest.same_kind(nodes[i].manifest),
        history_from(nodes, i) == seq![i] + history_from(nodes, j),
{
    assert(links_back(nodes, i));
    let pj = prev_place(nodes, i);
    assert(0 <= pj < i && nodes[pj].cid == nodes[j].cid);
    lemma_place_is_unique(nodes, pj);
    lemma_place_is_unique(nodes, j);
}

/// Following `prev` from any committed manifest ends, after finitely many
/// steps, at a manifest without a `prev`: the history starts at the manifest
/// itself, each entry's `prev` names the next, places strictly decrease (so no
/// manifest occurs twice), all of them are of the same kind, and the last has
/// no `prev`.
pub proof fn lemma_history_ends_at_root(nodes: Seq<NodeView>, i: int)
    requires
        dag_wf(nodes),
        0 <= i < nodes.len(),
    ensures
        ({
            let h = history_from(nodes, i);
            &&& 1 <= h.len() <= i + 1
            &&& h[0] == i
            &&& forall|k: int| 0 <= k < h.len() ==> 0 <= #[trigger] h[k] < nodes.len()
            &&& forall|k: int|
                0 <= k < h.len() - 1 ==> (#[trigger] h[k]) > h[k + 1] && nodes[h[k]].manifest.prev()
                    == Some(nodes[h[k + 1]].cid)
            &&& forall|k: int|
                0 <= k < h.len() ==> nodes[#[trigger] h[k]].manifest.same_kind(nodes[i].manifest)
            &&& nodes[h.last()].manifest.prev() is None
        }),
    decreases i,
{
    let h = history_from(nodes, i);
    if nodes[i].manifest.prev() is Some {
        assert(links_back(nodes, i));
        let j = prev_place(nodes, i);
        lemma_history_step(nodes, i, j);
        lemma_history_ends_at_root(nodes, j);
        let t = history_from(nodes, j);
        assert(h == seq![i] + t);
        assert forall|k: int| 0 <= k < h.len() - 1 implies (#[trigger] h[k]) > h[k + 1]
            && nodes[h[k]].manifest.prev() == Some(nodes[h[k + 1]].cid) by {
            if k > 0 {
                assert(h[k] == t[k - 1]);
                assert(h[k + 1] == t[k]);
            } else {
                assert(h[1] == t[0]);
            }
        }
        assert forall|k: int| 0 <= k < h.len() implies 0 <= #[trigger] h[k] < nodes.len()
            && nodes[h[k]].manifest.same_kind(nodes[i].manifest) by {
            if k > 0 {
                assert(h[k] == t[k - 1]);
            }
        }
        assert(h.last() == t.last());
    }
}

/// Why a manifest could not be committed.
#[derive(Debug, Clone, Copy, PartialEq, Eq, Structural)]
pub enum StoreError {
    /// The manifest is not well formed.
    Malformed,
    /// The manifest's `prev` names no committed manifest.
    UnknownPrev,
    /// The manifest's `prev` names a manifest of the other kind.
    PrevMismatch,
    /// Another manifest is stored under the identifier of this one.
    CidCollision,
}

/// A committed manifest with its identifier.
#[derive(Debug, Clone)]
pub struct StoredManifest {
    pub cid: String,
    pub manifest: Manifest,
}

impl View for StoredManifest {
    type V = NodeView;

    open spec fn view(&self) -> NodeView {
        NodeView { cid: self.cid@, manifest: self.manifest@ }
    }
}

/// What committing a manifest did.
#[derive(Debug, Clone)]
pub struct Committed {
    /// The identifier of the manifest.
    pub cid: String,
    /// Whether the manifest was added; `false` where it was there already.
    pub added: bool,
}

/// The append-only store of committed manifests.
pub struct ManifestStore {
    nodes: Vec<StoredManifest>,
}

impl View for ManifestStore {
    type V = Seq<NodeView>;

    closed spec fn view(&self) -> Seq<NodeView> {
        self.nodes@.map_values(|n: StoredManifest| n@)
    }
}

/// What committing `manifest` yields on a well-formed history: the error, or
/// the history afterwards and whether the manifest was added.
pub open spec fn commit_result(nodes: Seq<NodeView>, manifest: ManifestView) -> Result<
    (Seq<NodeView>, bool),
    StoreError,
> {
    if !manifest.well_formed() {
        Err(StoreError::Malformed)
    } else if has_cid(nodes, manifest.cid()) {
        if nodes[place_of(nodes, manifest.cid())].manifest == manifest {
            Ok((nodes, false))
        } else {
            Err(StoreError::CidCollision)
        }
    } else {
        match manifest.prev() {
            None => Ok((nodes.push(NodeView { cid: manifest.cid(), manifest }), true)),
            Some(p) => if !has_cid(nodes, p) {
                Err(StoreError::UnknownPrev)
            } else if !nodes[place_of(nodes, p)].manifest.same_kind(manifest) {
                Err(StoreError::PrevMismatch)
            } else {
                Ok((nodes.push(NodeView { cid: manifest.cid(), manifest }), true))
            },
        }
    }
}

/// Committing keeps a well-formed history well formed, and only ever appends
/// to it.
pub proof fn lemma_commit_keeps_history(nodes: Seq<NodeView>, manifest: ManifestView)
    requires
        dag_wf(nodes),
    ensures
        commit_result(nodes, manifest) matches Ok((after, added)) ==> {
            &&& dag_wf(after)
            &&& has_cid(after, manifest.cid())
            &&& after[place_of(after, manifest.cid())].manifest == manifest
            &&& nodes.len() <= after.len()
            &&& after.take(nodes.len() as int) == nodes
            &&& added <==> after.len() == nodes.len() + 1
        },
{
    if let Ok((after, added)) = commit_result(nodes, manifest) {
        if added {
            let node = NodeView { cid: manifest.cid(), manifest };
            let n = nodes.len() as int;
            assert(after.take(n) =~= nodes);
            assert(after[n] == node);
            assert(after[place_of(after, manifest.cid())].manifest == manifest) by {
                let q = place_of(after, manifest.cid());
                if q < n {
                    assert(nodes[q].cid == manifest.cid());
                }
            }
            assert forall|i: int| 0 <= i < after.len() implies #[trigger] links_back(after, i) by {
                if i < n {
                    assert(links_back(nodes, i));
                    if let Some(p) = nodes[i].manifest.prev() {
                        let j = choose|j: int|
                            0 <= j < i && (#[trigger] nodes[j]).cid == p
                                && nodes[j].manifest.same_kind(nodes[i].manifest);
                        assert(after[j] == nodes[j]);
                    }
                } else if let Some(p) = manifest.prev() {
                    let j = place_of(nodes, p);
                    assert(after[j] == nodes[j]);
                }
            }
            assert forall|i: int, j: int| 0 <= i < j < after.len() implies (#[trigger] after[i]).cid
                != (#[trigger] after[j]).cid by {
                if j == n {
                    assert(after[i] == nodes[i]);
                }
            }
        } else {
            assert(after.take(nodes.len() as int) =~= nodes);
        }
    }
}

impl ManifestStore {
    /// The store's history is well formed.
    pub open spec fn wf(&self) -> bool {
        dag_wf(self@)
    }

    /// An empty store.
    pub fn new() -> (s: Self)
        ensures
            s@ == Seq::<NodeView>::empty(),
            s.wf(),
    {
        let s = ManifestStore { nodes: Vec::new() };
        assert(s@ =~= Seq::<NodeView>::empty());
        s
    }

    /// The number of committed manifests.
    pub fn len(&self) -> (n: usize)
        ensures
            n == self@.len(),
    {
        self.nodes.len()
    }

    /// The place of the manifest with this identifier.
    pub fn find(&self, cid: &str) -> (r: Option<usize>)
        ensures
            match r {
                Some(i) => i < self@.len() && self@[i as int].cid == cid@,
                None => !has_cid(self@, cid@),
            },
    {
        let wanted = String::from_str(cid);
        let mut i: usize = 0;
        while i < self.nodes.len()
            invariant
                i <= self.nodes@.len(),
                wanted@ == cid@,
                forall|k: int| 0 <= k < i ==> (#[trigger] self@[k]).cid != cid@,
            decreases self.nodes@.len() - i,
        {
            if self.nodes[i].cid == wanted {
                assert(self@[i as int].cid == cid@);
                return Some(i);
            }
            i += 1;
        }
        None
    }

    /// The committed manifest at a place.
    pub fn at(&self, i: usize) -> (r: &StoredManifest)
        requires
            i < self@.len(),
        ensures
            r@ == self@[i as int],
    {
        &self.nodes[i]
    }

    /// The committed manifest with this identifier.
    pub fn get(&self, cid: &str) -> (r: Option<&StoredManifest>)
        ensures
            match r {
                Some(n) => has_cid(self@, cid@) && n@.cid == cid@ && self@.contains(n@),
                None => !has_cid(self@, cid@),
            },
            self.wf() ==> (r matches Some(n) ==> n@ == self@[place_of(self@, cid@)]),
    {
        match self.find(cid) {
            Some(i) => {
                proof {
                    assert(self@[i as int] == self.nodes@[i as int]@);
                    if self.wf() {
                        lemma_place_is_unique(self@, i as int);
                    }
                }
                Some(&self.nodes[i])
            },
            None => None,
        }
    }

    /// Whether a manifest with this identifier was committed.
    pub fn contains(&self, cid: &str) -> (b: bool)
        ensures
            b == has_cid(self@, cid@),
    {
        self.find(cid).is_some()
    }

    /// Commits a manifest. A manifest that is already there is left as it is;
    /// a new one is appended after its `prev` was found among the manifests of
    /// the same kind.
    pub fn commit(&mut self, manifest: Manifest) -> (r: Result<Committed, StoreError>)
        requires
            old(self).wf(),
        ensures
            final(self).wf(),
            match commit_result(old(self)@, manifest@) {
                Ok((after, added)) => {
                    &&& r matches Ok(c)
                    &&& c.cid@ == manifest@.cid()
                    &&& c.added == added
                    &&& final(self)@ == after
                },
                Err(e) => r == Err::<Committed, StoreError>(e) && final(self)@ == old(self)@,
            },
    {
        proof {
            lemma_commit_keeps_history(self@, manifest@);
        }
        let (cid, well_formed) = match &manifest {
            Manifest::File(m) => (file_manifest_cid(m), file_manifest_is_well_formed(m)),
            Manifest::Dir(m) => (dir_manifest_cid(m), dir_manifest_is_well_formed(m)),
        };
        if !well_formed {
            return Err(StoreError::Malformed);
        }
        if let Some(i) = self.find(cid.as_str()) {
            let stored = &self.nodes[i];
            assert(stored@ == self@[i as int]);
            proof {
                lemma_place_is_unique(self@, i as int);
            }
            let same = match (&stored.manifest, &manifest) {
                (Manifest::File(a), Manifest::File(b)) => same_file_manifest(a, b),
                (Manifest::Dir(a), Manifest::Dir(b)) => same_dir_manifest(a, b),
                _ => false,
            };
            if same {
                return Ok(Committed { cid, added: false });
            }
            return Err(StoreError::CidCollision);
        }
        let prev = match &manifest {
            Manifest::File(m) => &m.prev,
            Manifest::Dir(m) => &m.prev,
        };
        match prev {
            None => {},
            Some(p) => {
                match self.find(p.as_str()) {
                    None => {
                        return Err(StoreError::UnknownPrev);
                    },
                    Some(j) => {
                        let before = &self.nodes[j];
                        assert(before@ == self@[j as int]);
                        proof {
                            lemma_place_is_unique(self@, j as int);
                        }
                        let same_kind = match (&before.manifest, &manifest) {
                            (Manifest::File(_), Manifest::File(_)) => true,
                            (Manifest::Dir(_), Manifest::Dir(_)) => true,
                            _ => false,
                        };
                        if !same_kind {
                            return Err(StoreError::PrevMismatch);
                        }
                    },
                }
            },
        }
        let node = StoredManifest { cid: cid.clone(), manifest };
        self.nodes.push(node);
        assert(self@ =~= old(self)@.push(node@));
        Ok(Committed { cid, added: true })
    }

    /// The identifiers met by following `prev` from the manifest at a place,
    /// that manifest's first.
    pub fn history_at(&self, start: usize) -> (chain: Vec<String>)
        requires
            self.wf(),
            start < self@.len(),
        ensures
            chain@.len() == history_from(self@, start as int).len(),
            forall|k: int|
                0 <= k < chain@.len() ==> (#[trigger] chain@[k])@ == self@[history_from(
                    self@,
                    start as int,
                )[k]].cid,
    {
        let ghost full = history_from(self@, start as int);
        let ghost mut seen: Seq<int> = Seq::empty();
        let mut chain: Vec<String> = Vec::new();
        let mut at: usize = start;
        let mut done = false;
        assert(full =~= seen + history_from(self@, at as int));
        while !done
            invariant
                self.wf(),
                at < self@.len(),
                !done ==> full == seen + history_from(self@, at as int),
                done ==> full == seen,
                seen.len() == chain@.len(),
                forall|k: int|
                    0 <= k < seen.len() ==> 0 <= #[trigger] seen[k] < self@.len() && chain@[k]@
                        == self@[seen[k]].cid,
            decreases at + (if done { 0int } else { 1int }),
        {
            let node = &self.nodes[at];
            assert(node@ == self@[at as int]);
            chain.push(node.cid.clone());
            proof {
                seen = seen.push(at as int);
            }
            let prev = match &node.manifest {
                Manifest::File(m) => &m.prev,
                Manifest::Dir(m) => &m.prev,
            };
            assert(opt_text(*prev) == self@[at as int].manifest.prev());
            match prev {
                None => {
                    assert(full =~= seen);
                    done = true;
                },
                Some(p) => {
                    proof {
                        assert(links_back(self@, at as int));
                    }
                    match self.find(p.as_str()) {
                        None => {
                            done = true;
                            assert(false);
                        },
                        Some(j) => {
                            proof {
                                lemma_history_step(self@, at as int, j as int);
                                assert(full =~= seen + history_from(self@, j as int));
                            }
                            at = j;
                        },
                    }
                },
            }
        }
        chain
    }

    /// The identifiers met by following `prev` from the manifest with this
    /// identifier, that manifest's first; `None` where it was never committed.
    pub fn history(&self, cid: &str) -> (r: Option<Vec<String>>)
        requires
            self.wf(),
        ensures
            match r {
                Some(chain) => {
                    &&& has_cid(self@, cid@)
                    &&& chain@.len() == history_from(self@, place_of(self@, cid@)).len()
                    &&& forall|k: int|
                        0 <= k < chain@.len() ==> (#[trigger] chain@[k])@ == self@[history_from(
                            self@,
                            place_of(self@, cid@),
                        )[k]].cid
                },
                None => !has_cid(self@, cid@),
            },
    {
        match self.find(cid) {
            None => None,
            Some(i) => {
                proof {
                    lemma_place_is_unique(self@, i as int);
                }
                Some(self.history_at(i))
            },
        }
    }
}

} // verus!
