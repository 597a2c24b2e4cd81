//! The reconciler: the states a path moves through, the job that tracks one
//! publish, and the decisions that advance a head only after every chunk of
//! the new version was acknowledged.

use crate::chunker::ChunkSpec;
use crate::chunker::is_tiling;
use crate::chunker::lemma_chunk_within;
use crate::chunker::tiles;
use crate::hash::cid_blake3;
use crate::hash::cid_of;
use crate::hash::CidAlgo;
use crate::manifests::build_file_manifest;
use crate::manifests::chunk_views;
use crate::manifests::ChunkRefView;
use crate::manifests::chunks_in_order;
use crate::manifests::DirChildView;
use crate::manifests::DirManifest;
use crate::manifests::DirManifestView;
use crate::manifests::EncDescView;
use crate::manifests::file_kind;
use crate::manifests::FileChunkRef;
use crate::manifests::FileManifestView;
use crate::manifests::HeadView;
use crate::manifests::is_file_kind;
use crate::manifests::MANIFEST_VERSION;
use crate::manifests::opt_enc;
use crate::manifests::same_children;
use crate::pipeline::chunk_bytes;
use crate::pipeline::Prepared;
use crate::refs::advanced;
use crate::refs::current_head;
use crate::refs::HeadStore;
use crate::store::commit_result;
use crate::store::dag_wf;
use crate::store::has_cid;
use crate::store::history_from;
use crate::store::lemma_commit_keeps_history;
use crate::store::lemma_history_ends_at_root;
use crate::store::lemma_prev_is_another;
use crate::store::Manifest;
use crate::store::ManifestStore;
use crate::store::ManifestView;
use crate::store::NodeView;
use crate::store::place_of;
use crate::store::StoreError;
use crate::text::opt_text;
use crate::wal::entry_views;
use crate::wal::finished;
use crate::wal::has_id;
use crate::wal::has_unfinished;
use crate::wal::lemma_finished_has_no_unfinished;
use crate::wal::marked;
use crate::wal::pending_state;
use crate::wal::unfinished;
use crate::wal::Wal;
use crate::wal::WalEntry;
use crate::wal::WalEntryView;
use crate::wal::WalError;
use vstd::prelude::*;
use vstd::string::StringExecFns;

verus! {

/// Where a path stands.
#[derive(Debug, Clone, Copy, PartialEq, Eq, Structural)]
pub enum PathState {
    /// The local content matches the committed manifest.
    Clean,
    /// The local content differs from the committed manifest.
    Dirty,
    /// An intent is logged and chunks are being published.
    Publishing,
    /// Every chunk was acknowledged; the manifest is built and the head is
    /// being advanced.
    Committing,
    /// A permanent error stopped the publish.
    Failed,
}

/// What can happen to a path.
#[derive(Debug, Clone, Copy, PartialEq, Eq, Structural)]
pub enum PathEvent {
    /// A comparison found the local content equal to the committed one.
    Unchanged,
    /// A comparison found the local content different from the committed one.
    Changed,
    /// The intent was written to the log.
    IntentLogged,
    /// The last chunk was acknowledged.
    ChunksAcknowledged,
    /// A publish failed in a way that a retry may mend.
    TransientError,
    /// A publish or commit failed for good.
    PermanentError,
    /// The head was advanced to the new manifest.
    HeadAdvanced,
    /// Another writer had advanced the head.
    HeadConflict,
    /// The process started again.
    Restart,
}

/// What the driver does next for a path.
#[derive(Debug, Clone, Copy, PartialEq, Eq, Structural)]
pub enum Action {
    /// Nothing.
    Rest,
    /// Compare again and, where the content differs, log an intent.
    LogIntent,
    /// Publish the chunks that are not acknowledged yet.
    PublishChunks,
    /// Build the manifest and advance the head.
    AdvanceHead,
    /// Report the path and the operation to the operator.
    Report,
}

/// The state that follows `state` on `event`, or `None` where the event cannot
/// happen in that state.
pub open spec fn next_state(state: PathState, event: PathEvent) -> Option<PathState> {
    match (state, event) {
        (PathState::Clean, PathEvent::Unchanged) => Some(PathState::Clean),
        (PathState::Clean, PathEvent::Changed) => Some(PathState::Dirty),
        (PathState::Clean, PathEvent::Restart) => Some(PathState::Clean),
        (PathState::Dirty, PathEvent::Unchanged) => Some(PathState::Clean),
        (PathState::Dirty, PathEvent::Changed) => Some(PathState::Dirty),
        (PathState::Dirty, PathEvent::IntentLogged) => Some(PathState::Publishing),
        (PathState::Dirty, PathEvent::Restart) => Some(PathState::Dirty),
        (PathState::Publishing, PathEvent::ChunksAcknowledged) => Some(PathState::Committing),
        (PathState::Publishing, PathEvent::TransientError) => Some(PathState::Publishing),
        (PathState::Publishing, PathEvent::PermanentError) => Some(PathState::Failed),
        (PathState::Publishing, PathEvent::Restart) => Some(PathState::Dirty),
        (PathState::Committing, PathEvent::HeadAdvanced) => Some(PathState::Clean),
        (PathState::Committing, PathEvent::HeadConflict) => Some(PathState::Dirty),
        (PathState::Committing, PathEvent::PermanentError) => Some(PathState::Failed),
        (PathState::Committing, PathEvent::Restart) => Some(PathState::Dirty),
        (PathState::Failed, PathEvent::Restart) => Some(PathState::Dirty),
        _ => None,
    }
}

/// What the driver does for a path in `state`.
pub open spec fn action_in(state: PathState) -> Action {
    match state {
        PathState::Clean => Action::Rest,
        PathState::Dirty => Action::LogIntent,
        PathState::Publishing => Action::PublishChunks,
        PathState::Committing => Action::AdvanceHead,
        PathState::Failed => Action::Report,
    }
}

/// Moves a path from `state` on `event`.
pub fn transition(state: PathState, event: PathEvent) -> (next: Option<PathState>)
    ensures
        next == next_state(state, event),
{
    match (state, event) {
        (PathState::Clean, PathEvent::Unchanged) => Some(PathState::Clean),
        (PathState::Clean, PathEvent::Changed) => Some(PathState::Dirty),
        (PathState::Clean, PathEvent::Restart) => Some(PathState::Clean),
        (PathState::Dirty, PathEvent::Unchanged) => Some(PathState::Clean),
        (PathState::Dirty, PathEvent::Changed) => Some(PathState::Dirty),
        (PathState::Dirty, PathEvent::IntentLogged) => Some(PathState::Publishing),
        (PathState::Dirty, PathEvent::Restart) => Some(PathState::Dirty),
        (PathState::Publishing, PathEvent::ChunksAcknowledged) => Some(PathState::Committing),
        (PathState::Publishing, PathEvent::TransientError) => Some(PathState::Publishing),
        (PathState::Publishing, PathEvent::PermanentError) => Some(PathState::Failed),
        (PathState::Publishing, PathEvent::Restart) => Some(PathState::Dirty),
        (PathState::Committing, PathEvent::HeadAdvanced) => Some(PathState::Clean),
        (PathState::Committing, PathEvent::HeadConflict) => Some(PathState::Dirty),
        (PathState::Committing, PathEvent::PermanentError) => Some(PathState::Failed),
        (PathState::Committing, PathEvent::Restart) => Some(PathState::Dirty),
        (PathState::Failed, PathEvent::Restart) => Some(PathState::Dirty),
        _ => None,
    }
}

/// The action the driver takes for a path in `state`.
pub fn next_action(state: PathState) -> (action: Action)
    ensures
        action == action_in(state),
{
    match state {
        PathState::Clean => Action::Rest,
        PathState::Dirty => Action::LogIntent,
        PathState::Publishing => Action::PublishChunks,
        PathState::Committing => Action::AdvanceHead,
        PathState::Failed => Action::Report,
    }
}

/// A path becomes clean only when a comparison finds it unchanged or when its
/// head was advanced out of `Committing`; it comes to `Committing` only out of
/// `Publishing`, once every chunk was acknowledged; and a restart brings every
/// path that is not clean back to `Dirty`, so that recovery enters the same
/// machine as a detected change does.
pub proof fn lemma_state_machine(state: PathState, event: PathEvent)
    ensures
        next_state(state, event) == Some(PathState::Clean) ==> {
            ||| event == PathEvent::Unchanged
            ||| state == PathState::Committing && event == PathEvent::HeadAdvanced
            ||| state == PathState::Clean && event == PathEvent::Restart
        },
        next_state(state, event) == Some(PathState::Committing) ==> state == PathState::Publishing
            && event == PathEvent::ChunksAcknowledged,
        event == PathEvent::HeadAdvanced && next_state(state, event) is Some ==> state
            == PathState::Committing,
        state != PathState::Clean ==> next_state(state, PathEvent::Restart) == Some(
            PathState::Dirty,
        ),
        action_in(state) == Action::AdvanceHead <==> state == PathState::Committing,
{
}

/// The kinds of error a publish can meet.
#[derive(Debug, Clone, Copy, PartialEq, Eq, Structural)]
pub enum ErrorClass {
    /// The transport was rate-limited, failed on its side, or timed out.
    Transient,
    /// A checksum, an authentication tag or a content identifier did not
    /// verify: the object is corrupt or was tampered with.
    Integrity,
    /// Another writer advanced the head between the read and the write.
    Conflict,
    /// A manifest or log record could not be decoded.
    Schema,
    /// The local filesystem failed.
    LocalIo,
}

/// What is done about an error.
#[derive(Debug, Clone, Copy, PartialEq, Eq, Structural)]
pub enum Disposition {
    /// Try the same step again, after a pause; the intent stays as it is.
    Retry,
    /// Compare with the head that is current now and publish again if the
    /// content still differs.
    Rediff,
    /// Stop, and report the path and the operation.
    Fatal,
}

/// What is done about an error of `class` after `attempts` tries, under a
/// budget of `budget` tries: a transient error is retried and a conflict
/// compared again while tries are left; everything else, and either of the two
/// once the budget is spent, is fatal.
pub open spec fn disposition_of(class: ErrorClass, attempts: int, budget: int) -> Disposition {
    match class {
        ErrorClass::Transient => if attempts < budget {
            Disposition::Retry
        } else {
            Disposition::Fatal
        },
        ErrorClass::Conflict => if attempts < budget {
            Disposition::Rediff
        } else {
            Disposition::Fatal
        },
        _ => Disposition::Fatal,
    }
}

/// The event that a disposition is for the path's state.
pub open spec fn event_of(d: Disposition) -> PathEvent {
    match d {
        Disposition::Retry => PathEvent::TransientError,
        Disposition::Rediff => PathEvent::HeadConflict,
        Disposition::Fatal => PathEvent::PermanentError,
    }
}

/// Decides what is done about an error.
pub fn disposition(class: ErrorClass, attempts: u32, budget: u32) -> (d: Disposition)
    ensures
        d == disposition_of(class, attempts as int, budget as int),
{
    match class {
        ErrorClass::Transient => if attempts < budget {
            Disposition::Retry
        } else {
            Disposition::Fatal
        },
        ErrorClass::Conflict => if attempts < budget {
            Disposition::Rediff
        } else {
            Disposition::Fatal
        },
        _ => Disposition::Fatal,
    }
}

/// The event that a disposition is for the path's state.
pub fn disposition_event(d: Disposition) -> (e: PathEvent)
    ensures
        e == event_of(d),
{
    match d {
        Disposition::Retry => PathEvent::TransientError,
        Disposition::Rediff => PathEvent::HeadConflict,
        Disposition::Fatal => PathEvent::PermanentError,
    }
}

/// An integrity, schema or local error is never retried, whatever the budget;
/// a retry leaves a publishing path publishing; and a conflict is only ever
/// met while committing, from where it leads back to `Dirty`.
pub proof fn lemma_error_handling(class: ErrorClass, attempts: int, budget: int, state: PathState)
    ensures
        class == ErrorClass::Integrity || class == ErrorClass::Schema || class
            == ErrorClass::LocalIo ==> disposition_of(class, attempts, budget) == Disposition::Fatal,
        attempts >= budget ==> disposition_of(class, attempts, budget) == Disposition::Fatal,
        next_state(PathState::Publishing, event_of(Disposition::Retry)) == Some(
            PathState::Publishing,
        ),
        next_state(state, event_of(Disposition::Rediff)) is Some ==> state == PathState::Committing
            && next_state(state, event_of(Disposition::Rediff)) == Some(PathState::Dirty),
        next_state(state, event_of(Disposition::Fatal)) matches Some(s) ==> s == PathState::Failed,
{
}

/// The bytes of one chunk of a payload.
pub open spec fn chunk_content(payload: Seq<u8>, c: ChunkSpec) -> Seq<u8> {
    payload.subrange(c.offset as int, c.offset + c.size)
}

/// The reference to chunk `k` of a payload, published under `locator`.
pub open spec fn chunk_ref(payload: Seq<u8>, plan: Seq<ChunkSpec>, k: int, locator: Seq<char>) -> ChunkRefView {
    ChunkRefView {
        i: k,
        cid: cid_of(CidAlgo::Blake3, chunk_content(payload, plan[k])),
        msg: locator,
    }
}

/// One publish of one path, as far as it got.
pub struct JobView {
    pub path: Seq<char>,
    pub tmp_id: Seq<char>,
    pub name: Seq<char>,
    pub payload: Seq<u8>,
    pub plan: Seq<ChunkSpec>,
    pub file_cid: Seq<char>,
    pub size: int,
    pub z: Option<Seq<char>>,
    pub enc: Option<EncDescView>,
    pub expected_prev: Option<Seq<char>>,
    pub refs: Seq<ChunkRefView>,
}

/// The plan tiles the payload, and the chunks acknowledged so far are the
/// first ones of the plan, each referred to by its place and by the identifier
/// of its bytes.
pub open spec fn job_wf(j: JobView) -> bool {
    &&& tiles(j.plan, j.payload.len() as int)
    &&& j.refs.len() <= j.plan.len()
    &&& forall|k: int|
        0 <= k < j.refs.len() ==> (#[trigger] j.refs[k]).i == k && j.refs[k].cid == cid_of(
            CidAlgo::Blake3,
            chunk_content(j.payload, j.plan[k]),
        )
}

/// The job after its next chunk was acknowledged under `locator`; the job
/// itself where every chunk was acknowledged already.
pub open spec fn with_locator(j: JobView, locator: Seq<char>) -> JobView {
    if j.refs.len() < j.plan.len() {
        JobView {
            refs: j.refs.push(chunk_ref(j.payload, j.plan, j.refs.len() as int, locator)),
            ..j
        }
    } else {
        j
    }
}

/// The job after chunks were acknowledged under these locators, one after the
/// other.
pub open spec fn with_locators(j: JobView, locators: Seq<Seq<char>>) -> JobView
    decreases locators.len(),
{
    if locators.len() == 0 {
        j
    } else {
        with_locator(with_locators(j, locators.drop_last()), locators.last())
    }
}

/// A job refers to what was published for it and to nothing else: after a
/// job that began without references was handed locators, it is well formed,
/// it holds one reference for each locator up to the length of its plan, and
/// reference `k` bears the place `k`, the identifier of chunk `k` of its own
/// payload, and the `k`-th locator it was handed. So a locator that was not
/// handed to this job, such as one that an interrupted publish left behind, is
/// referred to by none of its references.
pub proof fn lemma_job_refers_to_its_own_locators(j: JobView, locators: Seq<Seq<char>>)
    requires
        job_wf(j),
        j.refs.len() == 0,
    ensures
        ({
            let after = with_locators(j, locators);
            &&& job_wf(after)
            &&& after == (JobView { refs: after.refs, ..j })
            &&& after.refs.len() == (if locators.len() < j.plan.len() {
                locators.len()
            } else {
                j.plan.len()
            })
            &&& forall|k: int|
                0 <= k < after.refs.len() ==> #[trigger] after.refs[k] == chunk_ref(
                    j.payload,
                    j.plan,
                    k,
                    locators[k],
                )
            &&& forall|stale: Seq<char>|
                !locators.contains(stale) ==> forall|k: int|
                    0 <= k < after.refs.len() ==> (#[trigger] after.refs[k]).msg != stale
        }),
    decreases locators.len(),
{
    let after = with_locators(j, locators);
    if locators.len() == 0 {
    } else {
        let front = locators.drop_last();
        lemma_job_refers_to_its_own_locators(j, front);
        let before = with_locators(j, front);
        assert(after == with_locator(before, locators.last()));
        assert forall|k: int| 0 <= k < after.refs.len() implies #[trigger] after.refs[k]
            == chunk_ref(j.payload, j.plan, k, locators[k]) by {
            if k < before.refs.len() {
                assert(after.refs[k] == before.refs[k]);
                assert(front[k] == locators[k]);
            }
        }
    }
    assert forall|stale: Seq<char>| !locators.contains(stale) implies forall|k: int|
        0 <= k < after.refs.len() ==> (#[trigger] after.refs[k]).msg != stale by {
        assert forall|k: int| 0 <= k < after.refs.len() implies (#[trigger] after.refs[k]).msg
            != stale by {
            assert(after.refs[k] == chunk_ref(j.payload, j.plan, k, locators[k]));
            assert(locators.contains(locators[k]));
        }
    }
}

/// One publish of one path: the prepared content, the head the new version is
/// to follow, and the references to the chunks acknowledged so far.
pub struct PublishJob {
    path: String,
    tmp_id: String,
    name: String,
    prepared: Prepared,
    expected_prev: Option<String>,
    refs: Vec<FileChunkRef>,
}

impl View for PublishJob {
    type V = JobView;

    closed spec fn view(&self) -> JobView {
        JobView {
            path: self.path@,
            tmp_id: self.tmp_id@,
            name: self.name@,
            payload: self.prepared.payload@,
            plan: self.prepared.plan@,
            file_cid: self.prepared.file_cid@,
            size: self.prepared.size as int,
            z: opt_text(self.prepared.z),
            enc: opt_enc(self.prepared.enc),
            expected_prev: opt_text(self.expected_prev),
            refs: chunk_views(self.refs@),
        }
    }
}

impl PublishJob {
    /// The job is well formed.
    pub open spec fn wf(&self) -> bool {
        job_wf(self@)
    }

    /// Starts the publish of prepared content as the version of `path` that
    /// follows `expected_prev`. `None` where the plan does not tile the
    /// payload.
    pub fn start(
        path: &str,
        tmp_id: &str,
        name: &str,
        prepared: Prepared,
        expected_prev: Option<String>,
    ) -> (r: Option<PublishJob>)
        ensures
            match r {
                Some(job) => {
                    &&& job.wf()
                    &&& job@ == (JobView {
                        path: path@,
                        tmp_id: tmp_id@,
                        name: name@,
                        payload: prepared.payload@,
                        plan: prepared.plan@,
                        file_cid: prepared.file_cid@,
                        size: prepared.size as int,
                        z: opt_text(prepared.z),
                        enc: opt_enc(prepared.enc),
                        expected_prev: opt_text(expected_prev),
                        refs: Seq::empty(),
                    })
                },
                None => !tiles(prepared.plan@, prepared.payload@.len() as int),
            },
    {
        if !is_tiling(&prepared.plan, prepared.payload.len()) {
            return None;
        }
        let job = PublishJob {
            path: String::from_str(path),
            tmp_id: String::from_str(tmp_id),
            name: String::from_str(name),
            prepared,
            expected_prev,
            refs: Vec::new(),
        };
        assert(job@.refs =~= Seq::<ChunkRefView>::empty());
        Some(job)
    }

    /// The path being published.
    pub fn path(&self) -> (r: &String)
        ensures
            r@ == self@.path,
    {
        &self.path
    }

    /// The temporary identifier the chunks are published under.
    pub fn tmp_id(&self) -> (r: &String)
        ensures
            r@ == self@.tmp_id,
    {
        &self.tmp_id
    }

    /// The number of chunks acknowledged so far.
    pub fn acknowledged(&self) -> (n: usize)
        ensures
            n == self@.refs.len(),
    {
        self.refs.len()
    }

    /// Whether every chunk of the plan was acknowledged.
    pub fn is_complete(&self) -> (b: bool)
        ensures
            b == (self@.refs.len() == self@.plan.len()),
    {
        self.refs.len() == self.prepared.plan.len()
    }

    /// The next chunk to publish, or `None` once all were acknowledged.
    pub fn next_chunk(&self) -> (r: Option<ChunkSpec>)
        requires
            self.wf(),
        ensures
            r == (if self@.refs.len() < self@.plan.len() {
                Some(self@.plan[self@.refs.len() as int])
            } else {
                None
            }),
    {
        if self.refs.len() < self.prepared.plan.len() {
            Some(self.prepared.plan[self.refs.len()])
        } else {
            None
        }
    }

    /// The bytes of the next chunk to publish, or `None` once all were
    /// acknowledged.
    pub fn next_bytes(&self) -> (r: Option<Vec<u8>>)
        requires
            self.wf(),
        ensures
            match r {
                Some(bytes) => self@.refs.len() < self@.plan.len() && bytes@ == chunk_content(
                    self@.payload,
                    self@.plan[self@.refs.len() as int],
                ),
                None => self@.refs.len() == self@.plan.len(),
            },
    {
        if self.refs.len() < self.prepared.plan.len() {
            proof {
                lemma_chunk_within(
                    self@.plan,
                    self@.payload.len() as int,
                    self@.refs.len() as int,
                );
            }
            chunk_bytes(self.prepared.payload.as_slice(), &self.prepared.plan[self.refs.len()])
        } else {
            None
        }
    }

    /// Records that the next chunk was published under `locator`. Returns
    /// `false`, and records nothing, once all chunks were acknowledged.
    pub fn acknowledge(&mut self, locator: &str) -> (recorded: bool)
        requires
            old(self).wf(),
        ensures
            final(self).wf(),
            recorded == (old(self)@.refs.len() < old(self)@.plan.len()),
            final(self)@ == with_locator(old(self)@, locator@),
    {
        let bytes = match self.next_bytes() {
            None => {
                return false;
            },
            Some(bytes) => bytes,
        };
        let k = self.refs.len();
        let chunk = FileChunkRef {
            i: k,
            cid: cid_blake3(bytes.as_slice()),
            msg: String::from_str(locator),
        };
        let ghost before = chunk_views(self.refs@);
        self.refs.push(chunk);
        assert(chunk_views(self.refs@) =~= before.push(chunk@));
        true
    }
}

/// The operation that an intent to publish a path is logged under.
pub open spec fn publish_op() -> Seq<char> {
    seq!['p', 'u', 'b', 'l', 'i', 's', 'h']
}

/// The durable state the reconciler works on.
pub struct ReconcilerView {
    pub manifests: Seq<NodeView>,
    pub heads: Map<Seq<char>, HeadView>,
    pub wal: Seq<WalEntryView>,
}

/// Every head refers to a committed manifest.
pub open spec fn heads_committed(v: ReconcilerView) -> bool {
    forall|p: Seq<char>| #[trigger] v.heads.contains_key(p) ==> has_cid(v.manifests, v.heads[p].head)
}

/// The history is well formed and every head refers to a manifest in it.
pub open spec fn state_wf(v: ReconcilerView) -> bool {
    dag_wf(v.manifests) && heads_committed(v)
}

/// The manifest that the head of `path` refers to.
pub open spec fn head_manifest(v: ReconcilerView, path: Seq<char>) -> Option<ManifestView> {
    match current_head(v.heads, path) {
        Some(h) => if has_cid(v.manifests, h) {
            Some(v.manifests[place_of(v.manifests, h)].manifest)
        } else {
            None
        },
        None => None,
    }
}

/// What comparing local content with the committed version finds.
#[derive(Debug, Clone)]
pub enum Diff {
    /// The committed version has this content; nothing is to be done.
    Unchanged,
    /// There is no committed version with this content. `head` is the head the
    /// new version is to follow.
    Changed { head: Option<String> },
}

pub enum DiffView {
    Unchanged,
    Changed { head: Option<Seq<char>> },
}

impl View for Diff {
    type V = DiffView;

    open spec fn view(&self) -> DiffView {
        match self {
            Diff::Unchanged => DiffView::Unchanged,
            Diff::Changed { head } => DiffView::Changed { head: opt_text(*head) },
        }
    }
}

/// What comparing a file whose content bears `local_cid` with the committed
/// version of `path` finds: unchanged exactly when the head refers to a file
/// manifest of that content.
pub open spec fn diff_of(v: ReconcilerView, path: Seq<char>, local_cid: Seq<char>) -> DiffView {
    match head_manifest(v, path) {
        Some(ManifestView::File(m)) => if m.file_cid == local_cid {
            DiffView::Unchanged
        } else {
            DiffView::Changed { head: current_head(v.heads, path) }
        },
        _ => DiffView::Changed { head: current_head(v.heads, path) },
    }
}

/// What comparing a directory with the committed version of `path` finds:
/// unchanged exactly when the head refers to a directory manifest of that name
/// with those children.
pub open spec fn dir_diff_of(v: ReconcilerView, path: Seq<char>, candidate: DirManifestView) -> DiffView {
    match head_manifest(v, path) {
        Some(ManifestView::Dir(m)) => if m.name == candidate.name && m.children
            == candidate.children {
            DiffView::Unchanged
        } else {
            DiffView::Changed { head: current_head(v.heads, path) }
        },
        _ => DiffView::Changed { head: current_head(v.heads, path) },
    }
}

/// What beginning a publish yields: nothing at all where the content is
/// unchanged; otherwise a pending intent in the log, or the refusal of a
/// temporary identifier that is in use.
pub open spec fn begin_result(
    v: ReconcilerView,
    path: Seq<char>,
    local_cid: Seq<char>,
    tmp_id: Seq<char>,
) -> (ReconcilerView, Result<DiffView, WalError>) {
    match diff_of(v, path, local_cid) {
        DiffView::Unchanged => (v, Ok(DiffView::Unchanged)),
        DiffView::Changed { head } => if has_id(v.wal, tmp_id) {
            (v, Err(WalError::IdInUse))
        } else {
            (
                ReconcilerView {
                    wal: v.wal.push(
                        WalEntryView { op: publish_op(), path, tmp_id, state: pending_state() },
                    ),
                    ..v
                },
                Ok(DiffView::Changed { head }),
            )
        },
    }
}

/// Why a version could not be committed.
#[derive(Debug, Clone)]
pub enum CommitError {
    /// Not every chunk of the plan was acknowledged.
    Incomplete,
    /// Another writer advanced the head; `current` is the head now.
    Conflict { current: Option<String> },
    /// The store refused the manifest.
    Store(StoreError),
    /// A child of the directory refers to a manifest that is not committed, or
    /// to one of the other kind.
    ChildNotCommitted,
}

pub enum CommitErrorView {
    Incomplete,
    Conflict { current: Option<Seq<char>> },
    Store(StoreError),
    ChildNotCommitted,
}

impl View for CommitError {
    type V = CommitErrorView;

    open spec fn view(&self) -> CommitErrorView {
        match self {
            CommitError::Incomplete => CommitErrorView::Incomplete,
            CommitError::Conflict { current } => CommitErrorView::Conflict {
                current: opt_text(*current),
            },
            CommitError::Store(e) => CommitErrorView::Store(*e),
            CommitError::ChildNotCommitted => CommitErrorView::ChildNotCommitted,
        }
    }
}

/// The manifest that a job describes once all its chunks are acknowledged.
pub open spec fn job_manifest(j: JobView, ctime: int, mtime: int) -> FileManifestView {
    FileManifestView {
        v: MANIFEST_VERSION as int,
        kind: file_kind(),
        name: j.name,
        size: j.size,
        chunks: j.refs,
        file_cid: j.file_cid,
        enc: j.enc,
        z: j.z,
        ctime,
        mtime,
        prev: j.expected_prev,
    }
}

/// The state after a manifest was committed for `path` and the head advanced
/// to it.
pub open spec fn advanced_state(
    v: ReconcilerView,
    path: Seq<char>,
    tmp_id: Seq<char>,
    manifest: ManifestView,
    node: Seq<char>,
    history: Seq<NodeView>,
) -> ReconcilerView {
    ReconcilerView {
        manifests: history,
        heads: v.heads.insert(path, advanced(manifest.prev(), manifest.cid(), node)),
        wal: marked(v.wal, tmp_id),
    }
}

/// What committing a manifest for `path` yields once its parts were checked:
/// nothing changes where the head is no longer the manifest's `prev` or the
/// store refuses the manifest; otherwise the manifest is in the history, the
/// head refers to it, and the intent is at its end.
pub open spec fn manifest_commit_outcome(
    v: ReconcilerView,
    path: Seq<char>,
    tmp_id: Seq<char>,
    manifest: ManifestView,
    node: Seq<char>,
) -> (ReconcilerView, Result<Seq<char>, CommitErrorView>) {
    if current_head(v.heads, path) != manifest.prev() {
        (v, Err(CommitErrorView::Conflict { current: current_head(v.heads, path) }))
    } else {
        match commit_result(v.manifests, manifest) {
            Err(e) => (v, Err(CommitErrorView::Store(e))),
            Ok((history, _)) => (
                advanced_state(v, path, tmp_id, manifest, node, history),
                Ok(manifest.cid()),
            ),
        }
    }
}

/// What committing a job yields: nothing changes while chunks are
/// unacknowledged; otherwise as for the manifest the job describes.
pub open spec fn commit_outcome(v: ReconcilerView, j: JobView, ctime: int, mtime: int, node: Seq<char>) -> (
    ReconcilerView,
    Result<Seq<char>, CommitErrorView>,
) {
    if j.refs.len() != j.plan.len() {
        (v, Err(CommitErrorView::Incomplete))
    } else {
        manifest_commit_outcome(
            v,
            j.path,
            j.tmp_id,
            ManifestView::File(job_manifest(j, ctime, mtime)),
            node,
        )
    }
}

/// Every child refers to a committed manifest of the kind the child is marked
/// with.
pub open spec fn children_committed(nodes: Seq<NodeView>, children: Seq<DirChildView>) -> bool {
    forall|k: int|
        0 <= k < children.len() ==> has_cid(nodes, (#[trigger] children[k]).manifest) && (
        nodes[place_of(nodes, children[k].manifest)].manifest is File) == (children[k].t
            == file_kind())
}

/// What committing a directory manifest yields: nothing changes while a child
/// is not committed; otherwise as for any manifest.
pub open spec fn dir_commit_outcome(
    v: ReconcilerView,
    path: Seq<char>,
    tmp_id: Seq<char>,
    m: DirManifestView,
    node: Seq<char>,
) -> (ReconcilerView, Result<Seq<char>, CommitErrorView>) {
    if !children_committed(v.manifests, m.children) {
        (v, Err(CommitErrorView::ChildNotCommitted))
    } else {
        manifest_commit_outcome(v, path, tmp_id, ManifestView::Dir(m), node)
    }
}

/// The state after startup recovery: the interrupted intents are out of the
/// log; manifests and heads are untouched.
pub open spec fn recovered(v: ReconcilerView) -> ReconcilerView {
    ReconcilerView { wal: finished(v.wal), ..v }
}

proof fn lemma_has_cid_grows(before: Seq<NodeView>, after: Seq<NodeView>, cid: Seq<char>)
    requires
        before.len() <= after.len(),
        after.take(before.len() as int) == before,
        has_cid(before, cid),
    ensures
        has_cid(after, cid),
{
    let i = choose|i: int| 0 <= i < before.len() && (#[trigger] before[i]).cid == cid;
    assert(after.take(before.len() as int)[i] == after[i]);
}

/// A commit leaves the state well formed, changes nothing when it fails, and
/// when it succeeds leaves the head of the path at the committed manifest,
/// with every other head where it was and the history only extended.
pub proof fn lemma_commit_keeps_state(
    v: ReconcilerView,
    path: Seq<char>,
    tmp_id: Seq<char>,
    manifest: ManifestView,
    node: Seq<char>,
)
    requires
        state_wf(v),
    ensures
        ({
            let (after, r) = manifest_commit_outcome(v, path, tmp_id, manifest, node);
            &&& state_wf(after)
            &&& r is Err ==> after == v
            &&& r is Ok ==> {
                &&& head_manifest(after, path) == Some(manifest)
                &&& current_head(after.heads, path) == Some(manifest.cid())
                &&& v.manifests.len() <= after.manifests.len()
                &&& after.manifests.take(v.manifests.len() as int) == v.manifests
                &&& forall|p: Seq<char>|
                    p != path ==> after.heads.contains_key(p) == v.heads.contains_key(p)
                        && after.heads[p] == v.heads[p]
            }
        }),
{
    let (after, r) = manifest_commit_outcome(v, path, tmp_id, manifest, node);
    if r is Ok {
        lemma_commit_keeps_history(v.manifests, manifest);
        assert forall|p: Seq<char>| #[trigger] after.heads.contains_key(p) implies has_cid(
            after.manifests,
            after.heads[p].head,
        ) by {
            if p != path {
                assert(v.heads.contains_key(p));
                lemma_has_cid_grows(v.manifests, after.manifests, v.heads[p].head);
            }
        }
    }
}

/// The history of every head is finite and ends at a manifest without a
/// `prev`: from the manifest the head of any path refers to, following `prev`
/// meets strictly earlier manifests of the same kind and stops at one that has
/// no `prev`.
pub proof fn lemma_head_history_ends(v: ReconcilerView, path: Seq<char>)
    requires
        state_wf(v),
        v.heads.contains_key(path),
    ensures
        ({
            let start = place_of(v.manifests, v.heads[path].head);
            let h = history_from(v.manifests, start);
            &&& 0 <= start < v.manifests.len()
            &&& v.manifests[start].cid == v.heads[path].head
            &&& 1 <= h.len() <= start + 1
            &&& h[0] == start
            &&& forall|k: int| 0 <= k < h.len() ==> 0 <= #[trigger] h[k] < v.manifests.len()
            &&& forall|k: int|
                0 <= k < h.len() - 1 ==> (#[trigger] h[k]) > h[k + 1]
                    && v.manifests[h[k]].manifest.prev() == Some(v.manifests[h[k + 1]].cid)
            &&& v.manifests[h.last()].manifest.prev() is None
        }),
{
    let start = place_of(v.manifests, v.heads[path].head);
    lemma_history_ends_at_root(v.manifests, start);
}

/// Of two writers that built their manifests on the same head, the one that
/// commits second observes a conflict and changes nothing: after a commit for
/// a path succeeded, a commit of any manifest with the `prev` that the first
/// one had fails with the head that is current now.
pub proof fn lemma_second_committer_conflicts(
    v: ReconcilerView,
    path: Seq<char>,
    first_id: Seq<char>,
    first: ManifestView,
    first_node: Seq<char>,
    second_id: Seq<char>,
    second: ManifestView,
    second_node: Seq<char>,
)
    requires
        state_wf(v),
        manifest_commit_outcome(v, path, first_id, first, first_node).1 is Ok,
        second.prev() == first.prev(),
    ensures
        ({
            let after = manifest_commit_outcome(v, path, first_id, first, first_node).0;
            manifest_commit_outcome(after, path, second_id, second, second_node) == (
                after,
                Err::<Seq<char>, CommitErrorView>(
                    CommitErrorView::Conflict { current: Some(first.cid()) },
                ),
            )
        }),
{
    let after = manifest_commit_outcome(v, path, first_id, first, first_node).0;
    lemma_commit_keeps_state(v, path, first_id, first, first_node);
    lemma_commit_keeps_history(v.manifests, first);
    let place = place_of(after.manifests, first.cid());
    assert(after.manifests[place].cid == first.cid());
    lemma_prev_is_another(after.manifests, place);
}

/// Replaying a publish that in fact went through does no work: once a job was
/// committed, comparing its content with the committed version finds it
/// unchanged, and beginning a publish of that content again, under any
/// temporary identifier, changes nothing and logs nothing. The committed
/// manifest holds one reference per planned chunk, numbered without gaps.
pub proof fn lemma_replay_after_commit_is_noop(
    v: ReconcilerView,
    j: JobView,
    ctime: int,
    mtime: int,
    node: Seq<char>,
    tmp_id: Seq<char>,
)
    requires
        state_wf(v),
        job_wf(j),
        commit_outcome(v, j, ctime, mtime, node).1 is Ok,
    ensures
        ({
            let after = commit_outcome(v, j, ctime, mtime, node).0;
            &&& state_wf(after)
            &&& head_manifest(after, j.path) == Some(
                ManifestView::File(job_manifest(j, ctime, mtime)),
            )
            &&& job_manifest(j, ctime, mtime).chunks.len() == j.plan.len()
            &&& chunks_in_order(job_manifest(j, ctime, mtime).chunks)
            &&& diff_of(after, j.path, j.file_cid) == DiffView::Unchanged
            &&& begin_result(after, j.path, j.file_cid, tmp_id) == (after, Ok::<
                DiffView,
                WalError,
            >(DiffView::Unchanged))
        }),
{
    lemma_commit_keeps_state(
        v,
        j.path,
        j.tmp_id,
        ManifestView::File(job_manifest(j, ctime, mtime)),
        node,
    );
}

/// An interrupted publish starts over: when a publish was begun and never
/// committed, recovery leaves manifests and heads as they were before it
/// began and no unfinished intent in the log, so that comparing the same
/// content again finds it changed against the same head, and beginning again
/// under a fresh temporary identifier logs a new intent. What was published
/// for the old intent is referred to by nothing.
pub proof fn lemma_interrupted_publish_restarts(
    v: ReconcilerView,
    path: Seq<char>,
    local_cid: Seq<char>,
    tmp_id: Seq<char>,
    fresh_id: Seq<char>,
)
    requires
        begin_result(v, path, local_cid, tmp_id).1 matches Ok(DiffView::Changed { .. }),
    ensures
        ({
            let begun = begin_result(v, path, local_cid, tmp_id).0;
            let again = recovered(begun);
            &&& has_unfinished(begun.wal, path)
            &&& again.manifests == v.manifests
            &&& again.heads == v.heads
            &&& !has_unfinished(again.wal, path)
            &&& diff_of(again, path, local_cid) == diff_of(v, path, local_cid)
            &&& !has_id(again.wal, fresh_id) ==> begin_result(again, path, local_cid, fresh_id).1
                == begin_result(v, path, local_cid, tmp_id).1
        }),
{
    let begun = begin_result(v, path, local_cid, tmp_id).0;
    let entry = WalEntryView { op: publish_op(), path, tmp_id, state: pending_state() };
    assert(begun.wal[v.wal.len() as int] == entry);
    assert(pending_state()[0] != crate::wal::complete_state()[0]);
    lemma_finished_has_no_unfinished(begun.wal);
}

/// A publish that starts over refers only to what it published itself: when a
/// job that began without references was handed locators and then committed,
/// the head of its path refers to a manifest of the job's content that follows
/// the head there was before, with one reference per planned chunk, numbered
/// without gaps, each bearing the locator the job was handed for that chunk.
/// No locator that the job was not handed, such as one left by the publish
/// that was interrupted, occurs in it.
pub proof fn lemma_republish_refers_to_fresh_chunks(
    v: ReconcilerView,
    j: JobView,
    locators: Seq<Seq<char>>,
    ctime: int,
    mtime: int,
    node: Seq<char>,
    stale: Seq<char>,
)
    requires
        state_wf(v),
        job_wf(j),
        j.refs.len() == 0,
        commit_outcome(v, with_locators(j, locators), ctime, mtime, node).1 is Ok,
        !locators.contains(stale),
    ensures
        ({
            let done = with_locators(j, locators);
            let after = commit_outcome(v, done, ctime, mtime, node).0;
            let m = job_manifest(done, ctime, mtime);
            &&& state_wf(after)
            &&& head_manifest(after, j.path) == Some(ManifestView::File(m))
            &&& m.file_cid == j.file_cid
            &&& m.prev == current_head(v.heads, j.path)
            &&& m.chunks.len() == j.plan.len()
            &&& chunks_in_order(m.chunks)
            &&& forall|k: int|
                0 <= k < m.chunks.len() ==> (#[trigger] m.chunks[k]).msg == locators[k]
                    && m.chunks[k].msg != stale
        }),
{
    let done = with_locators(j, locators);
    lemma_job_refers_to_its_own_locators(j, locators);
    lemma_commit_keeps_state(
        v,
        done.path,
        done.tmp_id,
        ManifestView::File(job_manifest(done, ctime, mtime)),
        node,
    );
    let m = job_manifest(done, ctime, mtime);
    assert forall|k: int| 0 <= k < m.chunks.len() implies (#[trigger] m.chunks[k]).msg
        == locators[k] && m.chunks[k].msg != stale by {
        assert(done.refs[k] == chunk_ref(j.payload, j.plan, k, locators[k]));
    }
}

/// The reconciler's durable state: the manifest history, the heads, and the
/// log of intents.
pub struct Reconciler {
    pub manifests: ManifestStore,
    pub heads: HeadStore,
    pub wal: Wal,
}

impl View for Reconciler {
    type V = ReconcilerView;

    open spec fn view(&self) -> ReconcilerView {
        ReconcilerView { manifests: self.manifests@, heads: self.heads@, wal: self.wal@ }
    }
}

impl Reconciler {
    /// The stores are well formed and every head refers to a committed
    /// manifest.
    pub open spec fn inv(&self) -> bool {
        self.heads.wf() && state_wf(self@)
    }

    /// A reconciler over empty stores.
    pub fn new() -> (r: Self)
        ensures
            r.inv(),
            r@ == (ReconcilerView {
                manifests: Seq::empty(),
                heads: Map::empty(),
                wal: Seq::empty(),
            }),
    {
        Reconciler { manifests: ManifestStore::new(), heads: HeadStore::new(), wal: Wal::new() }
    }

    /// Compares a file whose content bears `local_cid` with the committed
    /// version of `path`.
    pub fn diff(&self, path: &str, local_cid: &str) -> (d: Diff)
        requires
            self.inv(),
        ensures
            d@ == diff_of(self@, path@, local_cid@),
    {
        match self.heads.load(path) {
            None => Diff::Changed { head: None },
            Some(h) => {
                let same = match self.manifests.get(h.head.as_str()) {
                    Some(n) => match &n.manifest {
                        Manifest::File(m) => m.file_cid == String::from_str(local_cid),
                        Manifest::Dir(_) => false,
                    },
                    None => false,
                };
                if same {
                    Diff::Unchanged
                } else {
                    Diff::Changed { head: Some(h.head) }
                }
            },
        }
    }

    /// Compares a directory manifest built from the local tree with the
    /// committed version of `path`.
    pub fn diff_dir(&self, path: &str, candidate: &DirManifest) -> (d: Diff)
        requires
            self.inv(),
        ensures
            d@ == dir_diff_of(self@, path@, candidate@),
    {
        match self.heads.load(path) {
            None => Diff::Changed { head: None },
            Some(h) => {
                let same = match self.manifests.get(h.head.as_str()) {
                    Some(n) => match &n.manifest {
                        Manifest::Dir(m) => m.name == candidate.name && same_children(
                            &m.children,
                            &candidate.children,
                        ),
                        Manifest::File(_) => false,
                    },
                    None => false,
                };
                if same {
                    Diff::Unchanged
                } else {
                    Diff::Changed { head: Some(h.head) }
                }
            },
        }
    }

    /// Where `path` stands for content that bears `local_cid`: clean where the
    /// committed version has that content, publishing where an intent for the
    /// path is unfinished, dirty otherwise.
    pub fn state_of(&self, path: &str, local_cid: &str) -> (state: PathState)
        requires
            self.inv(),
        ensures
            state == (if diff_of(self@, path@, local_cid@) == DiffView::Unchanged {
                PathState::Clean
            } else if has_unfinished(self@.wal, path@) {
                PathState::Publishing
            } else {
                PathState::Dirty
            }),
    {
        match self.diff(path, local_cid) {
            Diff::Unchanged => PathState::Clean,
            Diff::Changed { .. } => if self.wal.is_pending(path) {
                PathState::Publishing
            } else {
                PathState::Dirty
            },
        }
    }

    /// Begins the publish of content that bears `local_cid` as a version of
    /// `path`: does nothing where the committed version has that content,
    /// otherwise logs the intent before anything is published.
    pub fn begin(&mut self, path: &str, local_cid: &str, tmp_id: &str) -> (r: Result<Diff, WalError>)
        requires
            old(self).inv(),
        ensures
            final(self).inv(),
            final(self)@ == begin_result(old(self)@, path@, local_cid@, tmp_id@).0,
            match begin_result(old(self)@, path@, local_cid@, tmp_id@).1 {
                Ok(d) => r matches Ok(got) && got@ == d,
                Err(e) => r == Err::<Diff, WalError>(e),
            },
    {
        match self.diff(path, local_cid) {
            Diff::Unchanged => Ok(Diff::Unchanged),
            Diff::Changed { head } => {
                proof {
                    reveal_strlit("publish");
                    assert("publish"@ =~= publish_op());
                }
                match self.wal.append("publish", path, tmp_id) {
                    Err(e) => Err(e),
                    Ok(()) => Ok(Diff::Changed { head }),
                }
            },
        }
    }

    /// Commits a manifest for `path` after its parts were checked.
    fn commit_manifest(&mut self, path: &str, tmp_id: &str, manifest: Manifest, node: &str) -> (r:
        Result<String, CommitError>)
        requires
            old(self).inv(),
        ensures
            final(self).inv(),
            final(self)@ == manifest_commit_outcome(
                old(self)@,
                path@,
                tmp_id@,
                manifest@,
                node@,
            ).0,
            match manifest_commit_outcome(old(self)@, path@, tmp_id@, manifest@, node@).1 {
                Ok(cid) => r matches Ok(c) && c@ == cid,
                Err(e) => r matches Err(x) && x@ == e,
            },
    {
        proof {
            lemma_commit_keeps_state(self@, path@, tmp_id@, manifest@, node@);
        }
        let prev = match &manifest {
            Manifest::File(m) => crate::text::clone_opt_text(&m.prev),
            Manifest::Dir(m) => crate::text::clone_opt_text(&m.prev),
        };
        assert(opt_text(prev) == manifest@.prev());
        let current = self.heads.load(path);
        let agrees = match (&current, &prev) {
            (None, None) => true,
            (Some(h), Some(p)) => h.head == *p,
            _ => false,
        };
        if !agrees {
            let now = match current {
                Some(h) => Some(h.head),
                None => None,
            };
            return Err(CommitError::Conflict { current: now });
        }
        let committed = match self.manifests.commit(manifest) {
            Err(e) => {
                return Err(CommitError::Store(e));
            },
            Ok(c) => c,
        };
        let expected = match &prev {
            Some(p) => Some(p.as_str()),
            None => None,
        };
        let moved = self.heads.advance(path, expected, committed.cid.as_str(), node);
        assert(moved is Ok);
        let _ = self.wal.complete(tmp_id);
        Ok(committed.cid)
    }

    /// Commits a job: builds the manifest of the new version from the
    /// acknowledged chunks, adds it to the history, advances the head of the
    /// path if it is still the head the job expects, and brings the intent to
    /// its end. Fails, changing nothing, while chunks are unacknowledged or
    /// where another writer advanced the head.
    pub fn commit_file(&mut self, job: PublishJob, ctime: i64, mtime: i64, node: &str) -> (r: Result<
        String,
        CommitError,
    >)
        requires
            old(self).inv(),
            job.wf(),
        ensures
            final(self).inv(),
            final(self)@ == commit_outcome(old(self)@, job@, ctime as int, mtime as int, node@).0,
            match commit_outcome(old(self)@, job@, ctime as int, mtime as int, node@).1 {
                Ok(cid) => r matches Ok(c) && c@ == cid,
                Err(e) => r matches Err(x) && x@ == e,
            },
    {
        if !job.is_complete() {
            return Err(CommitError::Incomplete);
        }
        let ghost want = job_manifest(job@, ctime as int, mtime as int);
        let PublishJob { path, tmp_id, name, prepared, expected_prev, refs } = job;
        let Prepared { payload: _, plan: _, file_cid, size, z, enc } = prepared;
        assert(chunks_in_order(chunk_views(refs@)));
        let built = build_file_manifest(name, size, refs, file_cid, enc, z, ctime, mtime, expected_prev);
        match built {
            Err(_) => {
                assert(false);
                Err(CommitError::Incomplete)
            },
            Ok(m) => {
                assert(m@ == want);
                self.commit_manifest(path.as_str(), tmp_id.as_str(), Manifest::File(m), node)
            },
        }
    }

    /// Commits the manifest of a directory once every child it refers to is
    /// committed: adds it to the history, advances the head of the path if it
    /// is still the manifest's `prev`, and brings the intent to its end.
    pub fn commit_dir(&mut self, path: &str, tmp_id: &str, manifest: DirManifest, node: &str) -> (r:
        Result<String, CommitError>)
        requires
            old(self).inv(),
        ensures
            final(self).inv(),
            final(self)@ == dir_commit_outcome(old(self)@, path@, tmp_id@, manifest@, node@).0,
            match dir_commit_outcome(old(self)@, path@, tmp_id@, manifest@, node@).1 {
                Ok(cid) => r matches Ok(c) && c@ == cid,
                Err(e) => r matches Err(x) && x@ == e,
            },
    {
        let ghost cv = manifest@.children;
        let mut k: usize = 0;
        while k < manifest.children.len()
            invariant
                k <= manifest.children@.len(),
                cv == manifest@.children,
                self.inv(),
                *self == *old(self),
                forall|i: int|
                    0 <= i < k ==> has_cid(self@.manifests, (#[trigger] cv[i]).manifest) && (
                    self@.manifests[place_of(self@.manifests, cv[i].manifest)].manifest is File)
                        == (cv[i].t == file_kind()),
            decreases manifest.children@.len() - k,
        {
            let child = &manifest.children[k];
            assert(child@ == cv[k as int]);
            let fits = match self.manifests.get(child.manifest.as_str()) {
                None => false,
                Some(n) => {
                    let is_file = match &n.manifest {
                        Manifest::File(_) => true,
                        Manifest::Dir(_) => false,
                    };
                    is_file == is_file_kind(&child.t)
                },
            };
            if !fits {
                return Err(CommitError::ChildNotCommitted);
            }
            k += 1;
        }
        self.commit_manifest(path, tmp_id, Manifest::Dir(manifest), node)
    }

    /// Startup recovery: takes the interrupted intents out of the log and
    /// returns them, so that what was published for them can be set aside and
    /// their paths compared again. Manifests and heads are not touched.
    pub fn recover(&mut self) -> (interrupted: Vec<WalEntry>)
        requires
            old(self).inv(),
        ensures
            final(self).inv(),
            final(self)@ == recovered(old(self)@),
            entry_views(interrupted@) == unfinished(old(self)@.wal),
    {
        self.wal.quarantine()
    }
}

} // verus!
