use filecord::hash::cid_blake3;
use filecord::manifests::build_dir_manifest;
use filecord::manifests::DirChild;
use filecord::pipeline::assemble;
use filecord::pipeline::prepare_payload;
use filecord::pipeline::restore_payload;
use filecord::reconcile::disposition;
use filecord::reconcile::disposition_event;
use filecord::reconcile::next_action;
use filecord::reconcile::Disposition;
use filecord::reconcile::ErrorClass;
use filecord::reconcile::transition;
use filecord::reconcile::Action;
use filecord::reconcile::CommitError;
use filecord::reconcile::Diff;
use filecord::reconcile::PathEvent;
use filecord::reconcile::PathState;
use filecord::reconcile::PublishJob;
use filecord::reconcile::Reconciler;
use filecord::store::Manifest;
use filecord::store::StoreError;

struct FakeTransport {
    messages: Vec<Vec<u8>>,
    fail_at: Option<usize>,
}

impl FakeTransport {
    fn new() -> Self {
        FakeTransport { messages: Vec::new(), fail_at: None }
    }

    fn publish(&mut self, bytes: Vec<u8>) -> Result<String, String> {
        if self.fail_at == Some(self.messages.len()) {
            return Err("unavailable".to_string());
        }
        self.messages.push(bytes);
        Ok(format!("msg-{}", self.messages.len() - 1))
    }

    fn fetch(&self, locator: &str) -> Vec<u8> {
        let n: usize = locator.trim_start_matches("msg-").parse().unwrap();
        self.messages[n].clone()
    }
}

fn file(n: usize, salt: u8) -> Vec<u8> {
    (0..n).map(|i| ((i * 13) % 251) as u8 ^ salt).collect()
}

fn head_of(diff: Diff) -> Option<String> {
    match diff {
        Diff::Changed { head } => head,
        Diff::Unchanged => panic!("the content differs from the committed version"),
    }
}

fn run(
    r: &mut Reconciler,
    t: &mut FakeTransport,
    path: &str,
    tmp_id: &str,
    content: &[u8],
    clock: i64,
) -> Result<Option<String>, String> {
    let local = cid_blake3(content);
    let head = match r.begin(path, &local, tmp_id).map_err(|e| format!("{:?}", e))? {
        Diff::Unchanged => return Ok(None),
        Diff::Changed { head } => head,
    };
    let prepared = prepare_payload(content, None, None, 1600).map_err(|e| format!("{:?}", e))?;
    let mut job = PublishJob::start(path, tmp_id, "name", prepared, head).unwrap();
    while let Some(bytes) = job.next_bytes() {
        let locator = t.publish(bytes)?;
        assert!(job.acknowledge(&locator));
    }
    r.commit_file(job, clock, clock, "thread-1").map(Some).map_err(|e| format!("{:?}", e))
}

#[test]
fn publishing_a_file_of_5000_bytes() {
    let mut r = Reconciler::new();
    let mut t = FakeTransport::new();
    let content = file(5000, 0);
    let cid = run(&mut r, &mut t, "docs/a.bin", "tmp-1", &content, 100).unwrap().unwrap();
    assert_eq!(t.messages.len(), 5);
    let sizes: Vec<usize> = t.messages.iter().map(|m| m.len()).collect();
    assert_eq!(sizes, vec![1200, 1200, 1200, 1200, 200]);
    let head = r.heads.load("docs/a.bin").unwrap();
    assert_eq!(head.head, cid);
    assert!(head.prev.is_none());
    assert_eq!(head.node, "thread-1");
    let stored = r.manifests.get(&head.head).unwrap();
    let m = match &stored.manifest {
        Manifest::File(m) => m,
        Manifest::Dir(_) => panic!("a file was published"),
    };
    assert_eq!(m.file_cid, cid_blake3(&content));
    assert_eq!(m.size, 5000);
    assert_eq!(m.chunks.len(), 5);
    let mut fetched: Vec<Vec<u8>> = Vec::new();
    for (i, c) in m.chunks.iter().enumerate() {
        assert_eq!(c.i, i);
        assert_eq!(c.msg, format!("msg-{}", i));
        let bytes = t.fetch(&c.msg);
        assert_eq!(c.cid, cid_blake3(&bytes));
        fetched.push(bytes);
    }
    let joined = assemble(&m.chunks, &fetched).unwrap();
    assert_eq!(restore_payload(&joined, false, None, &m.file_cid), Ok(content.clone()));
    assert!(m.prev.is_none());
    assert_eq!((m.ctime, m.mtime), (100, 100));
    assert!(r.wal.interrupted().is_empty());
    assert_eq!(r.wal.len(), 1);
    assert_eq!(r.state_of("docs/a.bin", &cid_blake3(&content)), PathState::Clean);
}

#[test]
fn publishing_an_unchanged_file_again_publishes_nothing() {
    let mut r = Reconciler::new();
    let mut t = FakeTransport::new();
    let content = file(5000, 1);
    run(&mut r, &mut t, "a", "tmp-1", &content, 1).unwrap().unwrap();
    let published = t.messages.len();
    let head = r.heads.load("a").unwrap().head;
    let second = run(&mut r, &mut t, "a", "tmp-2", &content, 2).unwrap();
    assert!(second.is_none());
    assert_eq!(t.messages.len(), published);
    assert_eq!(r.heads.load("a").unwrap().head, head);
    assert_eq!(r.manifests.len(), 1);
    assert_eq!(r.wal.len(), 1);
    assert!(!r.wal.has_id("tmp-2"));
}

#[test]
fn a_changed_file_gets_a_version_that_follows_the_old_one() {
    let mut r = Reconciler::new();
    let mut t = FakeTransport::new();
    let v1 = run(&mut r, &mut t, "a", "tmp-1", &file(3000, 0), 1).unwrap().unwrap();
    assert_eq!(r.state_of("a", &cid_blake3(&file(3000, 7))), PathState::Dirty);
    let v2 = run(&mut r, &mut t, "a", "tmp-2", &file(3000, 7), 2).unwrap().unwrap();
    assert_ne!(v1, v2);
    let head = r.heads.load("a").unwrap();
    assert_eq!(head.head, v2);
    assert_eq!(head.prev.as_deref(), Some(v1.as_str()));
    assert_eq!(r.manifests.history(&v2).unwrap(), vec![v2.clone(), v1.clone()]);
    let v3 = run(&mut r, &mut t, "a", "tmp-3", &file(10, 9), 3).unwrap().unwrap();
    assert_eq!(r.manifests.history(&r.heads.load("a").unwrap().head).unwrap(), vec![v3, v2, v1]);
}

#[test]
fn an_interrupted_publish_starts_over_after_restart() {
    let mut r = Reconciler::new();
    let mut t = FakeTransport::new();
    let old = file(2500, 0);
    let new = file(5000, 3);
    let v1 = run(&mut r, &mut t, "a", "tmp-1", &old, 1).unwrap().unwrap();
    let before = t.messages.len();
    t.fail_at = Some(before + 2);
    let failed = run(&mut r, &mut t, "a", "tmp-2", &new, 2);
    assert_eq!(failed, Err("unavailable".to_string()));
    assert_eq!(t.messages.len(), before + 2);
    assert_eq!(r.heads.load("a").unwrap().head, v1);
    assert_eq!(r.manifests.len(), 1);
    assert_eq!(r.state_of("a", &cid_blake3(&new)), PathState::Publishing);
    let interrupted = r.recover();
    assert_eq!(interrupted.len(), 1);
    assert_eq!(interrupted[0].tmp_id, "tmp-2");
    assert_eq!(interrupted[0].path, "a");
    assert_eq!(interrupted[0].state, "PENDING");
    assert!(r.wal.interrupted().is_empty());
    assert_eq!(r.heads.load("a").unwrap().head, v1);
    assert_eq!(r.state_of("a", &cid_blake3(&new)), PathState::Dirty);
    t.fail_at = None;
    let orphans = t.messages.len();
    let v2 = run(&mut r, &mut t, "a", "tmp-3", &new, 3).unwrap().unwrap();
    assert_eq!(t.messages.len(), orphans + 5);
    let stored = r.manifests.get(&v2).unwrap();
    match &stored.manifest {
        Manifest::File(m) => {
            assert_eq!(m.file_cid, cid_blake3(&new));
            let locators: Vec<&str> = m.chunks.iter().map(|c| c.msg.as_str()).collect();
            let expected: Vec<String> = (orphans..orphans + 5).map(|n| format!("msg-{}", n)).collect();
            assert_eq!(locators, expected);
            assert_eq!(m.prev.as_deref(), Some(v1.as_str()));
        },
        Manifest::Dir(_) => panic!("a file was published"),
    }
    assert_eq!(r.heads.load("a").unwrap().head, v2);
    assert!(r.recover().is_empty());
}

#[test]
fn replaying_an_intent_that_went_through_does_nothing() {
    let mut r = Reconciler::new();
    let mut t = FakeTransport::new();
    let content = file(4000, 2);
    run(&mut r, &mut t, "a", "tmp-1", &content, 1).unwrap().unwrap();
    let published = t.messages.len();
    r.wal.append("publish", "a", "tmp-stale").unwrap();
    let interrupted = r.recover();
    assert_eq!(interrupted.len(), 1);
    assert_eq!(r.state_of(&interrupted[0].path, &cid_blake3(&content)), PathState::Clean);
    assert!(run(&mut r, &mut t, "a", "tmp-2", &content, 2).unwrap().is_none());
    assert_eq!(t.messages.len(), published);
    assert_eq!(r.manifests.len(), 1);
}

#[test]
fn of_two_writers_that_read_the_same_head_one_commits() {
    let mut r = Reconciler::new();
    let mut t = FakeTransport::new();
    let v1 = run(&mut r, &mut t, "a", "tmp-1", &file(100, 0), 1).unwrap().unwrap();
    let mut jobs = Vec::new();
    for (tmp, salt) in [("tmp-x", 1u8), ("tmp-y", 2u8)] {
        let content = file(100, salt);
        let head = head_of(r.begin("a", &cid_blake3(&content), tmp).unwrap());
        assert_eq!(head.as_deref(), Some(v1.as_str()));
        let prepared = prepare_payload(&content, None, None, 1600).unwrap();
        let mut job = PublishJob::start("a", tmp, "name", prepared, head).unwrap();
        while let Some(bytes) = job.next_bytes() {
            let locator = t.publish(bytes).unwrap();
            job.acknowledge(&locator);
        }
        jobs.push(job);
    }
    let second = jobs.pop().unwrap();
    let first = jobs.pop().unwrap();
    let won = r.commit_file(first, 2, 2, "n").unwrap();
    let stores = r.manifests.len();
    match r.commit_file(second, 3, 3, "n") {
        Err(CommitError::Conflict { current }) => assert_eq!(current, Some(won.clone())),
        other => panic!("the second writer must see a conflict, got {:?}", other),
    }
    assert_eq!(r.heads.load("a").unwrap().head, won);
    assert_eq!(r.manifests.len(), stores);
    let left: Vec<String> = r.wal.interrupted().iter().map(|e| e.tmp_id.clone()).collect();
    assert_eq!(left, vec!["tmp-y"]);
    let retry = head_of(r.diff("a", &cid_blake3(&file(100, 2))));
    assert_eq!(retry, Some(won));
}

#[test]
fn a_job_is_not_committed_before_its_last_chunk() {
    let mut r = Reconciler::new();
    let content = file(5000, 0);
    let head = head_of(r.begin("a", &cid_blake3(&content), "tmp-1").unwrap());
    let prepared = prepare_payload(&content, None, None, 1600).unwrap();
    let mut job = PublishJob::start("a", "tmp-1", "name", prepared, head).unwrap();
    assert_eq!(job.path(), "a");
    assert_eq!(job.tmp_id(), "tmp-1");
    for i in 0..4 {
        assert_eq!(job.acknowledged(), i);
        assert!(!job.is_complete());
        let c = job.next_chunk().unwrap();
        assert_eq!((c.index, c.offset, c.size), (i, i * 1200, 1200));
        assert_eq!(job.next_bytes().unwrap(), content[i * 1200..(i + 1) * 1200].to_vec());
        assert!(job.acknowledge(&format!("m{}", i)));
    }
    match r.commit_file(job, 1, 1, "n") {
        Err(CommitError::Incomplete) => {},
        other => panic!("four of five chunks are not a version, got {:?}", other),
    }
    assert!(r.heads.load("a").is_none());
    assert_eq!(r.manifests.len(), 0);
    assert_eq!(r.wal.interrupted().len(), 1);
}

#[test]
fn a_complete_job_takes_no_further_chunk() {
    let prepared = prepare_payload(&file(10, 0), None, None, 1600).unwrap();
    let mut job = PublishJob::start("a", "t", "n", prepared, None).unwrap();
    assert!(job.acknowledge("m0"));
    assert!(job.is_complete());
    assert!(job.next_chunk().is_none());
    assert!(job.next_bytes().is_none());
    assert!(!job.acknowledge("m1"));
    assert_eq!(job.acknowledged(), 1);
}

#[test]
fn a_job_needs_a_plan_that_tiles_its_payload() {
    let mut prepared = prepare_payload(&file(3000, 0), None, None, 1600).unwrap();
    prepared.plan.pop();
    assert!(PublishJob::start("a", "t", "n", prepared, None).is_none());
    let mut prepared = prepare_payload(&file(3000, 0), None, None, 1600).unwrap();
    prepared.payload.push(0);
    assert!(PublishJob::start("a", "t", "n", prepared, None).is_none());
    let empty = prepare_payload(b"", None, None, 1600).unwrap();
    let job = PublishJob::start("a", "t", "n", empty, None).unwrap();
    assert!(job.is_complete());
}

#[test]
fn an_empty_file_is_a_version_without_chunks() {
    let mut r = Reconciler::new();
    let mut t = FakeTransport::new();
    let cid = run(&mut r, &mut t, "empty", "tmp-1", b"", 1).unwrap().unwrap();
    assert!(t.messages.is_empty());
    match &r.manifests.get(&cid).unwrap().manifest {
        Manifest::File(m) => {
            assert!(m.chunks.is_empty());
            assert_eq!(m.file_cid, cid_blake3(b""));
        },
        Manifest::Dir(_) => panic!("a file was published"),
    }
    assert!(run(&mut r, &mut t, "empty", "tmp-2", b"", 2).unwrap().is_none());
}

#[test]
fn a_used_temporary_identifier_is_refused() {
    let mut r = Reconciler::new();
    let mut t = FakeTransport::new();
    run(&mut r, &mut t, "a", "tmp-1", &file(10, 0), 1).unwrap().unwrap();
    let again = run(&mut r, &mut t, "b", "tmp-1", &file(10, 1), 2);
    assert_eq!(again, Err("IdInUse".to_string()));
    assert!(r.heads.load("b").is_none());
}

#[test]
fn a_directory_is_committed_after_its_children() {
    let mut r = Reconciler::new();
    let mut t = FakeTransport::new();
    let a = run(&mut r, &mut t, "d/a", "tmp-1", &file(10, 0), 1).unwrap().unwrap();
    let child = |name: &str, cid: &str, kind: &str| DirChild {
        t: kind.to_string(),
        name: name.to_string(),
        manifest: cid.to_string(),
        thread: "thread".to_string(),
    };
    let missing = build_dir_manifest(
        "d".to_string(), vec![child("a", &a, "file"), child("b", "blake3:none", "file")], 2, 2, None,
    )
    .unwrap();
    match r.commit_dir("d", "tmp-d0", missing, "n") {
        Err(CommitError::ChildNotCommitted) => {},
        other => panic!("a child that is not committed must stop the parent, got {:?}", other),
    }
    let wrong_kind = build_dir_manifest("d".to_string(), vec![child("a", &a, "dir")], 2, 2, None).unwrap();
    match r.commit_dir("d", "tmp-d0", wrong_kind, "n") {
        Err(CommitError::ChildNotCommitted) => {},
        other => panic!("a child of the other kind must stop the parent, got {:?}", other),
    }
    assert!(r.heads.load("d").is_none());
    let b = run(&mut r, &mut t, "d/b", "tmp-2", &file(10, 1), 1).unwrap().unwrap();
    let make = |prev: Option<String>, clock: i64| {
        build_dir_manifest(
            "d".to_string(), vec![child("b", &b, "file"), child("a", &a, "file")], clock, clock, prev,
        )
        .unwrap()
    };
    assert_eq!(head_of(r.diff_dir("d", &make(None, 2))), None);
    r.wal.append("publish", "d", "tmp-d1").unwrap();
    let d1 = r.commit_dir("d", "tmp-d1", make(None, 2), "n").unwrap();
    assert_eq!(r.heads.load("d").unwrap().head, d1);
    assert!(!r.wal.is_pending("d"));
    match r.diff_dir("d", &make(Some(d1.clone()), 3)) {
        Diff::Unchanged => {},
        Diff::Changed { .. } => panic!("the same children are the same directory"),
    }
    let grown = build_dir_manifest(
        "top".to_string(), vec![child("d", &d1, "dir"), child("a", &a, "file")], 3, 3, None,
    )
    .unwrap();
    assert_eq!(head_of(r.diff_dir("d", &grown)), Some(d1.clone()));
    let top = r.commit_dir("", "tmp-top", grown, "n").unwrap();
    assert_eq!(r.heads.load("").unwrap().head, top);
    match r.commit_dir("d", "tmp-d2", make(None, 4), "n") {
        Err(CommitError::Conflict { current }) => assert_eq!(current, Some(d1.clone())),
        other => panic!("a stale prev is a conflict, got {:?}", other),
    }
    let bad = r.commit_dir("d/a", "tmp-d3", make(Some(a.clone()), 5), "n");
    match bad {
        Err(CommitError::Store(StoreError::PrevMismatch)) => {},
        other => panic!("a directory cannot follow a file, got {:?}", other),
    }
    assert_eq!(r.heads.load("d/a").unwrap().head, a);
}

#[test]
fn the_path_of_a_publish_through_the_states() {
    let mut s = PathState::Clean;
    for (event, expected) in [
        (PathEvent::Unchanged, PathState::Clean),
        (PathEvent::Changed, PathState::Dirty),
        (PathEvent::IntentLogged, PathState::Publishing),
        (PathEvent::TransientError, PathState::Publishing),
        (PathEvent::ChunksAcknowledged, PathState::Committing),
        (PathEvent::HeadConflict, PathState::Dirty),
        (PathEvent::IntentLogged, PathState::Publishing),
        (PathEvent::ChunksAcknowledged, PathState::Committing),
        (PathEvent::HeadAdvanced, PathState::Clean),
        (PathEvent::Restart, PathState::Clean),
        (PathEvent::Changed, PathState::Dirty),
        (PathEvent::Unchanged, PathState::Clean),
        (PathEvent::Changed, PathState::Dirty),
        (PathEvent::IntentLogged, PathState::Publishing),
        (PathEvent::PermanentError, PathState::Failed),
        (PathEvent::Restart, PathState::Dirty),
    ] {
        s = transition(s, event).unwrap();
        assert_eq!(s, expected);
    }
}

#[test]
fn events_that_cannot_happen_are_refused() {
    let all_states = [
        PathState::Clean, PathState::Dirty, PathState::Publishing, PathState::Committing, PathState::Failed,
    ];
    let all_events = [
        PathEvent::Unchanged, PathEvent::Changed, PathEvent::IntentLogged,
        PathEvent::ChunksAcknowledged, PathEvent::TransientError, PathEvent::PermanentError,
        PathEvent::HeadAdvanced, PathEvent::HeadConflict, PathEvent::Restart,
    ];
    let mut allowed = 0;
    for s in all_states {
        for e in all_events {
            if let Some(next) = transition(s, e) {
                allowed += 1;
                if next == PathState::Committing {
                    assert_eq!((s, e), (PathState::Publishing, PathEvent::ChunksAcknowledged));
                }
                if e == PathEvent::HeadAdvanced {
                    assert_eq!(s, PathState::Committing);
                }
            }
        }
        assert!(transition(s, PathEvent::Restart).is_some());
    }
    assert_eq!(allowed, 16);
    assert_eq!(transition(PathState::Clean, PathEvent::HeadAdvanced), None);
    assert_eq!(transition(PathState::Dirty, PathEvent::ChunksAcknowledged), None);
    assert_eq!(transition(PathState::Publishing, PathEvent::HeadAdvanced), None);
    assert_eq!(transition(PathState::Failed, PathEvent::Changed), None);
    assert_eq!(transition(PathState::Committing, PathEvent::Restart), Some(PathState::Dirty));
    assert_eq!(transition(PathState::Committing, PathEvent::PermanentError), Some(PathState::Failed));
}

#[test]
fn each_state_has_its_action() {
    assert_eq!(next_action(PathState::Clean), Action::Rest);
    assert_eq!(next_action(PathState::Dirty), Action::LogIntent);
    assert_eq!(next_action(PathState::Publishing), Action::PublishChunks);
    assert_eq!(next_action(PathState::Committing), Action::AdvanceHead);
    assert_eq!(next_action(PathState::Failed), Action::Report);
}

#[test]
fn transient_errors_are_retried_within_the_budget() {
    assert_eq!(disposition(ErrorClass::Transient, 0, 3), Disposition::Retry);
    assert_eq!(disposition(ErrorClass::Transient, 2, 3), Disposition::Retry);
    assert_eq!(disposition(ErrorClass::Transient, 3, 3), Disposition::Fatal);
    assert_eq!(disposition(ErrorClass::Transient, 4, 3), Disposition::Fatal);
    assert_eq!(disposition(ErrorClass::Transient, 0, 0), Disposition::Fatal);
    assert_eq!(disposition(ErrorClass::Transient, u32::MAX - 1, u32::MAX), Disposition::Retry);
}

#[test]
fn conflicts_are_compared_again_within_the_budget() {
    assert_eq!(disposition(ErrorClass::Conflict, 0, 1), Disposition::Rediff);
    assert_eq!(disposition(ErrorClass::Conflict, 1, 1), Disposition::Fatal);
    assert_eq!(disposition(ErrorClass::Conflict, 5, 9), Disposition::Rediff);
}

#[test]
fn other_errors_are_fatal_at_once() {
    for class in [ErrorClass::Integrity, ErrorClass::Schema, ErrorClass::LocalIo] {
        for (attempts, budget) in [(0, 0), (0, 10), (9, 10), (10, 10)] {
            assert_eq!(disposition(class, attempts, budget), Disposition::Fatal);
        }
    }
}

#[test]
fn each_disposition_is_an_event_of_the_path() {
    assert_eq!(disposition_event(Disposition::Retry), PathEvent::TransientError);
    assert_eq!(disposition_event(Disposition::Rediff), PathEvent::HeadConflict);
    assert_eq!(disposition_event(Disposition::Fatal), PathEvent::PermanentError);
    assert_eq!(
        transition(PathState::Publishing, disposition_event(disposition(ErrorClass::Transient, 0, 2))),
        Some(PathState::Publishing)
    );
    assert_eq!(
        transition(PathState::Publishing, disposition_event(disposition(ErrorClass::Transient, 2, 2))),
        Some(PathState::Failed)
    );
    assert_eq!(
        transition(PathState::Committing, disposition_event(disposition(ErrorClass::Conflict, 0, 2))),
        Some(PathState::Dirty)
    );
    assert_eq!(
        transition(PathState::Committing, disposition_event(disposition(ErrorClass::Integrity, 0, 2))),
        Some(PathState::Failed)
    );
}
