use filecord::wal::Wal;
use filecord::wal::WalEntry;
use filecord::wal::WalError;

fn ids(entries: &[WalEntry]) -> Vec<String> {
    entries.iter().map(|e| e.tmp_id.clone()).collect()
}

#[test]
fn a_fresh_intent_is_pending() {
    let e = WalEntry::pending("publish", "a/b", "tmp-1");
    assert_eq!(e.op, "publish");
    assert_eq!(e.path, "a/b");
    assert_eq!(e.tmp_id, "tmp-1");
    assert_eq!(e.state, "PENDING");
    assert!(!e.is_complete());
    let done = e.completed();
    assert_eq!(done.state, "COMPLETE");
    assert!(done.is_complete());
    assert_eq!((done.op.as_str(), done.path.as_str(), done.tmp_id.as_str()), ("publish", "a/b", "tmp-1"));
    let copy = e.duplicate();
    assert_eq!(copy.state, "PENDING");
}

#[test]
fn only_the_exact_word_is_complete() {
    let mut e = WalEntry::pending("publish", "p", "t");
    for state in ["complete", "COMPLETED", "", "DONE", "PENDING"] {
        e.state = state.to_string();
        assert!(!e.is_complete());
    }
}

#[test]
fn intents_are_logged_in_order() {
    let mut w = Wal::new();
    assert_eq!(w.len(), 0);
    assert_eq!(w.append("publish", "a", "t1"), Ok(()));
    assert_eq!(w.append("publish", "b", "t2"), Ok(()));
    assert_eq!(w.len(), 2);
    assert!(w.has_id("t1") && w.has_id("t2") && !w.has_id("t3"));
    assert!(w.is_pending("a") && w.is_pending("b") && !w.is_pending("c"));
    assert_eq!(ids(&w.interrupted()), vec!["t1", "t2"]);
}

#[test]
fn a_temporary_identifier_is_used_once() {
    let mut w = Wal::new();
    assert_eq!(w.append("publish", "a", "t1"), Ok(()));
    assert_eq!(w.append("publish", "b", "t1"), Err(WalError::IdInUse));
    assert_eq!(w.len(), 1);
    assert!(w.complete("t1"));
    assert_eq!(w.append("publish", "a", "t1"), Err(WalError::IdInUse));
}

#[test]
fn completing_an_intent_ends_it() {
    let mut w = Wal::new();
    w.append("publish", "a", "t1").unwrap();
    w.append("publish", "b", "t2").unwrap();
    w.append("publish", "a", "t3").unwrap();
    assert!(w.complete("t1"));
    assert!(w.is_pending("a"));
    assert!(w.complete("t3"));
    assert!(!w.is_pending("a"));
    assert!(w.is_pending("b"));
    assert!(!w.complete("unknown"));
    assert_eq!(w.len(), 3);
    assert_eq!(ids(&w.interrupted()), vec!["t2"]);
    assert!(w.complete("t1"));
}

#[test]
fn quarantine_takes_out_the_interrupted_intents() {
    let mut w = Wal::new();
    for (p, t) in [("a", "t1"), ("b", "t2"), ("c", "t3"), ("d", "t4")] {
        w.append("publish", p, t).unwrap();
    }
    w.complete("t2");
    w.complete("t4");
    let out = w.quarantine();
    assert_eq!(ids(&out), vec!["t1", "t3"]);
    assert!(out.iter().all(|e| e.state == "PENDING"));
    assert_eq!(w.len(), 2);
    assert!(w.has_id("t2") && w.has_id("t4") && !w.has_id("t1"));
    assert!(w.interrupted().is_empty());
    assert!(w.quarantine().is_empty());
    assert_eq!(w.len(), 2);
    assert_eq!(w.append("publish", "a", "t1"), Ok(()));
}

#[test]
fn a_log_read_back_holds_the_same_intents() {
    let mut w = Wal::new();
    w.append("publish", "a", "t1").unwrap();
    w.append("publish", "b", "t2").unwrap();
    w.complete("t1");
    let saved = w.entries();
    assert_eq!(ids(&saved), vec!["t1", "t2"]);
    assert_eq!(saved[0].state, "COMPLETE");
    assert_eq!(saved[1].state, "PENDING");
    let mut back = Wal::from_entries(saved);
    assert_eq!(back.len(), 2);
    assert!(back.has_id("t1") && back.has_id("t2"));
    assert!(!back.is_pending("a") && back.is_pending("b"));
    assert_eq!(ids(&back.interrupted()), vec!["t2"]);
    assert_eq!(back.append("publish", "c", "t2"), Err(WalError::IdInUse));
    assert_eq!(Wal::from_entries(Vec::new()).len(), 0);
}
