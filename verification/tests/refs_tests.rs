use filecord::manifests::HeadPointer;
use filecord::refs::head_file_name;
use filecord::refs::head_temp_name;
use filecord::refs::next_head;
use filecord::refs::record_is_taken;
use filecord::refs::sanitize;
use filecord::refs::shares_record;
use filecord::refs::HeadRef;
use filecord::refs::HeadStore;

#[test]
fn separators_become_underscores() {
    assert_eq!(sanitize("a/b/c.txt"), "a_b_c.txt");
    assert_eq!(sanitize("../../etc/passwd"), ".._.._etc_passwd");
    assert_eq!(sanitize("/"), "_");
    assert_eq!(sanitize("///"), "___");
    assert_eq!(sanitize(""), "");
    assert_eq!(sanitize("plain"), "plain");
    assert_eq!(sanitize("a_b"), "a_b");
    assert_eq!(sanitize("dé/日本"), "dé_日本");
    assert_eq!(sanitize("a\\b"), "a\\b");
}

#[test]
fn sanitized_key_has_no_separator_and_the_same_length() {
    for p in ["x/y", "/lead", "trail/", "a//b", "no separators", "é/é"] {
        let key = sanitize(p);
        assert!(!key.contains('/'));
        assert_eq!(key.chars().count(), p.chars().count());
    }
}

#[test]
fn head_records_are_named_after_the_sanitized_path() {
    assert_eq!(head_file_name("docs/a.txt"), "docs_a.txt.head.json");
    assert_eq!(head_temp_name("docs/a.txt"), "docs_a.txt.head.json.tmp");
    assert_eq!(head_file_name(""), ".head.json");
}

#[test]
fn default_head_is_empty() {
    let h = HeadRef::default();
    assert_eq!(h.head, "");
    assert!(h.prev.is_none());
    assert_eq!(h.node, "");
}

#[test]
fn head_pointer_and_record_convert_both_ways() {
    let p = HeadPointer {
        head: "blake3:h".to_string(),
        prev: Some("blake3:p".to_string()),
        node: "thread-1".to_string(),
    };
    let r = HeadRef::from_pointer(p);
    assert_eq!((r.head.as_str(), r.prev.as_deref(), r.node.as_str()), ("blake3:h", Some("blake3:p"), "thread-1"));
    let copy = r.duplicate();
    let back = r.into_pointer();
    assert_eq!((back.head.as_str(), back.prev.as_deref(), back.node.as_str()), ("blake3:h", Some("blake3:p"), "thread-1"));
    assert_eq!(copy.head, "blake3:h");
}

#[test]
fn first_head_needs_no_expectation() {
    let h = next_head(None, None, "blake3:1", "t").unwrap();
    assert_eq!(h.head, "blake3:1");
    assert!(h.prev.is_none());
    assert_eq!(h.node, "t");
}

#[test]
fn next_head_records_the_head_it_replaces() {
    let cur = HeadRef { head: "blake3:1".to_string(), prev: None, node: "t".to_string() };
    let h = next_head(Some(&cur), Some("blake3:1"), "blake3:2", "t2").unwrap();
    assert_eq!(h.head, "blake3:2");
    assert_eq!(h.prev.as_deref(), Some("blake3:1"));
    assert_eq!(h.node, "t2");
}

#[test]
fn stale_expectation_is_a_conflict() {
    let cur = HeadRef { head: "blake3:2".to_string(), prev: Some("blake3:1".to_string()), node: "t".to_string() };
    let c = next_head(Some(&cur), Some("blake3:1"), "blake3:3", "t").unwrap_err();
    assert_eq!(c.current.as_deref(), Some("blake3:2"));
    let c = next_head(Some(&cur), None, "blake3:3", "t").unwrap_err();
    assert_eq!(c.current.as_deref(), Some("blake3:2"));
    let c = next_head(None, Some("blake3:1"), "blake3:3", "t").unwrap_err();
    assert!(c.current.is_none());
}

#[test]
fn store_loads_what_was_saved() {
    let mut s = HeadStore::new();
    assert!(s.load("a").is_none());
    s.save("a", HeadRef { head: "h1".to_string(), prev: None, node: "n".to_string() });
    s.save("b", HeadRef { head: "h2".to_string(), prev: None, node: "m".to_string() });
    assert_eq!(s.load("a").unwrap().head, "h1");
    assert_eq!(s.load("b").unwrap().head, "h2");
    assert!(s.load("c").is_none());
    s.save("a", HeadRef { head: "h3".to_string(), prev: Some("h1".to_string()), node: "n".to_string() });
    let a = s.load("a").unwrap();
    assert_eq!((a.head.as_str(), a.prev.as_deref(), a.node.as_str()), ("h3", Some("h1"), "n"));
    assert_eq!(s.load("b").unwrap().head, "h2");
}

#[test]
fn paths_that_differ_only_in_separators_have_their_own_heads() {
    let mut s = HeadStore::new();
    s.save("a/b", HeadRef { head: "h1".to_string(), prev: None, node: "n".to_string() });
    assert!(s.load("a_b").is_none());
}

#[test]
fn of_two_racing_updates_one_wins() {
    let mut s = HeadStore::new();
    assert!(s.advance("p", None, "v1", "n").is_ok());
    let first = s.advance("p", Some("v1"), "v2-first", "n");
    let second = s.advance("p", Some("v1"), "v2-second", "n");
    assert!(first.is_ok());
    let lost = second.unwrap_err();
    assert_eq!(lost.current.as_deref(), Some("v2-first"));
    let h = s.load("p").unwrap();
    assert_eq!((h.head.as_str(), h.prev.as_deref()), ("v2-first", Some("v1")));
    assert!(s.advance("p", Some("v2-first"), "v3", "n").is_ok());
    assert_eq!(s.load("p").unwrap().head, "v3");
}

#[test]
fn racing_creations_of_a_head_conflict_too() {
    let mut s = HeadStore::new();
    assert!(s.advance("p", None, "a", "n").is_ok());
    let lost = s.advance("p", None, "b", "n").unwrap_err();
    assert_eq!(lost.current.as_deref(), Some("a"));
    assert_eq!(s.load("p").unwrap().head, "a");
    let lost = s.advance("q", Some("a"), "b", "n").unwrap_err();
    assert!(lost.current.is_none());
    assert!(s.load("q").is_none());
}

#[test]
fn paths_share_a_record_when_only_separators_and_underscores_differ() {
    assert!(shares_record("a/b", "a_b"));
    assert!(shares_record("a_b", "a/b"));
    assert!(shares_record("a/b/c", "a_b/c"));
    assert!(shares_record("x", "x"));
    assert!(shares_record("", ""));
    assert!(shares_record("/", "_"));
    assert!(!shares_record("a/b", "a-b"));
    assert!(!shares_record("a/b", "a/b/"));
    assert!(!shares_record("a", "b"));
    assert!(!shares_record("", "_"));
    assert!(!shares_record("a/b", "b/a"));
    for (a, b) in [("a/b", "a_b"), ("a/b", "a.b"), ("p", "p"), ("dé/x", "dé_x")] {
        assert_eq!(shares_record(a, b), head_file_name(a) == head_file_name(b));
        assert_eq!(shares_record(a, b), sanitize(a) == sanitize(b));
    }
}

#[test]
fn a_record_written_for_another_path_is_taken() {
    assert!(record_is_taken(Some("a/b"), "a_b"));
    assert!(record_is_taken(Some("a_b"), "a/b"));
    assert!(record_is_taken(Some("/"), "_"));
    assert!(!record_is_taken(Some("a/b"), "a/b"));
    assert!(!record_is_taken(Some(""), ""));
    assert!(!record_is_taken(None, "a/b"));
    assert!(!record_is_taken(None, ""));
    assert!(!record_is_taken(Some("x/y"), "a/b"));
    assert!(!record_is_taken(Some("a/b"), "a/b/"));
}
