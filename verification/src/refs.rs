//! Head references: the pointer from a logical path to its latest manifest,
//! and the storage key a path is kept under.

use crate::manifests::HeadPointer;
use crate::manifests::HeadView;
use crate::text::clone_opt_text;
use crate::text::opt_text;
use vstd::prelude::*;
use vstd::string::StringExecFns;

verus! {

/// `String::push` appends one character to the end of the string.
pub assume_specification[ String::push ](s: &mut String, c: char)
    ensures
        final(s)@ == old(s)@.push(c),
;

/// The character a path character is stored as: a separator becomes an
/// underscore, anything else stays.
pub open spec fn sanitized_char(c: char) -> char {
    if c == '/' {
        '_'
    } else {
        c
    }
}

/// A path with every separator replaced by an underscore.
pub open spec fn sanitized(path: Seq<char>) -> Seq<char> {
    Seq::new(path.len(), |i: int| sanitized_char(path[i]))
}

/// Replaces every separator of a path, so that the result names one entry of
/// the store's namespace and no directory below or above it.
pub fn sanitize(path: &str) -> (key: String)
    ensures
        key@ == sanitized(path@),
        !key@.contains('/'),
{
    let mut key = String::new();
    for c in it: path.chars()
        invariant
            it.seq() == path@,
            key@ == sanitized(path@.take(it.index() as int)),
    {
        let ghost before = key@;
        if c == '/' {
            key.push('_');
        } else {
            key.push(c);
        }
        assert(key@ =~= sanitized(path@.take(it.index() + 1)));
    }
    assert(path@.take(path@.len() as int) =~= path@);
    assert(!key@.contains('/')) by {
        if key@.contains('/') {
            let i = choose|i: int| 0 <= i < key@.len() && key@[i] == '/';
            assert(key@[i] == sanitized_char(path@[i]));
        }
    }
    key
}

/// The end of the name of the record that holds a path's head.
pub open spec fn head_suffix() -> Seq<char> {
    seq!['.', 'h', 'e', 'a', 'd', '.', 'j', 's', 'o', 'n']
}

/// The end of the name under which a head record is written before it
/// replaces the old one.
pub open spec fn head_temp_suffix() -> Seq<char> {
    head_suffix() + seq!['.', 't', 'm', 'p']
}

/// The name of the record that holds the head of `rel_path`.
pub fn head_file_name(rel_path: &str) -> (name: String)
    ensures
        name@ == sanitized(rel_path@) + head_suffix(),
{
    proof {
        reveal_strlit(".head.json");
    }
    let mut name = sanitize(rel_path);
    name.append(".head.json");
    assert(name@ =~= sanitized(rel_path@) + head_suffix());
    name
}

/// The name under which the head of `rel_path` is written first, to be
/// renamed over the record once it is complete.
pub fn head_temp_name(rel_path: &str) -> (name: String)
    ensures
        name@ == sanitized(rel_path@) + head_temp_suffix(),
{
    proof {
        reveal_strlit(".head.json.tmp");
    }
    let mut name = sanitize(rel_path);
    name.append(".head.json.tmp");
    assert(name@ =~= sanitized(rel_path@) + head_temp_suffix());
    name
}

/// Two paths are kept in one record: the names of their head records are the
/// same.
pub open spec fn same_record(a: Seq<char>, b: Seq<char>) -> bool {
    sanitized(a) + head_suffix() == sanitized(b) + head_suffix()
}

/// When two paths share a record: exactly when they are equally long and
/// agree at every place, a separator and an underscore counting as the same
/// character. So a path shares its record with itself, `a/b` shares one with
/// `a_b`, and paths that differ in any other character never share one.
pub proof fn lemma_paths_share_record(a: Seq<char>, b: Seq<char>)
    ensures
        same_record(a, b) <==> sanitized(a) == sanitized(b),
        same_record(a, b) <==> a.len() == b.len() && forall|i: int|
            0 <= i < a.len() ==> sanitized_char(#[trigger] a[i]) == sanitized_char(b[i]),
        a == b ==> same_record(a, b),
{
    let x = sanitized(a);
    let y = sanitized(b);
    let s = head_suffix();
    if x + s == y + s {
        assert((x + s).len() == x.len() + s.len());
        assert((y + s).len() == y.len() + s.len());
        assert(x =~= (x + s).subrange(0, x.len() as int));
        assert(y =~= (y + s).subrange(0, y.len() as int));
    }
    if x == y {
        assert forall|i: int| 0 <= i < a.len() implies sanitized_char(#[trigger] a[i])
            == sanitized_char(b[i]) by {
            assert(x[i] == sanitized_char(a[i]));
            assert(y[i] == sanitized_char(b[i]));
        }
    }
    if a.len() == b.len() && forall|i: int|
        0 <= i < a.len() ==> sanitized_char(#[trigger] a[i]) == sanitized_char(b[i]) {
        assert(x =~= y);
    }
}

/// Whether two paths are kept in one record, so that a head saved for the one
/// is the head loaded for the other.
pub fn shares_record(a: &str, b: &str) -> (same: bool)
    ensures
        same == same_record(a@, b@),
{
    head_file_name(a) == head_file_name(b)
}

/// Whether the record that `path` is kept in is taken: it was written for
/// `owner`, which is another path that shares the record. A record without an
/// owner, or one written for `path` itself, is not.
pub fn record_is_taken(owner: Option<&str>, path: &str) -> (taken: bool)
    ensures
        taken == (owner matches Some(o) && o@ != path@ && same_record(o@, path@)),
{
    match owner {
        None => false,
        Some(o) => {
            let same_path = String::from_str(o) == String::from_str(path);
            !same_path && shares_record(o, path)
        },
    }
}

/// The stored form of a head pointer.
#[derive(Debug, Clone)]
pub struct HeadRef {
    pub head: String,
    pub prev: Option<String>,
    pub node: String,
}

impl View for HeadRef {
    type V = HeadView;

    open spec fn view(&self) -> HeadView {
        HeadView { head: self.head@, prev: opt_text(self.prev), node: self.node@ }
    }
}

impl Default for HeadRef {
    fn default() -> (r: Self)
        ensures
            r@ == (HeadView { head: Seq::empty(), prev: None, node: Seq::empty() }),
    {
        HeadRef { head: String::new(), prev: None, node: String::new() }
    }
}

impl HeadRef {
    /// The stored form of a head pointer.
    pub fn from_pointer(p: HeadPointer) -> (r: HeadRef)
        ensures
            r@ == p@,
    {
        HeadRef { head: p.head, prev: p.prev, node: p.node }
    }

    /// The head pointer that this record stores.
    pub fn into_pointer(self) -> (p: HeadPointer)
        ensures
            p@ == self@,
    {
        HeadPointer { head: self.head, prev: self.prev, node: self.node }
    }

    /// A copy of the record.
    pub fn duplicate(&self) -> (r: HeadRef)
        ensures
            r@ == self@,
    {
        HeadRef { head: self.head.clone(), prev: clone_opt_text(&self.prev), node: self.node.clone() }
    }
}

/// What a writer that lost the race observes: the head that is current now.
#[derive(Debug, Clone)]
pub struct HeadConflict {
    pub current: Option<String>,
}

/// The head of `path`, if it has one.
pub open spec fn current_head(heads: Map<Seq<char>, HeadView>, path: Seq<char>) -> Option<
    Seq<char>,
> {
    if heads.contains_key(path) {
        Some(heads[path].head)
    } else {
        None
    }
}

/// The pointer that replaces a head which was `expected`.
pub open spec fn advanced(expected: Option<Seq<char>>, new_head: Seq<char>, node: Seq<char>) -> HeadView {
    HeadView { head: new_head, prev: expected, node }
}

/// What an update of `path` to `new_head` yields when the writer expects the
/// head to be `expected`: the heads afterwards, or, where another head is
/// current, that head.
pub open spec fn advance_result(
    heads: Map<Seq<char>, HeadView>,
    path: Seq<char>,
    expected: Option<Seq<char>>,
    new_head: Seq<char>,
    node: Seq<char>,
) -> Result<Map<Seq<char>, HeadView>, Option<Seq<char>>> {
    if current_head(heads, path) == expected {
        Ok(heads.insert(path, advanced(expected, new_head, node)))
    } else {
        Err(current_head(heads, path))
    }
}

/// Of two updates of one path that expect the same head, the first to arrive
/// succeeds and the other observes a conflict and changes nothing, whichever
/// of them arrives first. A new head equal to the expected one is left out:
/// after such an update the head is what the other writer expects.
pub proof fn lemma_one_racing_update_wins(
    heads: Map<Seq<char>, HeadView>,
    path: Seq<char>,
    expected: Option<Seq<char>>,
    first: Seq<char>,
    first_node: Seq<char>,
    second: Seq<char>,
    second_node: Seq<char>,
)
    requires
        current_head(heads, path) == expected,
        Some(first) != expected,
        Some(second) != expected,
    ensures
        advance_result(heads, path, expected, first, first_node) matches Ok(after) && {
            &&& current_head(after, path) == Some(first)
            &&& advance_result(after, path, expected, second, second_node) == Err::<
                Map<Seq<char>, HeadView>,
                Option<Seq<char>>,
            >(Some(first))
        },
        advance_result(heads, path, expected, second, second_node) matches Ok(after) && {
            &&& current_head(after, path) == Some(second)
            &&& advance_result(after, path, expected, first, first_node) == Err::<
                Map<Seq<char>, HeadView>,
                Option<Seq<char>>,
            >(Some(second))
        },
{
}

/// Decides an update of a head from the pointer that is current: the new
/// pointer where the current head is the expected one, the conflict otherwise.
pub fn next_head(current: Option<&HeadRef>, expected: Option<&str>, new_head: &str, node: &str) -> (r:
    Result<HeadRef, HeadConflict>)
    ensures
        match r {
            Ok(h) => {
                &&& (match current {
                    Some(c) => Some(c@.head),
                    None => None,
                }) == (match expected {
                    Some(e) => Some(e@),
                    None => None,
                })
                &&& h@ == advanced(
                    match expected {
                        Some(e) => Some(e@),
                        None => None,
                    },
                    new_head@,
                    node@,
                )
            },
            Err(c) => {
                &&& (match current {
                    Some(c) => Some(c@.head),
                    None => None,
                }) != (match expected {
                    Some(e) => Some(e@),
                    None => None,
                })
                &&& opt_text(c.current) == (match current {
                    Some(c) => Some(c@.head),
                    None => None,
                })
            },
        },
{
    let agrees = match (current, expected) {
        (None, None) => true,
        (Some(c), Some(e)) => c.head == String::from_str(e),
        _ => false,
    };
    if agrees {
        let prev = match expected {
            Some(e) => Some(String::from_str(e)),
            None => None,
        };
        Ok(HeadRef { head: String::from_str(new_head), prev, node: String::from_str(node) })
    } else {
        let now = match current {
            Some(c) => Some(c.head.clone()),
            None => None,
        };
        Err(HeadConflict { current: now })
    }
}

/// One path and its head.
struct HeadEntry {
    path: String,
    head: HeadRef,
}

struct HeadEntryView {
    path: Seq<char>,
    head: HeadView,
}

impl View for HeadEntry {
    type V = HeadEntryView;

    closed spec fn view(&self) -> HeadEntryView {
        HeadEntryView { path: self.path@, head: self.head@ }
    }
}

spec fn distinct_paths(es: Seq<HeadEntryView>) -> bool {
    forall|i: int, j: int| 0 <= i < j < es.len() ==> (#[trigger] es[i]).path != (#[trigger] es[j]).path
}

spec fn has_path(es: Seq<HeadEntryView>, path: Seq<char>) -> bool {
    exists|i: int| 0 <= i < es.len() && (#[trigger] es[i]).path == path
}

spec fn as_map(es: Seq<HeadEntryView>) -> Map<Seq<char>, HeadView> {
    Map::new(
        |p: Seq<char>| has_path(es, p),
        |p: Seq<char>| es[choose|i: int| 0 <= i < es.len() && (#[trigger] es[i]).path == p].head,
    )
}

proof fn lemma_as_map_at(es: Seq<HeadEntryView>, i: int)
    requires
        distinct_paths(es),
        0 <= i < es.len(),
    ensures
        as_map(es).contains_key(es[i].path),
        as_map(es)[es[i].path] == es[i].head,
{
    let p = es[i].path;
    let c = choose|c: int| 0 <= c < es.len() && (#[trigger] es[c]).path == p;
    if c < i {
        assert(es[c].path != es[i].path);
    } else if i < c {
        assert(es[i].path != es[c].path);
    }
}

proof fn lemma_as_map_push(es: Seq<HeadEntryView>, e: HeadEntryView)
    requires
        distinct_paths(es),
        !has_path(es, e.path),
    ensures
        distinct_paths(es.push(e)),
        as_map(es.push(e)) == as_map(es).insert(e.path, e.head),
{
    let after = es.push(e);
    assert forall|i: int, j: int| 0 <= i < j < after.len() implies (#[trigger] after[i]).path != (
    #[trigger] after[j]).path by {
        if j == es.len() {
            assert(after[i] == es[i]);
        }
    }
    assert forall|p: Seq<char>| as_map(after).contains_key(p) <==> as_map(es).insert(
        e.path,
        e.head,
    ).contains_key(p) by {
        if has_path(after, p) {
            let i = choose|i: int| 0 <= i < after.len() && (#[trigger] after[i]).path == p;
            if i < es.len() {
                assert(es[i].path == p);
            }
        }
        if has_path(es, p) {
            let i = choose|i: int| 0 <= i < es.len() && (#[trigger] es[i]).path == p;
            assert(after[i].path == p);
        }
        if p == e.path {
            assert(after[es.len() as int].path == p);
        }
    }
    assert forall|p: Seq<char>| as_map(after).contains_key(p) implies as_map(after)[p] == as_map(
        es,
    ).insert(e.path, e.head)[p] by {
        let i = choose|i: int| 0 <= i < after.len() && (#[trigger] after[i]).path == p;
        lemma_as_map_at(after, i);
        if i < es.len() {
            assert(after[i] == es[i]);
            lemma_as_map_at(es, i);
        }
    }
    assert(as_map(after) =~= as_map(es).insert(e.path, e.head));
}

proof fn lemma_as_map_update(es: Seq<HeadEntryView>, k: int, head: HeadView)
    requires
        distinct_paths(es),
        0 <= k < es.len(),
    ensures
        distinct_paths(es.update(k, HeadEntryView { path: es[k].path, head })),
        as_map(es.update(k, HeadEntryView { path: es[k].path, head })) == as_map(es).insert(
            es[k].path,
            head,
        ),
{
    let e = HeadEntryView { path: es[k].path, head };
    let after = es.update(k, e);
    assert forall|i: int, j: int| 0 <= i < j < after.len() implies (#[trigger] after[i]).path != (
    #[trigger] after[j]).path by {
        assert(after[i].path == es[i].path);
        assert(after[j].path == es[j].path);
    }
    assert forall|p: Seq<char>| as_map(after).contains_key(p) <==> as_map(es).insert(
        e.path,
        head,
    ).contains_key(p) by {
        if has_path(after, p) {
            let i = choose|i: int| 0 <= i < after.len() && (#[trigger] after[i]).path == p;
            assert(es[i].path == p);
        }
        if has_path(es, p) {
            let i = choose|i: int| 0 <= i < es.len() && (#[trigger] es[i]).path == p;
            assert(after[i].path == p);
        }
        if p == e.path {
            assert(after[k].path == p);
        }
    }
    assert forall|p: Seq<char>| as_map(after).contains_key(p) implies as_map(after)[p] == as_map(
        es,
    ).insert(e.path, head)[p] by {
        let i = choose|i: int| 0 <= i < after.len() && (#[trigger] after[i]).path == p;
        lemma_as_map_at(after, i);
        if i != k {
            assert(after[i] == es[i]);
            lemma_as_map_at(es, i);
            assert(es[i].path != es[k].path) by {
                if i < k {
                    assert(es[i].path != es[k].path);
                } else {
                    assert(es[k].path != es[i].path);
                }
            }
        }
    }
    assert(as_map(after) =~= as_map(es).insert(e.path, head));
}

/// The heads of all paths, each replaced as a whole when it is updated. This
/// store keeps one head for each path. A store that keeps its records under
/// `head_file_name` keeps one head for each class of paths that `same_record`
/// puts together, and agrees with this one as long as no two paths in use
/// share a record; `shares_record` tells.
pub struct HeadStore {
    entries: Vec<HeadEntry>,
}

impl View for HeadStore {
    type V = Map<Seq<char>, HeadView>;

    closed spec fn view(&self) -> Map<Seq<char>, HeadView> {
        as_map(self.entries@.map_values(|e: HeadEntry| e@))
    }
}

impl HeadStore {
    /// No path is recorded twice.
    pub closed spec fn wf(&self) -> bool {
        distinct_paths(self.entries@.map_values(|e: HeadEntry| e@))
    }

    /// A store without heads.
    pub fn new() -> (s: Self)
        ensures
            s.wf(),
            s@ == Map::<Seq<char>, HeadView>::empty(),
    {
        let s = HeadStore { entries: Vec::new() };
        assert(s@ =~= Map::<Seq<char>, HeadView>::empty());
        s
    }

    fn find(&self, path: &str) -> (r: Option<usize>)
        requires
            self.wf(),
        ensures
            match r {
                Some(i) => {
                    &&& i < self.entries@.len()
                    &&& self.entries@[i as int].path@ == path@
                    &&& self@.contains_key(path@)
                    &&& self@[path@] == self.entries@[i as int].head@
                },
                None => !self@.contains_key(path@),
            },
    {
        let ghost es = self.entries@.map_values(|e: HeadEntry| e@);
        let wanted = String::from_str(path);
        let mut i: usize = 0;
        while i < self.entries.len()
            invariant
                i <= self.entries@.len(),
                wanted@ == path@,
                es == self.entries@.map_values(|e: HeadEntry| e@),
                distinct_paths(es),
                forall|k: int| 0 <= k < i ==> (#[trigger] es[k]).path != path@,
            decreases self.entries@.len() - i,
        {
            if self.entries[i].path == wanted {
                proof {
                    assert(es[i as int].path == path@);
                    lemma_as_map_at(es, i as int);
                }
                return Some(i);
            }
            i += 1;
        }
        None
    }

    /// The head of `path`, or `None` where it has none yet.
    pub fn load(&self, path: &str) -> (r: Option<HeadRef>)
        requires
            self.wf(),
        ensures
            match r {
                Some(h) => self@.contains_key(path@) && h@ == self@[path@],
                None => !self@.contains_key(path@),
            },
    {
        match self.find(path) {
            Some(i) => Some(self.entries[i].head.duplicate()),
            None => None,
        }
    }

    /// Replaces the head of `path`, whatever it was.
    pub fn save(&mut self, path: &str, head: HeadRef)
        requires
            old(self).wf(),
        ensures
            final(self).wf(),
            final(self)@ == old(self)@.insert(path@, head@),
    {
        let ghost es = self.entries@.map_values(|e: HeadEntry| e@);
        let entry = HeadEntry { path: String::from_str(path), head };
        match self.find(path) {
            Some(i) => {
                proof {
                    lemma_as_map_update(es, i as int, head@);
                }
                self.entries.set(i, entry);
                assert(self.entries@.map_values(|e: HeadEntry| e@) =~= es.update(i as int, entry@));
            },
            None => {
                proof {
                    lemma_as_map_push(es, entry@);
                }
                self.entries.push(entry);
                assert(self.entries@.map_values(|e: HeadEntry| e@) =~= es.push(entry@));
            },
        }
    }

    /// Updates the head of `path` to `new_head` if the head is still the one
    /// the writer expects; otherwise changes nothing and reports the head that
    /// is current.
    pub fn advance(&mut self, path: &str, expected: Option<&str>, new_head: &str, node: &str) -> (r:
        Result<(), HeadConflict>)
        requires
            old(self).wf(),
        ensures
            final(self).wf(),
            match advance_result(
                old(self)@,
                path@,
                match expected {
                    Some(e) => Some(e@),
                    None => None,
                },
                new_head@,
                node@,
            ) {
                Ok(after) => r is Ok && final(self)@ == after,
                Err(now) => r matches Err(c) && opt_text(c.current) == now && final(self)@ == old(
                    self,
                )@,
            },
    {
        let decided = match self.find(path) {
            Some(i) => next_head(Some(&self.entries[i].head), expected, new_head, node),
            None => next_head(None, expected, new_head, node),
        };
        match decided {
            Ok(head) => {
                self.save(path, head);
                Ok(())
            },
            Err(conflict) => Err(conflict),
        }
    }
}

} // verus!
