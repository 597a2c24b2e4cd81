//! The write-ahead log: a record of every publish that was begun, kept until
//! the head update that ends it has succeeded.

use vstd::prelude::*;
use vstd::string::StringExecFns;

verus! {

/// The state of an intent whose head update has not succeeded yet.
pub open spec fn pending_state() -> Seq<char> {
    seq!['P', 'E', 'N', 'D', 'I', 'N', 'G']
}

/// The state of an intent whose head update has succeeded.
pub open spec fn complete_state() -> Seq<char> {
    seq!['C', 'O', 'M', 'P', 'L', 'E', 'T', 'E']
}

/// One intent: the operation, the path it works on, the temporary identifier
/// under which its chunks are published, and how far it got.
#[derive(Debug, Clone)]
pub struct WalEntry {
    pub op: String,
    pub path: String,
    pub tmp_id: String,
    pub state: String,
}

pub struct WalEntryView {
    pub op: Seq<char>,
    pub path: Seq<char>,
    pub tmp_id: Seq<char>,
    pub state: Seq<char>,
}

impl View for WalEntry {
    type V = WalEntryView;

    open spec fn view(&self) -> WalEntryView {
        WalEntryView { op: self.op@, path: self.path@, tmp_id: self.tmp_id@, state: self.state@ }
    }
}

impl WalEntryView {
    /// The intent reached its end.
    pub open spec fn is_complete(self) -> bool {
        self.state == complete_state()
    }

    /// The same intent, at its end.
    pub open spec fn completed(self) -> WalEntryView {
        WalEntryView { state: complete_state(), ..self }
    }
}

/// Some intent bears this temporary identifier.
pub open spec fn has_id(entries: Seq<WalEntryView>, tmp_id: Seq<char>) -> bool {
    exists|i: int| 0 <= i < entries.len() && (#[trigger] entries[i]).tmp_id == tmp_id
}

/// Some intent for this path has not reached its end.
pub open spec fn has_unfinished(entries: Seq<WalEntryView>, path: Seq<char>) -> bool {
    exists|i: int|
        0 <= i < entries.len() && (#[trigger] entries[i]).path == path && !entries[i].is_complete()
}

/// The log with every intent that bears `tmp_id` brought to its end.
pub open spec fn marked(entries: Seq<WalEntryView>, tmp_id: Seq<char>) -> Seq<WalEntryView> {
    Seq::new(
        entries.len(),
        |i: int|
            if entries[i].tmp_id == tmp_id {
                entries[i].completed()
            } else {
                entries[i]
            },
    )
}

/// The intents that have not reached their end, in the order they were begun.
pub open spec fn unfinished(entries: Seq<WalEntryView>) -> Seq<WalEntryView>
    decreases entries.len(),
{
    if entries.len() == 0 {
        Seq::empty()
    } else if entries.last().is_complete() {
        unfinished(entries.drop_last())
    } else {
        unfinished(entries.drop_last()).push(entries.last())
    }
}

/// The intents that have reached their end, in the order they were begun.
pub open spec fn finished(entries: Seq<WalEntryView>) -> Seq<WalEntryView>
    decreases entries.len(),
{
    if entries.len() == 0 {
        Seq::empty()
    } else if entries.last().is_complete() {
        finished(entries.drop_last()).push(entries.last())
    } else {
        finished(entries.drop_last())
    }
}

/// The views of a sequence of intents.
pub open spec fn entry_views(entries: Seq<WalEntry>) -> Seq<WalEntryView> {
    entries.map_values(|e: WalEntry| e@)
}

/// An intent is among the unfinished ones exactly when it is in the log and
/// has not reached its end; among the finished ones exactly when it is in the
/// log and has.
pub proof fn lemma_unfinished_members(entries: Seq<WalEntryView>, e: WalEntryView)
    ensures
        unfinished(entries).contains(e) <==> entries.contains(e) && !e.is_complete(),
        finished(entries).contains(e) <==> entries.contains(e) && e.is_complete(),
    decreases entries.len(),
{
    if entries.len() > 0 {
        let front = entries.drop_last();
        let last = entries.last();
        lemma_unfinished_members(front, e);
        if entries.contains(e) {
            let i = choose|i: int| 0 <= i < entries.len() && entries[i] == e;
            if i < front.len() {
                assert(front[i] == e);
            }
        }
        if front.contains(e) {
            let i = choose|i: int| 0 <= i < front.len() && front[i] == e;
            assert(entries[i] == e);
        }
        assert(entries[entries.len() - 1] == last);
        let u = unfinished(front);
        let f = finished(front);
        if last.is_complete() {
            assert(f.push(last)[f.len() as int] == last);
            if f.push(last).contains(e) {
                let i = choose|i: int| 0 <= i < f.push(last).len() && f.push(last)[i] == e;
                if i < f.len() {
                    assert(f[i] == e);
                }
            }
            if f.contains(e) {
                let i = choose|i: int| 0 <= i < f.len() && f[i] == e;
                assert(f.push(last)[i] == e);
            }
        } else {
            assert(u.push(last)[u.len() as int] == last);
            if u.push(last).contains(e) {
                let i = choose|i: int| 0 <= i < u.push(last).len() && u.push(last)[i] == e;
                if i < u.len() {
                    assert(u[i] == e);
                }
            }
            if u.contains(e) {
                let i = choose|i: int| 0 <= i < u.len() && u[i] == e;
                assert(u.push(last)[i] == e);
            }
        }
    }
}

/// Once the unfinished intents are taken out of a log, nothing unfinished is
/// left in it.
pub proof fn lemma_finished_has_no_unfinished(entries: Seq<WalEntryView>)
    ensures
        unfinished(finished(entries)) == Seq::<WalEntryView>::empty(),
        forall|path: Seq<char>| !has_unfinished(finished(entries), path),
    decreases entries.len(),
{
    if entries.len() > 0 {
        lemma_finished_has_no_unfinished(entries.drop_last());
        let f = finished(entries.drop_last());
        if entries.last().is_complete() {
            assert(f.push(entries.last()).drop_last() =~= f);
        }
    }
    let fin = finished(entries);
    assert forall|path: Seq<char>| !has_unfinished(fin, path) by {
        if has_unfinished(fin, path) {
            let i = choose|i: int|
                0 <= i < fin.len() && (#[trigger] fin[i]).path == path && !fin[i].is_complete();
            assert(fin.contains(fin[i]));
            lemma_unfinished_members(entries, fin[i]);
        }
    }
}

/// Why an intent could not be logged.
#[derive(Debug, Clone, Copy, PartialEq, Eq, Structural)]
pub enum WalError {
    /// The temporary identifier is borne by an intent already in the log.
    IdInUse,
}

impl WalEntry {
    /// A fresh intent, not yet at its end.
    pub fn pending(op: &str, path: &str, tmp_id: &str) -> (e: WalEntry)
        ensures
            e@ == (WalEntryView { op: op@, path: path@, tmp_id: tmp_id@, state: pending_state() }),
            !e@.is_complete(),
    {
        proof {
            reveal_strlit("PENDING");
        }
        let state = String::from_str("PENDING");
        assert(state@ =~= pending_state());
        assert(pending_state()[0] != complete_state()[0]);
        WalEntry {
            op: String::from_str(op),
            path: String::from_str(path),
            tmp_id: String::from_str(tmp_id),
            state,
        }
    }

    /// Whether the intent reached its end.
    pub fn is_complete(&self) -> (b: bool)
        ensures
            b == self@.is_complete(),
    {
        proof {
            reveal_strlit("COMPLETE");
        }
        let done = String::from_str("COMPLETE");
        assert(done@ =~= complete_state());
        self.state == done
    }

    /// A copy of the intent.
    pub fn duplicate(&self) -> (e: WalEntry)
        ensures
            e@ == self@,
    {
        WalEntry {
            op: self.op.clone(),
            path: self.path.clone(),
            tmp_id: self.tmp_id.clone(),
            state: self.state.clone(),
        }
    }

    /// The same intent, at its end.
    pub fn completed(&self) -> (e: WalEntry)
        ensures
            e@ == self@.completed(),
    {
        proof {
            reveal_strlit("COMPLETE");
        }
        let state = String::from_str("COMPLETE");
        assert(state@ =~= complete_state());
        WalEntry { op: self.op.clone(), path: self.path.clone(), tmp_id: self.tmp_id.clone(), state }
    }
}

/// The log of intents, in the order they were begun.
pub struct Wal {
    entries: Vec<WalEntry>,
}

impl View for Wal {
    type V = Seq<WalEntryView>;

    closed spec fn view(&self) -> Seq<WalEntryView> {
        entry_views(self.entries@)
    }
}

impl Wal {
    /// An empty log.
    pub fn new() -> (w: Self)
        ensures
            w@ == Seq::<WalEntryView>::empty(),
    {
        let w = Wal { entries: Vec::new() };
        assert(w@ =~= Seq::<WalEntryView>::empty());
        w
    }

    /// The log that holds these intents, as it was read back from storage.
    pub fn from_entries(entries: Vec<WalEntry>) -> (w: Self)
        ensures
            w@ == entry_views(entries@),
    {
        Wal { entries }
    }

    /// A copy of every intent in the log, in order, to be written to storage.
    pub fn entries(&self) -> (r: Vec<WalEntry>)
        ensures
            entry_views(r@) == self@,
    {
        let mut out: Vec<WalEntry> = Vec::new();
        let mut i: usize = 0;
        while i < self.entries.len()
            invariant
                i <= self.entries@.len(),
                entry_views(out@) == self@.take(i as int),
            decreases self.entries@.len() - i,
        {
            let ghost before = entry_views(out@);
            let copy = self.entries[i].duplicate();
            out.push(copy);
            assert(entry_views(out@) =~= before.push(copy@));
            assert(self@.take(i + 1) =~= self@.take(i as int).push(self@[i as int]));
            i += 1;
        }
        assert(self@.take(i as int) =~= self@);
        out
    }

    /// The number of intents in the log.
    pub fn len(&self) -> (n: usize)
        ensures
            n == self@.len(),
    {
        self.entries.len()
    }

    /// Whether some intent bears this temporary identifier.
    pub fn has_id(&self, tmp_id: &str) -> (b: bool)
        ensures
            b == has_id(self@, tmp_id@),
    {
        let wanted = String::from_str(tmp_id);
        let mut i: usize = 0;
        while i < self.entries.len()
            invariant
                i <= self.entries@.len(),
                wanted@ == tmp_id@,
                forall|k: int| 0 <= k < i ==> (#[trigger] self@[k]).tmp_id != tmp_id@,
            decreases self.entries@.len() - i,
        {
            if self.entries[i].tmp_id == wanted {
                assert(self@[i as int].tmp_id == tmp_id@);
                return true;
            }
            i += 1;
        }
        false
    }

    /// Whether some intent for this path has not reached its end.
    pub fn is_pending(&self, path: &str) -> (b: bool)
        ensures
            b == has_unfinished(self@, path@),
    {
        let wanted = String::from_str(path);
        let mut i: usize = 0;
        while i < self.entries.len()
            invariant
                i <= self.entries@.len(),
                wanted@ == path@,
                forall|k: int|
                    0 <= k < i ==> !((#[trigger] self@[k]).path == path@ && !self@[k].is_complete()),
            decreases self.entries@.len() - i,
        {
            if self.entries[i].path == wanted && !self.entries[i].is_complete() {
                assert(self@[i as int].path == path@ && !self@[i as int].is_complete());
                return true;
            }
            i += 1;
        }
        false
    }

    /// Logs a fresh intent, before anything is published for it.
    pub fn append(&mut self, op: &str, path: &str, tmp_id: &str) -> (r: Result<(), WalError>)
        ensures
            match r {
                Ok(()) => !has_id(old(self)@, tmp_id@) && final(self)@ == old(self)@.push(
                    WalEntryView { op: op@, path: path@, tmp_id: tmp_id@, state: pending_state() },
                ),
                Err(e) => e == WalError::IdInUse && has_id(old(self)@, tmp_id@) && final(self)@
                    == old(self)@,
            },
    {
        if self.has_id(tmp_id) {
            return Err(WalError::IdInUse);
        }
        let entry = WalEntry::pending(op, path, tmp_id);
        self.entries.push(entry);
        assert(self@ =~= old(self)@.push(entry@));
        Ok(())
    }

    /// Brings the intent that bears `tmp_id` to its end, once its head update
    /// has succeeded. Returns whether there was such an intent.
    pub fn complete(&mut self, tmp_id: &str) -> (found: bool)
        ensures
            found == has_id(old(self)@, tmp_id@),
            final(self)@ == marked(old(self)@, tmp_id@),
    {
        let wanted = String::from_str(tmp_id);
        let mut found = false;
        let mut i: usize = 0;
        while i < self.entries.len()
            invariant
                i <= self.entries@.len(),
                self.entries@.len() == old(self).entries@.len(),
                wanted@ == tmp_id@,
                found == has_id(old(self)@.take(i as int), tmp_id@),
                forall|k: int| 0 <= k < i ==> (#[trigger] self@[k]) == marked(old(self)@, tmp_id@)[k],
                forall|k: int| i <= k < self@.len() ==> (#[trigger] self@[k]) == old(self)@[k],
            decreases self.entries@.len() - i,
        {
            let ghost before = self@;
            let ghost seen = old(self)@.take(i as int);
            let ghost next = old(self)@.take(i + 1);
            let hit = self.entries[i].tmp_id == wanted;
            assert(self@[i as int] == old(self)@[i as int]);
            if hit {
                let done = self.entries[i].completed();
                self.entries.set(i, done);
                found = true;
                assert(self@ =~= before.update(i as int, done@));
            }
            proof {
                assert(next[i as int] == old(self)@[i as int]);
                assert forall|k: int| 0 <= k < seen.len() implies seen[k] == next[k] by {}
                if has_id(next, tmp_id@) && !hit {
                    let k = choose|k: int| 0 <= k < next.len() && (#[trigger] next[k]).tmp_id == tmp_id@;
                    assert(seen[k].tmp_id == tmp_id@);
                }
                if has_id(seen, tmp_id@) {
                    let k = choose|k: int| 0 <= k < seen.len() && (#[trigger] seen[k]).tmp_id == tmp_id@;
                    assert(next[k].tmp_id == tmp_id@);
                }
            }
            i += 1;
        }
        assert(old(self)@.take(i as int) =~= old(self)@);
        assert(self@ =~= marked(old(self)@, tmp_id@));
        found
    }

    /// The intents that have not reached their end: each stands for a publish
    /// that was interrupted.
    pub fn interrupted(&self) -> (r: Vec<WalEntry>)
        ensures
            entry_views(r@) == unfinished(self@),
    {
        let mut out: Vec<WalEntry> = Vec::new();
        let mut i: usize = 0;
        assert(self@.take(0) =~= Seq::<WalEntryView>::empty());
        assert(entry_views(out@) =~= unfinished(self@.take(0)));
        while i < self.entries.len()
            invariant
                i <= self.entries@.len(),
                entry_views(out@) == unfinished(self@.take(i as int)),
            decreases self.entries@.len() - i,
        {
            let ghost before = entry_views(out@);
            let ghost next = self@.take(i + 1);
            assert(next.drop_last() =~= self@.take(i as int));
            assert(next.last() == self@[i as int]);
            if !self.entries[i].is_complete() {
                let copy = self.entries[i].duplicate();
                out.push(copy);
                assert(entry_views(out@) =~= before.push(copy@));
            }
            i += 1;
        }
        assert(self@.take(i as int) =~= self@);
        out
    }

    /// Takes the interrupted intents out of the log and returns them, so that
    /// what was published for them can be set aside; the intents that reached
    /// their end stay.
    pub fn quarantine(&mut self) -> (r: Vec<WalEntry>)
        ensures
            entry_views(r@) == unfinished(old(self)@),
            final(self)@ == finished(old(self)@),
    {
        let mut out: Vec<WalEntry> = Vec::new();
        let mut kept: Vec<WalEntry> = Vec::new();
        let mut i: usize = 0;
        assert(self@.take(0) =~= Seq::<WalEntryView>::empty());
        assert(entry_views(out@) =~= unfinished(self@.take(0)));
        assert(entry_views(kept@) =~= finished(self@.take(0)));
        while i < self.entries.len()
            invariant
                i <= self.entries@.len(),
                self@ == old(self)@,
                entry_views(out@) == unfinished(self@.take(i as int)),
                entry_views(kept@) == finished(self@.take(i as int)),
            decreases self.entries@.len() - i,
        {
            let ghost out_before = entry_views(out@);
            let ghost kept_before = entry_views(kept@);
            let ghost next = self@.take(i + 1);
            assert(next.drop_last() =~= self@.take(i as int));
            assert(next.last() == self@[i as int]);
            let copy = self.entries[i].duplicate();
            if self.entries[i].is_complete() {
                kept.push(copy);
                assert(entry_views(kept@) =~= kept_before.push(copy@));
            } else {
                out.push(copy);
                assert(entry_views(out@) =~= out_before.push(copy@));
            }
            i += 1;
        }
        assert(self@.take(i as int) =~= self@);
        self.entries = kept;
        out
    }
}

} // verus!
