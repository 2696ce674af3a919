//! Undo and redo at the level of whole files: each user-visible change is a
//! group of before/after snapshots of the files it touched.

use vstd::prelude::*;
use crate::text::str_equal;

verus! {

/// One file's before/after around a change; `None` means the file was absent.
#[derive(Debug)]
pub struct Entry {
    pub calendar_id: String,
    pub file_name: String,
    pub before: Option<String>,
    pub after: Option<String>,
}

/// The files one user-visible action touched, undone and redone together.
#[derive(Debug)]
pub struct Group {
    pub entries: Vec<Entry>,
}

/// Groups kept per direction.
pub const CAP: usize = 50;

/// The undo and redo stacks.
pub struct History {
    undo: Vec<Group>,
    redo: Vec<Group>,
}

pub open spec fn opt_text(o: Option<String>) -> Option<Seq<char>> {
    match o {
        Some(s) => Some(s@),
        None => None,
    }
}

/// Whether a change left the file as it was.
pub open spec fn entry_unchanged(e: Entry) -> bool {
    opt_text(e.before) == opt_text(e.after)
}

/// Whether every file of a change is left as it was.
pub open spec fn all_unchanged(entries: Seq<Entry>) -> bool {
    forall|i: int| 0 <= i < entries.len() ==> entry_unchanged(#[trigger] entries[i])
}

/// The undo stack after pushing a group, the oldest dropped beyond the cap.
pub open spec fn capped(s: Seq<Group>) -> Seq<Group> {
    if s.len() > CAP {
        s.drop_first()
    } else {
        s
    }
}

fn opt_str_eq(a: &Option<String>, b: &Option<String>) -> (r: bool)
    ensures
        r == (opt_text(*a) == opt_text(*b)),
{
    match (a, b) {
        (Some(x), Some(y)) => str_equal(x.as_str(), y.as_str()),
        (None, None) => true,
        _ => false,
    }
}

impl History {
    /// The undo stack, oldest first.
    pub closed spec fn undo_stack(self) -> Seq<Group> {
        self.undo@
    }

    /// The redo stack, oldest first.
    pub closed spec fn redo_stack(self) -> Seq<Group> {
        self.redo@
    }

    /// An empty history.
    pub fn new() -> (h: History)
        ensures
            h.undo_stack().len() == 0,
            h.redo_stack().len() == 0,
    {
        History { undo: Vec::new(), redo: Vec::new() }
    }

    /// Groups on the undo side.
    pub fn undo_len(&self) -> (n: usize)
        ensures
            n == self.undo_stack().len(),
    {
        self.undo.len()
    }

    /// Groups on the redo side.
    pub fn redo_len(&self) -> (n: usize)
        ensures
            n == self.redo_stack().len(),
    {
        self.redo.len()
    }

    /// Records a completed change. A change that left every file as it was
    /// records nothing; otherwise it goes on the undo side (the oldest group
    /// dropped beyond the cap) and the redo side empties.
    pub fn record(&mut self, entries: Vec<Entry>)
        ensures
            all_unchanged(entries@) ==> final(self).undo_stack() == old(self).undo_stack()
                && final(self).redo_stack() == old(self).redo_stack(),
            !all_unchanged(entries@) ==> final(self).undo_stack() == capped(
                old(self).undo_stack().push(Group { entries }),
            ) && final(self).redo_stack().len() == 0,
    {
        let mut i: usize = 0;
        let mut all_same = true;
        while i < entries.len()
            invariant
                i <= entries@.len(),
                all_same == (forall|j: int| 0 <= j < i ==> entry_unchanged(#[trigger] entries@[j])),
            decreases entries.len() - i,
        {
            if !opt_str_eq(&entries[i].before, &entries[i].after) {
                all_same = false;
            }
            i = i + 1;
        }
        if all_same {
            return;
        }
        self.undo.push(Group { entries });
        if self.undo.len() > CAP {
            self.undo.remove(0);
            assert(self.undo@ =~= old(self).undo@.push(Group { entries }).drop_first());
        }
        self.redo.clear();
    }

    /// Takes the most recent group off the undo side.
    pub fn pop_undo(&mut self) -> (r: Option<Group>)
        ensures
            old(self).undo_stack().len() == 0 ==> r is None && final(self).undo_stack() == old(
                self,
            ).undo_stack(),
            old(self).undo_stack().len() > 0 ==> r == Some(old(self).undo_stack().last())
                && final(self).undo_stack() == old(self).undo_stack().drop_last(),
            final(self).redo_stack() == old(self).redo_stack(),
    {
        self.undo.pop()
    }

    /// Takes the most recent group off the redo side.
    pub fn pop_redo(&mut self) -> (r: Option<Group>)
        ensures
            old(self).redo_stack().len() == 0 ==> r is None && final(self).redo_stack() == old(
                self,
            ).redo_stack(),
            old(self).redo_stack().len() > 0 ==> r == Some(old(self).redo_stack().last())
                && final(self).redo_stack() == old(self).redo_stack().drop_last(),
            final(self).undo_stack() == old(self).undo_stack(),
    {
        self.redo.pop()
    }

    /// Re-files a group after it was applied in the other direction.
    pub fn shelve(&mut self, group: Group, into_redo: bool)
        ensures
            into_redo ==> final(self).redo_stack() == old(self).redo_stack().push(group)
                && final(self).undo_stack() == old(self).undo_stack(),
            !into_redo ==> final(self).undo_stack() == old(self).undo_stack().push(group)
                && final(self).redo_stack() == old(self).redo_stack(),
    {
        if into_redo {
            self.redo.push(group);
        } else {
            self.undo.push(group);
        }
    }
}

impl Default for History {
    fn default() -> (h: History)
        ensures
            h.undo_stack().len() == 0,
            h.redo_stack().len() == 0,
    {
        History::new()
    }
}

/// A group recorded onto an undo side within the cap is what the next undo
/// takes back, and the undo side stays within the cap.
pub proof fn lemma_record_respects_cap(undo: Seq<Group>, g: Group)
    requires
        undo.len() <= CAP,
    ensures
        capped(undo.push(g)).len() <= CAP,
        capped(undo.push(g)).last() == g,
{
}

} // verus!
