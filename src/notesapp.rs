//! One operation per command of the program, each giving the status line to print.
//!
//! The caller reads the backing file before an operation, writes
//! `db.backup_contents()` to `db.path` after one that changed the notes, and
//! then prints what the operation returned.
use vstd::prelude::*;

use crate::codec::{decimal, push_decimal};
use crate::db::{file_notes, find_id, Datastore};
use crate::errors::DatastoreError;
use crate::note::Note;

verus! {

/// The backing file used when no other is named.
pub const DEFAULT_PATH: &'static str = "notes.txt";

/// The text as `{:?}` prints a string: in double quotes, with escapes.
pub uninterp spec fn debug_of(s: Seq<char>) -> Seq<char>;

/// Relies on `<str as Debug>::fmt`, which writes the text between double quotes
/// with quotes, backslashes and control characters escaped; the result depends
/// on the text alone.
#[verifier::external_body]
fn debug_quoted(s: &str) -> (r: String)
    ensures
        r@ == debug_of(s@),
{
    format!("{:?}", s)
}

pub open spec fn added_line(text: Seq<char>) -> Seq<char> {
    "added new note: "@ + debug_of(text)
}

pub open spec fn listed_line(n: (usize, Seq<char>)) -> Seq<char> {
    decimal(n.0 as nat) + ": "@ + n.1
}

pub open spec fn removed_line(id: usize, text: Seq<char>) -> Seq<char> {
    "removed note "@ + decimal(id as nat) + ": "@ + text
}

pub open spec fn updated_line(id: usize, before: Seq<char>, after: Seq<char>) -> Seq<char> {
    "updated note "@ + decimal(id as nat) + " from '"@ + before + "' to '"@ + after + "'"@
}

pub struct NotesApp {
    pub db: Datastore,
}

impl NotesApp {
    /// The notes kept in `notes.txt`, whose contents are `contents`.
    pub fn new(contents: Option<String>) -> (r: NotesApp)
        ensures
            r.db.path@ == DEFAULT_PATH@,
            r.db@ == file_notes(contents),
    {
        NotesApp::new_at(None, contents)
    }

    /// The notes kept in the file `db_name`, or `notes.txt` when none is named,
    /// whose contents are `contents`.
    pub fn new_at(db_name: Option<String>, contents: Option<String>) -> (r: NotesApp)
        ensures
            r.db.path@ == (match db_name {
                Some(p) => p@,
                None => DEFAULT_PATH@,
            }),
            r.db@ == file_notes(contents),
    {
        let db_name = match db_name {
            Some(p) => p,
            None => DEFAULT_PATH.to_owned(),
        };
        let db = Datastore::new(db_name, contents);
        NotesApp { db }
    }

    /// Adds a note with the text `buf` after reloading from `on_disk`.
    pub fn add(&mut self, buf: String, on_disk: Option<String>) -> (r: String)
        ensures
            final(self).db.path == old(self).db.path,
            final(self).db@ == file_notes(on_disk).push((file_notes(on_disk).len() as usize, buf@)),
            r@ == added_line(buf@),
    {
        self.db.add(buf.as_str(), on_disk);
        let mut line = "added new note: ".to_owned();
        let q = debug_quoted(buf.as_str());
        line.append(q.as_str());
        line
    }

    /// The quoted text of the first note whose id is `id`, if any.
    pub fn get_note(&self, id: usize) -> (r: Option<String>)
        ensures
            match find_id(self.db@, id) {
                Some(i) => r is Some && r->0@ == debug_of(self.db@[i as int].1),
                None => r is None,
            },
    {
        match self.db.get_note_by_id(&id) {
            Some(n) => Some(debug_quoted(n.text.as_str())),
            None => None,
        }
    }

    /// One `<id>: <text>` line for each note, in order, or `nothing to show.`
    /// when there is none.
    pub fn get_all_notes(&self) -> (r: Vec<String>)
        ensures
            self.db@.len() == 0 ==> r@.len() == 1 && r@[0]@ == "nothing to show."@,
            self.db@.len() > 0 ==> r@.len() == self.db@.len() && forall|j: int|
                0 <= j < r@.len() ==> (#[trigger] r@[j])@ == listed_line(self.db@[j]),
    {
        let mut out: Vec<String> = Vec::new();
        if self.db.notes.len() == 0 {
            out.push("nothing to show.".to_owned());
            return out;
        }
        let mut k: usize = 0;
        while k < self.db.notes.len()
            invariant
                k <= self.db.notes@.len() == self.db@.len(),
                out@.len() == k,
                forall|j: int| 0 <= j < k ==> (#[trigger] out@[j])@ == listed_line(self.db@[j]),
            decreases self.db.notes@.len() - k,
        {
            let n: &Note = &self.db.notes[k];
            let mut line = String::new();
            push_decimal(&mut line, n.id);
            line.append(": ");
            line.append(n.text.as_str());
            assert(line@ =~= listed_line(self.db@[k as int]));
            out.push(line);
            k = k + 1;
        }
        out
    }

    /// Removes the first note whose id is `id`.
    pub fn delete(&mut self, id: &usize) -> (r: Result<String, DatastoreError>)
        ensures
            final(self).db.path == old(self).db.path,
            old(self).db@.len() == 0 ==> r == Err::<String, DatastoreError>(DatastoreError::Empty)
                && final(self).db@ == old(self).db@,
            old(self).db@.len() > 0 ==> match find_id(old(self).db@, *id) {
                Some(i) => r is Ok && r->Ok_0@ == removed_line(*id, old(self).db@[i as int].1)
                    && final(self).db@ == old(self).db@.remove(i as int),
                None => r == Err::<String, DatastoreError>(DatastoreError::UnknownId { given: *id })
                    && final(self).db@ == old(self).db@,
            },
    {
        match self.db.delete(id) {
            Ok(note) => {
                let mut line = "removed note ".to_owned();
                push_decimal(&mut line, *id);
                line.append(": ");
                line.append(note.text.as_str());
                Ok(line)
            },
            Err(e) => Err(e),
        }
    }

    /// Gives the first note whose id is `id` the text `buf`.
    pub fn update(&mut self, id: usize, buf: String) -> (r: Result<String, DatastoreError>)
        ensures
            final(self).db.path == old(self).db.path,
            old(self).db@.len() == 0 ==> r == Err::<String, DatastoreError>(
                DatastoreError::NotUpdateable,
            ) && final(self).db@ == old(self).db@,
            old(self).db@.len() > 0 ==> match find_id(old(self).db@, id) {
                Some(i) => r is Ok && r->Ok_0@ == updated_line(
                    id,
                    old(self).db@[i as int].1,
                    buf@,
                ) && final(self).db@ == old(self).db@.update(i as int, (id, buf@)),
                None => r == Err::<String, DatastoreError>(DatastoreError::UnknownId { given: id })
                    && final(self).db@ == old(self).db@,
            },
    {
        proof {
            // the note found carries the id asked for
            crate::db::lemma_find_id(self.db@, id);
        }
        let text = buf.clone();
        match self.db.replace(id, Note { id, text }) {
            Ok(old_note) => {
                let mut line = "updated note ".to_owned();
                push_decimal(&mut line, old_note.id);
                line.append(" from '");
                line.append(old_note.text.as_str());
                line.append("' to '");
                line.append(buf.as_str());
                line.append("'");
                Ok(line)
            },
            Err(e) => Err(e),
        }
    }
}

} // verus!
