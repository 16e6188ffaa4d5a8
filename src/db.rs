//! The store: the notes in memory, in order, and the path of their backing file.
//!
//! The store reads and writes no file itself. Whoever owns it reads the file
//! and hands its contents in (`None` when there is no such file), and after
//! each change writes `backup_contents` back to `path`.
use vstd::prelude::*;

use crate::codec::{
    chars_of, lemma_round_trip, parse_contents, parse_file, parse_record, serialize, serialize_notes,
    storable_text,
};
use crate::errors::DatastoreError;
use crate::note::{notes_view, Note};

verus! {

pub struct Datastore {
    pub path: String,
    pub notes: Vec<Note>,
}

impl View for Datastore {
    type V = Seq<(usize, Seq<char>)>;

    open spec fn view(&self) -> Seq<(usize, Seq<char>)> {
        notes_view(self.notes@)
    }
}

/// The notes that a backing file holds; no file holds none.
pub open spec fn file_notes(contents: Option<String>) -> Seq<(usize, Seq<char>)> {
    match contents {
        Some(s) => parse_file(s@),
        None => Seq::empty(),
    }
}

/// The position of the first note of `ns` whose id is `id`, if any.
pub open spec fn find_id(ns: Seq<(usize, Seq<char>)>, id: usize) -> Option<nat>
    decreases ns.len(),
{
    if ns.len() == 0 {
        None
    } else if ns[0].0 == id {
        Some(0)
    } else {
        match find_id(ns.drop_first(), id) {
            Some(i) => Some(i + 1),
            None => None,
        }
    }
}

/// `find_id` gives the first position that holds `id`, and none when no note has it.
pub proof fn lemma_find_id(ns: Seq<(usize, Seq<char>)>, id: usize)
    ensures
        match find_id(ns, id) {
            Some(i) => i < ns.len() && ns[i as int].0 == id && forall|j: int|
                0 <= j < i ==> #[trigger] ns[j].0 != id,
            None => forall|j: int| 0 <= j < ns.len() ==> #[trigger] ns[j].0 != id,
        },
    decreases ns.len(),
{
    if ns.len() > 0 && ns[0].0 != id {
        let rest = ns.drop_first();
        lemma_find_id(rest, id);
        assert forall|j: int| 1 <= j < ns.len() implies ns[j].0 == rest[j - 1].0 by {}
        match find_id(rest, id) {
            Some(i) => {
                assert forall|j: int| 0 <= j < i + 1 implies #[trigger] ns[j].0 != id by {
                    if j > 0 {
                        assert(ns[j] == rest[j - 1]);
                    }
                }
            },
            None => {
                assert forall|j: int| 0 <= j < ns.len() implies #[trigger] ns[j].0 != id by {
                    if j > 0 {
                        assert(ns[j] == rest[j - 1]);
                    }
                }
            },
        }
    }
}

/// The first position that holds `id` is the only `i` with `ns[i].0 == id`
/// before which no note has `id`.
pub proof fn lemma_find_id_first(ns: Seq<(usize, Seq<char>)>, id: usize, i: int)
    requires
        0 <= i < ns.len(),
        ns[i].0 == id,
        forall|j: int| 0 <= j < i ==> #[trigger] ns[j].0 != id,
    ensures
        find_id(ns, id) == Some(i as nat),
{
    lemma_find_id(ns, id);
    match find_id(ns, id) {
        Some(k) => {
            if (k as int) < i {
                assert(ns[k as int].0 != id);
            } else if (k as int) > i {
                assert(ns[i].0 != id);
            }
        },
        None => {
            assert(ns[i].0 != id);
        },
    }
}

/// No two notes of `ns` share an id.
pub open spec fn distinct_ids(ns: Seq<(usize, Seq<char>)>) -> bool {
    forall|a: int, b: int|
        0 <= a < ns.len() && 0 <= b < ns.len() && a != b ==> #[trigger] ns[a].0 != #[trigger] ns[b].0
}

/// `f` sends each position of `small` to a position of `big` that holds the
/// same note, later positions to later ones.
pub open spec fn order_embedding(
    big: Seq<(usize, Seq<char>)>,
    small: Seq<(usize, Seq<char>)>,
    f: spec_fn(int) -> int,
) -> bool {
    &&& forall|j: int, k: int| 0 <= j < k < small.len() ==> #[trigger] f(j) < #[trigger] f(k)
    &&& forall|j: int| 0 <= j < small.len() ==> 0 <= #[trigger] f(j) < big.len() && small[j] == big[f(j)]
}

/// `small` is `big` with some notes left out, the others in the same order.
pub open spec fn kept_in_order(big: Seq<(usize, Seq<char>)>, small: Seq<(usize, Seq<char>)>) -> bool {
    exists|f: spec_fn(int) -> int| #[trigger] order_embedding(big, small, f)
}

/// Where the ids are distinct, looking up an id that a note has finds that note.
pub proof fn lemma_get_finds_unique(ns: Seq<(usize, Seq<char>)>, i: int)
    requires
        distinct_ids(ns),
        0 <= i < ns.len(),
    ensures
        find_id(ns, ns[i].0) == Some(i as nat),
{
    assert forall|j: int| 0 <= j < i implies #[trigger] ns[j].0 != ns[i].0 by {}
    lemma_find_id_first(ns, ns[i].0, i);
}

/// Where the ids are distinct, removing the note with an id leaves no note with
/// that id, and one note fewer.
pub proof fn lemma_delete_removes_id(ns: Seq<(usize, Seq<char>)>, id: usize)
    requires
        distinct_ids(ns),
        find_id(ns, id) is Some,
    ensures
        find_id(ns.remove(find_id(ns, id)->0 as int), id) is None,
        ns.remove(find_id(ns, id)->0 as int).len() == ns.len() - 1,
{
    lemma_find_id(ns, id);
    let i = find_id(ns, id)->0 as int;
    let rest = ns.remove(i);
    lemma_find_id(rest, id);
    if let Some(k) = find_id(rest, id) {
        if (k as int) < i {
            assert(rest[k as int] == ns[k as int]);
        } else {
            assert(rest[k as int] == ns[k + 1 as int]);
        }
    }
}

/// After the note with an id is given a new text with that id, looking the id
/// up finds it at the same place with the new text, and the count is unchanged.
pub proof fn lemma_update_sets_text(ns: Seq<(usize, Seq<char>)>, id: usize, t: Seq<char>)
    requires
        find_id(ns, id) is Some,
    ensures
        ({
            let i = find_id(ns, id)->0;
            let updated = ns.update(i as int, (id, t));
            &&& find_id(updated, id) == Some(i)
            &&& updated[i as int].1 == t
            &&& updated.len() == ns.len()
        }),
{
    lemma_find_id(ns, id);
    let i = find_id(ns, id)->0 as int;
    let updated = ns.update(i, (id, t));
    assert forall|j: int| 0 <= j < i implies #[trigger] updated[j].0 != id by {
        assert(updated[j] == ns[j]);
    }
    lemma_find_id_first(updated, id, i);
}

/// No change reorders the notes that it keeps: removing one keeps the others in
/// order, appending one keeps all before it, and a new text for one leaves every
/// other note in its place.
pub proof fn lemma_order_kept(ns: Seq<(usize, Seq<char>)>, i: int, n: (usize, Seq<char>))
    requires
        0 <= i < ns.len(),
    ensures
        kept_in_order(ns, ns.remove(i)),
        kept_in_order(ns.push(n), ns),
        ns.update(i, n).remove(i) == ns.remove(i),
{
    let small = ns.remove(i);
    let f = |j: int| if j < i { j } else { j + 1 };
    assert forall|j: int| 0 <= j < small.len() implies 0 <= #[trigger] f(j) < ns.len() && small[j]
        == ns[f(j)] by {}
    assert(order_embedding(ns, small, f));
    let g = |j: int| j;
    assert forall|j: int| 0 <= j < ns.len() implies 0 <= #[trigger] g(j) < ns.push(n).len() && ns[j]
        == ns.push(n)[g(j)] by {}
    assert(order_embedding(ns.push(n), ns, g));
    assert(ns.update(i, n).remove(i) =~= ns.remove(i));
}

/// A store opened on the contents written from another holds the same notes,
/// in the same order, when no text holds a line feed or a `|`, or ends in a
/// carriage return.
pub proof fn lemma_reopen(store: Datastore, contents: String)
    requires
        contents@ == serialize(store@),
        forall|i: int| 0 <= i < store@.len() ==> storable_text(#[trigger] store@[i].1),
    ensures
        file_notes(Some(contents)) == store@,
{
    lemma_round_trip(store@);
}

impl Datastore {
    /// A store at `path` that holds what the file `contents` hold.
    pub fn new(path: String, contents: Option<String>) -> (r: Datastore)
        ensures
            r.path == path,
            r@ == file_notes(contents),
    {
        let mut store = Datastore { path, notes: Vec::new() };
        store.read_backup(contents);
        store
    }

    /// The note that one line of the backing file holds, if any.
    pub fn line_as_note(&self, line: &str) -> (r: Option<Note>)
        ensures
            crate::codec::parse_line(line@) == (match r {
                Some(n) => Some(n@),
                None => None,
            }),
    {
        let v = chars_of(line);
        assert(v@.subrange(0, v@.len() as int) =~= line@);
        parse_record(&v, 0, v.len())
    }

    /// Replaces the notes with those that the file `contents` hold; returns their count.
    pub fn read_backup(&mut self, contents: Option<String>) -> (r: usize)
        ensures
            final(self).path == old(self).path,
            final(self)@ == file_notes(contents),
            r == final(self)@.len(),
    {
        let notes = match contents {
            Some(s) => parse_contents(s.as_str()),
            None => Vec::new(),
        };
        assert(notes_view(notes@).len() == notes@.len());
        self.notes = notes;
        self.notes.len()
    }

    /// What the backing file must hold to store the notes, in order.
    pub fn backup_contents(&self) -> (r: String)
        ensures
            r@ == serialize(self@),
    {
        serialize_notes(&self.notes)
    }

    /// Reloads from the file `on_disk`, then appends a note with the text `buf`
    /// whose id is the number of notes that were read. Returns the new note.
    pub fn add(&mut self, buf: &str, on_disk: Option<String>) -> (r: Note)
        ensures
            final(self).path == old(self).path,
            r@ == (file_notes(on_disk).len() as usize, buf@),
            final(self)@ == file_notes(on_disk).push(r@),
    {
        let id = self.read_backup(on_disk);
        let n = Note { id, text: buf.to_owned() };
        let ghost before = self.notes@;
        self.notes.push(n.clone());
        assert(notes_view(self.notes@) =~= notes_view(before).push(n@));
        n
    }

    /// The position of the first note whose id is `id`.
    pub fn get_index_by_id(&self, id: &usize) -> (r: Option<usize>)
        ensures
            match r {
                Some(i) => find_id(self@, *id) == Some(i as nat),
                None => find_id(self@, *id) is None,
            },
    {
        let mut i: usize = 0;
        while i < self.notes.len()
            invariant
                i <= self.notes@.len(),
                forall|j: int| 0 <= j < i ==> #[trigger] self@[j].0 != *id,
            decreases self.notes@.len() - i,
        {
            if self.notes[i].id == *id {
                proof {
                    lemma_find_id_first(self@, *id, i as int);
                }
                return Some(i);
            }
            i = i + 1;
        }
        proof {
            lemma_find_id(self@, *id);
            if let Some(k) = find_id(self@, *id) {
                assert(self@[k as int].0 != *id);
            }
        }
        None
    }

    /// The first note whose id is `id`.
    pub fn get_note_by_id(&self, id: &usize) -> (r: Option<&Note>)
        ensures
            match find_id(self@, *id) {
                Some(i) => r is Some && r->0@ == self@[i as int],
                None => r is None,
            },
    {
        proof {
            lemma_find_id(self@, *id);
        }
        assert(self@.len() == self.notes@.len());
        match self.get_index_by_id(id) {
            Some(i) => {
                let n = &self.notes[i];
                assert(n@ == self@[i as int]);
                Some(n)
            },
            None => None,
        }
    }

    /// Removes the first note whose id is `id`, keeping the order of the others,
    /// and returns it. `Empty` when the store holds no note, else `UnknownId`
    /// when no note has that id; the store is then unchanged.
    pub fn delete(&mut self, id: &usize) -> (r: Result<Note, DatastoreError>)
        ensures
            final(self).path == old(self).path,
            old(self)@.len() == 0 ==> r == Err::<Note, DatastoreError>(DatastoreError::Empty)
                && final(self)@ == old(self)@,
            old(self)@.len() > 0 ==> match find_id(old(self)@, *id) {
                Some(i) => r is Ok && r->Ok_0@ == old(self)@[i as int] && final(self)@ == old(
                    self,
                )@.remove(i as int),
                None => r == Err::<Note, DatastoreError>(DatastoreError::UnknownId { given: *id })
                    && final(self)@ == old(self)@,
            },
    {
        if self.notes.len() == 0 {
            return Err(DatastoreError::Empty);
        }
        proof {
            lemma_find_id(self@, *id);
        }
        assert(self@.len() == self.notes@.len());
        match self.get_index_by_id(id) {
            Some(idx) => {
                let ghost before = self.notes@;
                let n = self.notes.remove(idx);
                assert(notes_view(self.notes@) =~= notes_view(before).remove(idx as int));
                Ok(n)
            },
            None => Err(DatastoreError::UnknownId { given: *id }),
        }
    }

    /// Puts `newnote` in place of the first note whose id is `id` and returns the
    /// note it replaced. `NotUpdateable` when the store holds no note, else
    /// `UnknownId` when no note has that id; the store is then unchanged.
    pub fn replace(&mut self, id: usize, newnote: Note) -> (r: Result<Note, DatastoreError>)
        ensures
            final(self).path == old(self).path,
            old(self)@.len() == 0 ==> r == Err::<Note, DatastoreError>(
                DatastoreError::NotUpdateable,
            ) && final(self)@ == old(self)@,
            old(self)@.len() > 0 ==> match find_id(old(self)@, id) {
                Some(i) => r is Ok && r->Ok_0@ == old(self)@[i as int] && final(self)@ == old(
                    self,
                )@.update(i as int, newnote@),
                None => r == Err::<Note, DatastoreError>(DatastoreError::UnknownId { given: id })
                    && final(self)@ == old(self)@,
            },
    {
        if self.notes.len() == 0 {
            return Err(DatastoreError::NotUpdateable);
        }
        proof {
            lemma_find_id(self@, id);
        }
        assert(self@.len() == self.notes@.len());
        match self.get_index_by_id(&id) {
            Some(idx) => {
                let ghost before = self.notes@;
                let ghost nv = newnote@;
                let mut old_note = newnote;
                std::mem::swap(&mut self.notes[idx], &mut old_note);
                assert(notes_view(self.notes@) =~= notes_view(before).update(idx as int, nv));
                Ok(old_note)
            },
            None => Err(DatastoreError::UnknownId { given: id }),
        }
    }
}

} // verus!
