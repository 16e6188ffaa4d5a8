//! A note: an id and its text.
use vstd::prelude::*;

use crate::codec::{chars_of, parse_usize, parse_usize_range};
use crate::errors::DatastoreError;

verus! {

pub struct Note {
    pub id: usize,
    pub text: String,
}

impl View for Note {
    type V = (usize, Seq<char>);

    open spec fn view(&self) -> (usize, Seq<char>) {
        (self.id, self.text@)
    }
}

impl Clone for Note {
    fn clone(&self) -> (r: Self)
        ensures
            r@ == self@,
    {
        Note { id: self.id, text: self.text.clone() }
    }
}

/// The model of a sequence of notes: each note's id and text, in order.
pub open spec fn notes_view(ns: Seq<Note>) -> Seq<(usize, Seq<char>)> {
    ns.map_values(|n: Note| n@)
}

impl Note {
    /// The id that a command-line argument names; `BadArgument` when it is
    /// absent or not a non-negative decimal integer that fits in a `usize`.
    pub fn get_id(arg: Option<&str>) -> (r: Result<usize, DatastoreError>)
        ensures
            r == (match arg {
                Some(a) => match parse_usize(a@) {
                    Some(n) => Ok(n),
                    None => Err(DatastoreError::BadArgument),
                },
                None => Err(DatastoreError::BadArgument),
            }),
    {
        match arg {
            Some(a) => {
                let v = chars_of(a);
                assert(v@.subrange(0, v@.len() as int) =~= a@);
                match parse_usize_range(&v, 0, v.len()) {
                    Some(n) => Ok(n),
                    None => Err(DatastoreError::BadArgument),
                }
            },
            None => Err(DatastoreError::BadArgument),
        }
    }
}

} // verus!
