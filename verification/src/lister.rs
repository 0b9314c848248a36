//! Listing entries: the path lister.
//!
//! The path lister renders the location of each entry as one output
//! line. Printing is left to the caller; the lister computes the lines.

use vstd::prelude::*;

use crate::entry::Entry;
use crate::error::{StoreError, StoreErrorKind};
use crate::storeid::fs_path_of;

verus! {

/// Lists entries by their filesystem paths.
#[derive(Debug)]
pub struct PathLister {
    pub absolute: bool,
}

impl PathLister {
    /// A lister; `absolute` asks for absolute paths, which requires
    /// every listed entry to carry a base.
    pub fn new(absolute: bool) -> (r: PathLister)
        ensures
            r.absolute == absolute,
    {
        PathLister { absolute }
    }

    /// One output line per entry: its filesystem path under its own
    /// base. An entry without a base is a `FormatError`.
    pub fn list(&self, entries: &Vec<Entry>) -> (r: Result<Vec<String>, StoreError>)
        ensures
            match r {
                Ok(lines) => lines@.len() == entries@.len() && forall|i: int|
                    0 <= i < entries@.len() ==> ((#[trigger] entries@[i])@.location.base matches
                    Some(b) && lines@[i]@ == fs_path_of(b, entries@[i]@.location.path)),
                Err(e) => e.chain() == seq![StoreErrorKind::EncodingError] && exists|i: int|
                    0 <= i < entries@.len() && (#[trigger] entries@[i])@.location.base is None,
            },
    {
        let mut lines: Vec<String> = Vec::new();
        let mut i: usize = 0;
        while i < entries.len()
            invariant
                i <= entries@.len(),
                lines@.len() == i,
                forall|j: int|
                    0 <= j < i ==> ((#[trigger] entries@[j])@.location.base matches Some(b)
                    && lines@[j]@ == fs_path_of(b, entries@[j]@.location.path)),
            decreases entries@.len() - i,
        {
            match entries[i].get_location().into_pathbuf() {
                Ok(p) => {
                    lines.push(p);
                },
                Err(_) => {
                    return Err(StoreError::new(StoreErrorKind::EncodingError));
                },
            }
            i = i + 1;
        }
        Ok(lines)
    }
}

} // verus!
