//! The backing storage of the store.
//!
//! This is the deterministic in-memory backend: a mapping from absolute
//! path strings to text blobs, in insertion order. It offers the uniform
//! primitives the store needs — read, write, copy, rename, remove — with
//! a missing file reported as `FileNotFound`, distinctly from other
//! failures, so that callers can synthesize defaults. A disk-backed
//! deployment drives the same store by loading files into this backend
//! and writing its contents back out.

use vstd::prelude::*;

use crate::error::{StoreError, StoreErrorKind};

verus! {

/// The backing files: path to contents, in insertion order, each path
/// present at most once.
#[derive(Debug)]
pub struct FileAbstraction {
    files: Vec<(String, String)>,
}

/// The model of the backing files.
pub type FsView = Seq<(Seq<char>, Seq<char>)>;

/// The contents at `p`, if a file is there.
pub open spec fn fs_lookup(fs: FsView, p: Seq<char>) -> Option<Seq<char>>
    decreases fs.len(),
{
    if fs.len() == 0 {
        None
    } else if fs[0].0 == p {
        Some(fs[0].1)
    } else {
        fs_lookup(fs.skip(1), p)
    }
}

pub open spec fn fs_contains(fs: FsView, p: Seq<char>) -> bool {
    fs_lookup(fs, p) is Some
}

/// The files with the binding of `p` replaced in place, or appended.
pub open spec fn fs_write(fs: FsView, p: Seq<char>, c: Seq<char>) -> FsView
    decreases fs.len(),
{
    if fs.len() == 0 {
        seq![(p, c)]
    } else if fs[0].0 == p {
        seq![(p, c)] + fs.skip(1)
    } else {
        seq![fs[0]] + fs_write(fs.skip(1), p, c)
    }
}

/// The files without the binding of `p`.
pub open spec fn fs_remove(fs: FsView, p: Seq<char>) -> FsView
    decreases fs.len(),
{
    if fs.len() == 0 {
        fs
    } else if fs[0].0 == p {
        fs.skip(1)
    } else {
        seq![fs[0]] + fs_remove(fs.skip(1), p)
    }
}

/// Every path occurs at most once.
pub open spec fn fs_unique(fs: FsView) -> bool {
    forall|i: int, j: int| 0 <= i < j < fs.len() ==> (#[trigger] fs[i]).0 != (#[trigger] fs[j]).0
}

pub open spec fn files_model(v: Seq<(String, String)>) -> FsView {
    Seq::new(v.len(), |i: int| (v[i].0@, v[i].1@))
}

impl View for FileAbstraction {
    type V = FsView;

    closed spec fn view(&self) -> FsView {
        files_model(self.files@)
    }
}

proof fn lemma_fs_lookup_index(fs: FsView, p: Seq<char>, i: int)
    requires
        0 <= i < fs.len(),
        forall|j: int| 0 <= j < i ==> fs[j].0 != p,
        fs[i].0 == p,
    ensures
        fs_lookup(fs, p) == Some(fs[i].1),
    decreases fs.len(),
{
    if i > 0 {
        lemma_fs_lookup_index(fs.skip(1), p, i - 1);
    }
}

proof fn lemma_fs_lookup_none(fs: FsView, p: Seq<char>)
    requires
        forall|j: int| 0 <= j < fs.len() ==> fs[j].0 != p,
    ensures
        fs_lookup(fs, p) is None,
    decreases fs.len(),
{
    if fs.len() > 0 {
        lemma_fs_lookup_none(fs.skip(1), p);
    }
}

proof fn lemma_fs_write_index(fs: FsView, p: Seq<char>, c: Seq<char>, i: int)
    requires
        0 <= i < fs.len(),
        forall|j: int| 0 <= j < i ==> fs[j].0 != p,
        fs[i].0 == p,
    ensures
        fs_write(fs, p, c) == fs.update(i, (p, c)),
    decreases fs.len(),
{
    if i > 0 {
        lemma_fs_write_index(fs.skip(1), p, c, i - 1);
        assert(fs_write(fs, p, c) =~= fs.update(i, (p, c)));
    } else {
        assert(fs_write(fs, p, c) =~= fs.update(i, (p, c)));
    }
}

proof fn lemma_fs_write_absent(fs: FsView, p: Seq<char>, c: Seq<char>)
    requires
        forall|j: int| 0 <= j < fs.len() ==> fs[j].0 != p,
    ensures
        fs_write(fs, p, c) == fs.push((p, c)),
    decreases fs.len(),
{
    if fs.len() > 0 {
        lemma_fs_write_absent(fs.skip(1), p, c);
        assert(fs_write(fs, p, c) =~= fs.push((p, c)));
    } else {
        assert(fs_write(fs, p, c) =~= fs.push((p, c)));
    }
}

proof fn lemma_fs_remove_index(fs: FsView, p: Seq<char>, i: int)
    requires
        0 <= i < fs.len(),
        forall|j: int| 0 <= j < i ==> fs[j].0 != p,
        fs[i].0 == p,
    ensures
        fs_remove(fs, p) == fs.remove(i),
    decreases fs.len(),
{
    if i > 0 {
        lemma_fs_remove_index(fs.skip(1), p, i - 1);
        assert(fs_remove(fs, p) =~= fs.remove(i));
    } else {
        assert(fs_remove(fs, p) =~= fs.remove(i));
    }
}

/// Writing one path leaves every other path's binding unchanged.
pub proof fn lemma_fs_write_other(fs: FsView, p: Seq<char>, c: Seq<char>, q: Seq<char>)
    requires
        p != q,
    ensures
        fs_lookup(fs_write(fs, p, c), q) == fs_lookup(fs, q),
    decreases fs.len(),
{
    if fs.len() > 0 {
        if fs[0].0 == p {
            let w = seq![(p, c)] + fs.skip(1);
            assert(fs_write(fs, p, c) =~= w);
            assert(w[0] == (p, c));
            assert(w.skip(1) =~= fs.skip(1));
            assert(fs_lookup(w, q) == fs_lookup(fs.skip(1), q));
            assert(fs_lookup(fs, q) == fs_lookup(fs.skip(1), q));
        } else {
            lemma_fs_write_other(fs.skip(1), p, c, q);
            let w = seq![fs[0]] + fs_write(fs.skip(1), p, c);
            assert(fs_write(fs, p, c) =~= w);
            assert(w[0] == fs[0]);
            assert(w.skip(1) =~= fs_write(fs.skip(1), p, c));
            if fs[0].0 == q {
                assert(fs_lookup(w, q) == Some(fs[0].1));
                assert(fs_lookup(fs, q) == Some(fs[0].1));
            } else {
                assert(fs_lookup(w, q) == fs_lookup(fs_write(fs.skip(1), p, c), q));
                assert(fs_lookup(fs, q) == fs_lookup(fs.skip(1), q));
            }
        }
    } else {
        let w = seq![(p, c)];
        assert(fs_write(fs, p, c) =~= w);
        assert(w.skip(1) =~= Seq::<(Seq<char>, Seq<char>)>::empty());
        assert(fs_lookup(w, q) == fs_lookup(w.skip(1), q));
        assert(fs_lookup(w.skip(1), q) is None);
        assert(fs_lookup(fs, q) is None);
    }
}

impl FileAbstraction {
    /// An empty backing store.
    pub fn new() -> (r: FileAbstraction)
        ensures
            r@ == Seq::<(Seq<char>, Seq<char>)>::empty(),
            fs_unique(r@),
    {
        let r = FileAbstraction { files: Vec::new() };
        proof {
            assert(r@ =~= Seq::<(Seq<char>, Seq<char>)>::empty());
        }
        r
    }

    /// The index of the binding of `p`, if there is one.
    fn find(&self, p: &str) -> (r: Option<usize>)
        ensures
            match r {
                Some(i) => i < self@.len() && self@[i as int].0 == p@ && forall|j: int|
                    0 <= j < i ==> self@[j].0 != p@,
                None => forall|j: int| 0 <= j < self@.len() ==> self@[j].0 != p@,
            },
    {
        let mut i: usize = 0;
        while i < self.files.len()
            invariant
                i <= self.files@.len(),
                self@.len() == self.files@.len(),
                forall|j: int| 0 <= j < self@.len() ==> self@[j] == (
                    self.files@[j].0@,
                    self.files@[j].1@,
                ),
                forall|j: int| 0 <= j < i ==> self@[j].0 != p@,
            decreases self.files@.len() - i,
        {
            if crate::chars::str_eq(self.files[i].0.as_str(), p) {
                return Some(i);
            }
            i = i + 1;
        }
        None
    }

    /// Whether a file is present at `p`.
    pub fn file_exists(&self, p: &str) -> (r: bool)
        ensures
            r == fs_contains(self@, p@),
    {
        match self.find(p) {
            Some(i) => {
                proof {
                    lemma_fs_lookup_index(self@, p@, i as int);
                }
                true
            },
            None => {
                proof {
                    lemma_fs_lookup_none(self@, p@);
                }
                false
            },
        }
    }

    /// Reads the full contents at `p`; a missing file is a
    /// `FileNotFound`.
    pub fn get_file_content(&self, p: &str) -> (r: Result<String, StoreError>)
        ensures
            match r {
                Ok(c) => fs_lookup(self@, p@) == Some(c@),
                Err(e) => fs_lookup(self@, p@) is None && e.chain() == seq![
                    StoreErrorKind::FileNotFound,
                ],
            },
    {
        match self.find(p) {
            Some(i) => {
                proof {
                    lemma_fs_lookup_index(self@, p@, i as int);
                }
                Ok(self.files[i].1.clone())
            },
            None => {
                proof {
                    lemma_fs_lookup_none(self@, p@);
                }
                Err(StoreError::new(StoreErrorKind::FileNotFound))
            },
        }
    }

    /// Replaces the contents at `p`, creating the file if missing.
    pub fn write_file_content(&mut self, p: &str, content: &str)
        ensures
            final(self)@ == fs_write(old(self)@, p@, content@),
    {
        match self.find(p) {
            Some(i) => {
                proof {
                    lemma_fs_write_index(old(self)@, p@, content@, i as int);
                }
                let key = crate::chars::chars_to_string(
                    crate::chars::str_to_chars(p).as_slice(),
                );
                let c = crate::chars::chars_to_string(
                    crate::chars::str_to_chars(content).as_slice(),
                );
                self.files.set(i, (key, c));
                proof {
                    assert(self@ =~= old(self)@.update(i as int, (p@, content@)));
                }
            },
            None => {
                proof {
                    lemma_fs_write_absent(old(self)@, p@, content@);
                }
                let key = crate::chars::chars_to_string(
                    crate::chars::str_to_chars(p).as_slice(),
                );
                let c = crate::chars::chars_to_string(
                    crate::chars::str_to_chars(content).as_slice(),
                );
                self.files.push((key, c));
                proof {
                    assert(self@ =~= old(self)@.push((p@, content@)));
                }
            },
        }
    }

    /// Removes the file at `p`; a missing file is a `FileNotFound`.
    pub fn remove_file(&mut self, p: &str) -> (r: Result<(), StoreError>)
        ensures
            match r {
                Ok(_) => fs_contains(old(self)@, p@) && final(self)@ == fs_remove(old(self)@, p@),
                Err(e) => !fs_contains(old(self)@, p@) && final(self)@ == old(self)@ && e.chain()
                    == seq![StoreErrorKind::FileNotFound],
            },
    {
        match self.find(p) {
            Some(i) => {
                proof {
                    lemma_fs_lookup_index(self@, p@, i as int);
                    lemma_fs_remove_index(self@, p@, i as int);
                }
                self.files.remove(i);
                proof {
                    assert(self@ =~= old(self)@.remove(i as int));
                }
                Ok(())
            },
            None => {
                proof {
                    lemma_fs_lookup_none(self@, p@);
                }
                Err(StoreError::new(StoreErrorKind::FileNotFound))
            },
        }
    }

    /// Copies the file at `from` to `to`; the source must exist.
    pub fn copy(&mut self, from: &str, to: &str) -> (r: Result<(), StoreError>)
        ensures
            match r {
                Ok(_) => fs_lookup(old(self)@, from@) matches Some(c) && final(self)@ == fs_write(
                    old(self)@,
                    to@,
                    c,
                ),
                Err(e) => !fs_contains(old(self)@, from@) && final(self)@ == old(self)@
                    && e.chain() == seq![StoreErrorKind::FileNotFound],
            },
    {
        match self.get_file_content(from) {
            Ok(c) => {
                self.write_file_content(to, c.as_str());
                Ok(())
            },
            Err(e) => Err(e),
        }
    }

    /// Renames the file at `from` to `to`; the source must exist.
    pub fn rename(&mut self, from: &str, to: &str) -> (r: Result<(), StoreError>)
        ensures
            match r {
                Ok(_) => fs_lookup(old(self)@, from@) matches Some(c) && final(self)@ == fs_write(
                    fs_remove(old(self)@, from@),
                    to@,
                    c,
                ),
                Err(e) => !fs_contains(old(self)@, from@) && final(self)@ == old(self)@
                    && e.chain() == seq![StoreErrorKind::FileNotFound],
            },
    {
        match self.get_file_content(from) {
            Ok(c) => {
                match self.remove_file(from) {
                    Ok(_) => {},
                    Err(_) => {
                        proof {
                            assert(false);
                        }
                    },
                }
                self.write_file_content(to, c.as_str());
                Ok(())
            },
            Err(e) => Err(e),
        }
    }

    /// Creating directories is a no-op for the in-memory backend.
    pub fn create_dir_all(&mut self, _p: &str) -> (r: Result<(), StoreError>)
        ensures
            r is Ok,
            final(self)@ == old(self)@,
    {
        Ok(())
    }

    /// A copy of all files, in insertion order.
    pub fn items(&self) -> (r: Vec<(String, String)>)
        ensures
            r@.len() == self@.len(),
            forall|i: int|
                0 <= i < r@.len() ==> (#[trigger] r@[i]).0@ == self@[i].0 && r@[i].1@
                    == self@[i].1,
    {
        let mut r: Vec<(String, String)> = Vec::new();
        let mut i: usize = 0;
        while i < self.files.len()
            invariant
                i <= self.files@.len(),
                self@.len() == self.files@.len(),
                forall|j: int| 0 <= j < self@.len() ==> self@[j] == (
                    self.files@[j].0@,
                    self.files@[j].1@,
                ),
                r@.len() == i,
                forall|j: int|
                    0 <= j < i ==> (#[trigger] r@[j]).0@ == self@[j].0 && r@[j].1@ == self@[j].1,
            decreases self.files@.len() - i,
        {
            let pair = &self.files[i];
            r.push((pair.0.clone(), pair.1.clone()));
            i = i + 1;
        }
        r
    }

    /// The paths of all files, in insertion order.
    pub fn paths(&self) -> (r: Vec<String>)
        ensures
            r@.len() == self@.len(),
            forall|i: int| 0 <= i < r@.len() ==> (#[trigger] r@[i])@ == self@[i].0,
    {
        let mut r: Vec<String> = Vec::new();
        let mut i: usize = 0;
        while i < self.files.len()
            invariant
                i <= self.files@.len(),
                self@.len() == self.files@.len(),
                forall|j: int| 0 <= j < self@.len() ==> self@[j] == (
                    self.files@[j].0@,
                    self.files@[j].1@,
                ),
                r@.len() == i,
                forall|j: int| 0 <= j < i ==> (#[trigger] r@[j])@ == self@[j].0,
            decreases self.files@.len() - i,
        {
            r.push(self.files[i].0.clone());
            i = i + 1;
        }
        r
    }
}

} // verus!
