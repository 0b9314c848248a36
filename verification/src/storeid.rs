//! Logical identifiers of entries.
//!
//! A `StoreId` is a normalized relative path — a non-empty sequence of
//! components, none empty and none `.` or `..` — optionally anchored at
//! an absolute base directory. Equality ignores the base: the logical
//! path alone identifies an entry, so cache lookups succeed whether or
//! not a caller attached a base.

use vstd::prelude::*;

use crate::error::{StoreError, StoreErrorKind};

verus! {

broadcast use vstd::std_specs::vec::axiom_vec_decreases_to_view, vstd::seq::axiom_seq_index_decreases, vstd::seq::axiom_seq_subrange_decreases;

/// A logical identifier: an optional base directory and a relative path.
#[derive(Debug)]
pub struct StoreId {
    base: Option<String>,
    path: Vec<String>,
}

/// The model of an identifier.
#[verifier::ext_equal]
pub struct IdView {
    pub base: Option<Seq<char>>,
    pub path: Seq<Seq<char>>,
}

/// The models of a component vector.
pub open spec fn comps_model(v: Seq<String>) -> Seq<Seq<char>> {
    v.map_values(|s: String| s@)
}

impl View for StoreId {
    type V = IdView;

    closed spec fn view(&self) -> IdView {
        IdView {
            base: match self.base {
                Some(b) => Some(b@),
                None => None,
            },
            path: comps_model(self.path@),
        }
    }
}

/// A valid path component: non-empty, no separator, and neither `.`
/// nor `..`.
pub open spec fn wf_component(c: Seq<char>) -> bool {
    &&& c.len() > 0
    &&& forall|i: int| 0 <= i < c.len() ==> c[i] != '/'
    &&& c != seq!['.']
    &&& c != seq!['.', '.']
}

/// A valid logical path: at least one component, all valid.
pub open spec fn wf_path(p: Seq<Seq<char>>) -> bool {
    p.len() > 0 && forall|i: int| 0 <= i < p.len() ==> wf_component(#[trigger] p[i])
}

/// Text split at every `/`, starting at position `i`; empty segments
/// are kept so validity can be checked afterwards.
pub open spec fn split_slash(s: Seq<char>, i: int) -> Seq<Seq<char>>
    decreases s.len() - i,
{
    if i < 0 || i >= s.len() {
        seq![Seq::<char>::empty()]
    } else if s[i] == '/' {
        seq![Seq::<char>::empty()] + split_slash(s, i + 1)
    } else {
        let rest = split_slash(s, i + 1);
        seq![seq![s[i]] + rest[0]] + rest.skip(1)
    }
}

pub proof fn lemma_split_slash_len(s: Seq<char>, i: int)
    ensures
        split_slash(s, i).len() >= 1,
    decreases s.len() - i,
{
    if 0 <= i && i < s.len() {
        lemma_split_slash_len(s, i + 1);
    }
}

fn split_slash_exec(cs: &[char], i: usize) -> (r: Vec<Vec<char>>)
    requires
        i <= cs@.len(),
    ensures
        crate::value::segs_model(r@) == split_slash(cs@, i as int),
    decreases cs@.len() - i,
{
    if i >= cs.len() {
        let mut r: Vec<Vec<char>> = Vec::new();
        r.push(Vec::new());
        proof {
            assert(crate::value::segs_model(r@) =~= split_slash(cs@, i as int));
        }
        r
    } else if cs[i] == '/' {
        let mut rest = split_slash_exec(cs, i + 1);
        rest.insert(0, Vec::new());
        proof {
            assert(crate::value::segs_model(rest@) =~= seq![Seq::<char>::empty()] + split_slash(
                cs@,
                i as int + 1,
            ));
        }
        rest
    } else {
        let mut rest = split_slash_exec(cs, i + 1);
        proof {
            lemma_split_slash_len(cs@, i as int + 1);
            assert(crate::value::segs_model(rest@).len() == rest@.len());
        }
        let mut first = rest.remove(0);
        let ghost sp = split_slash(cs@, i as int + 1);
        proof {
            assert(first@ == sp[0]);
        }
        first.insert(0, cs[i]);
        rest.insert(0, first);
        proof {
            assert(first@ =~= seq![cs@[i as int]] + sp[0]);
            assert(crate::value::segs_model(rest@) =~= seq![seq![cs@[i as int]] + sp[0]] + sp.skip(
                1,
            ));
        }
        rest
    }
}

fn wf_component_check(c: &[char]) -> (r: bool)
    ensures
        r == wf_component(c@),
{
    if c.len() == 0 {
        return false;
    }
    let mut i: usize = 0;
    while i < c.len()
        invariant
            i <= c@.len(),
            forall|j: int| 0 <= j < i ==> c@[j] != '/',
        decreases c@.len() - i,
    {
        if c[i] == '/' {
            return false;
        }
        i = i + 1;
    }
    if c.len() == 1 && c[0] == '.' {
        proof {
            assert(c@ =~= seq!['.']);
        }
        return false;
    }
    if c.len() == 2 && c[0] == '.' && c[1] == '.' {
        proof {
            assert(c@ =~= seq!['.', '.']);
        }
        return false;
    }
    proof {
        if c@ == seq!['.'] {
            assert(c@.len() == 1 && c@[0] == '.');
        }
        if c@ == seq!['.', '.'] {
            assert(c@.len() == 2 && c@[0] == '.' && c@[1] == '.');
        }
    }
    true
}

/// What `StoreId::new` parses: an absolute path is stripped of the
/// base first; a relative path is taken as is.
pub open spec fn new_id_parse(base: Option<Seq<char>>, path: Seq<char>) -> Option<Seq<Seq<char>>> {
    if path.len() > 0 && path[0] == '/' {
        match base {
            Some(b) => match strip_base(b, path) {
                Some(rest) => parse_rel_path(rest),
                None => None,
            },
            None => None,
        }
    } else {
        parse_rel_path(path)
    }
}

/// The components denoted by a relative path string, if they are all
/// valid.
pub open spec fn parse_rel_path(s: Seq<char>) -> Option<Seq<Seq<char>>> {
    let segs = split_slash(s, 0);
    if wf_path(segs) {
        Some(segs)
    } else {
        None
    }
}

fn parse_rel_path_exec(cs: &[char]) -> (r: Option<Vec<Vec<char>>>)
    ensures
        match parse_rel_path(cs@) {
            Some(p) => r matches Some(v) && crate::value::segs_model(v@) == p,
            None => r is None,
        },
{
    let segs = split_slash_exec(cs, 0);
    proof {
        assert(crate::value::segs_model(segs@).len() == segs@.len());
        lemma_split_slash_len(cs@, 0);
    }
    let mut i: usize = 0;
    while i < segs.len()
        invariant
            i <= segs@.len(),
            crate::value::segs_model(segs@) == split_slash(cs@, 0),
            forall|j: int|
                0 <= j < i ==> wf_component(#[trigger] crate::value::segs_model(segs@)[j]),
        decreases segs@.len() - i,
    {
        if !wf_component_check(segs[i].as_slice()) {
            proof {
                assert(!wf_component(crate::value::segs_model(segs@)[i as int]));
            }
            return None;
        }
        i = i + 1;
    }
    proof {
        assert(wf_path(crate::value::segs_model(segs@)));
    }
    Some(segs)
}

/// The filesystem path under a base: the base, a separator unless the
/// base already ends with one, and the components joined by `/`.
pub open spec fn join_slash(p: Seq<Seq<char>>) -> Seq<char>
    decreases p.len(),
{
    if p.len() == 0 {
        Seq::empty()
    } else if p.len() == 1 {
        p[0]
    } else {
        p[0] + seq!['/'] + join_slash(p.skip(1))
    }
}

pub open spec fn fs_path_of(base: Seq<char>, p: Seq<Seq<char>>) -> Seq<char> {
    if base.len() > 0 && base[base.len() - 1] == '/' {
        base + join_slash(p)
    } else {
        base + seq!['/'] + join_slash(p)
    }
}

fn join_slash_exec(out: &mut Vec<char>, p: &Vec<String>, from: usize)
    requires
        from <= p@.len(),
    ensures
        final(out)@ == old(out)@ + join_slash(comps_model(p@).skip(from as int)),
    decreases p@.len() - from,
{
    if from >= p.len() {
        proof {
            assert(comps_model(p@).skip(from as int) =~= Seq::<Seq<char>>::empty());
            assert(out@ =~= old(out)@ + join_slash(Seq::<Seq<char>>::empty()));
        }
        return ;
    }
    crate::chars::extend_chars(out, p[from].as_str());
    if from + 1 < p.len() {
        out.push('/');
        join_slash_exec(out, p, from + 1);
        proof {
            let cm = comps_model(p@);
            assert(cm.skip(from as int)[0] == cm[from as int]);
            assert(cm.skip(from as int).skip(1) =~= cm.skip(from as int + 1));
            assert(out@ =~= old(out)@ + join_slash(cm.skip(from as int)));
        }
    } else {
        proof {
            let cm = comps_model(p@);
            assert(cm.skip(from as int).len() == 1);
            assert(cm.skip(from as int)[0] == cm[from as int]);
            assert(out@ =~= old(out)@ + join_slash(cm.skip(from as int)));
        }
    }
}

impl StoreId {
    /// Builds an identifier from an optional base and a path string.
    ///
    /// An absolute path must descend from the given base and is stripped
    /// to its relative part; a relative path is taken as is. An empty
    /// path, a `.` or `..` component, or an absolute path without a
    /// matching base is an `InvalidId`.
    pub fn new(base: Option<String>, path: &str) -> (r: Result<StoreId, StoreError>)
        ensures
            match r {
                Ok(id) => new_id_parse(old_base_view(base), path@) matches Some(p) && id@.path
                    == p && id@.base == old_base_view(base) && wf_path(id@.path),
                Err(e) => new_id_parse(old_base_view(base), path@) is None && e.chain() == seq![
                    StoreErrorKind::InvalidId,
                ],
            },
    {
        let cs = crate::chars::str_to_chars(path);
        if cs.len() > 0 && cs[0] == '/' {
            match &base {
                Some(b) => {
                    match strip_base_exec(b.as_str(), cs.as_slice()) {
                        Some(rest) => match parse_rel_path_exec(rest.as_slice()) {
                            Some(p) => Ok(
                                StoreId { base, path: comps_to_strings(p) },
                            ),
                            None => Err(StoreError::new(StoreErrorKind::InvalidId)),
                        },
                        None => Err(StoreError::new(StoreErrorKind::InvalidId)),
                    }
                },
                None => Err(StoreError::new(StoreErrorKind::InvalidId)),
            }
        } else {
            match parse_rel_path_exec(cs.as_slice()) {
                Some(p) => Ok(StoreId { base, path: comps_to_strings(p) }),
                None => Err(StoreError::new(StoreErrorKind::InvalidId)),
            }
        }
    }

    /// Builds an identifier with no base from a relative path string.
    pub fn new_baseless(path: &str) -> (r: Result<StoreId, StoreError>)
        ensures
            match r {
                Ok(id) => parse_rel_path(path@) matches Some(p) && id@.path == p && id@.base
                    is None,
                Err(e) => e.chain() == seq![StoreErrorKind::InvalidId] && ((path@.len() > 0
                    && path@[0] == '/') || parse_rel_path(path@) is None),
            },
    {
        StoreId::new(None, path)
    }

    /// Attaches or replaces the base; the logical path is untouched.
    pub fn with_base(self, base: &str) -> (r: StoreId)
        ensures
            r@ == with_base_view(self@, base@),
    {
        StoreId { base: Some(String::from_str(base)), path: self.path }
    }

    /// The filesystem path `base ⊕ logical path`; an `InvalidId` if no
    /// base is set.
    pub fn into_pathbuf(&self) -> (r: Result<String, StoreError>)
        ensures
            match r {
                Ok(p) => self@.base matches Some(b) && p@ == fs_path_of(b, self@.path),
                Err(e) => self@.base is None && e.chain() == seq![StoreErrorKind::InvalidId],
            },
    {
        match &self.base {
            None => Err(StoreError::new(StoreErrorKind::InvalidId)),
            Some(b) => {
                let mut out: Vec<char> = Vec::new();
                crate::chars::extend_chars(&mut out, b.as_str());
                let blen = b.as_str().unicode_len();
                if !(blen > 0 && b.as_str().get_char(blen - 1) == '/') {
                    out.push('/');
                }
                join_slash_exec(&mut out, &self.path, 0);
                proof {
                    assert(comps_model(self.path@).skip(0) =~= comps_model(self.path@));
                    assert(out@ =~= fs_path_of(b@, self@.path));
                }
                Ok(crate::chars::chars_to_string(out.as_slice()))
            },
        }
    }

    /// Builds an identifier from an absolute path that must descend
    /// from `base`; fails with `StoreIdHandlingError` otherwise.
    pub fn from_full_path(base: &str, full: &str) -> (r: Result<StoreId, StoreError>)
        ensures
            match r {
                Ok(id) => strip_base(base@, full@) matches Some(rest) && parse_rel_path(rest)
                    matches Some(p) && id@.path == p && id@.base == Some(base@),
                Err(e) => match strip_base(base@, full@) {
                    None => e.chain() == seq![StoreErrorKind::StoreIdHandlingError],
                    Some(rest) => parse_rel_path(rest) is None && e.chain() == seq![
                        StoreErrorKind::InvalidId,
                    ],
                },
            },
    {
        let cs = crate::chars::str_to_chars(full);
        match strip_base_exec(base, cs.as_slice()) {
            None => Err(StoreError::new(StoreErrorKind::StoreIdHandlingError)),
            Some(rest) => match parse_rel_path_exec(rest.as_slice()) {
                Some(p) => Ok(
                    StoreId { base: Some(String::from_str(base)), path: comps_to_strings(p) },
                ),
                None => Err(StoreError::new(StoreErrorKind::InvalidId)),
            },
        }
    }

    /// The filesystem path of this identifier under the given root,
    /// regardless of its own base.
    pub fn fs_path_under(&self, root: &str) -> (r: String)
        ensures
            r@ == fs_path_of(root@, self@.path),
    {
        let mut out: Vec<char> = Vec::new();
        crate::chars::extend_chars(&mut out, root);
        let blen = root.unicode_len();
        if !(blen > 0 && root.get_char(blen - 1) == '/') {
            out.push('/');
        }
        join_slash_exec(&mut out, &self.path, 0);
        proof {
            assert(comps_model(self.path@).skip(0) =~= comps_model(self.path@));
            assert(out@ =~= fs_path_of(root@, self@.path));
        }
        crate::chars::chars_to_string(out.as_slice())
    }

    /// The components of the logical path.
    pub fn components(&self) -> (r: &Vec<String>)
        ensures
            comps_model(r@) == self@.path,
    {
        &self.path
    }

    /// The base, if one is attached.
    pub fn base(&self) -> (r: &Option<String>)
        ensures
            match r {
                Some(b) => self@.base == Some(b@),
                None => self@.base is None,
            },
    {
        &self.base
    }

    /// A copy of this identifier.
    pub fn duplicate(&self) -> (r: StoreId)
        ensures
            r@ == self@,
    {
        let base = match &self.base {
            Some(b) => Some(b.clone()),
            None => None,
        };
        let mut path: Vec<String> = Vec::new();
        let mut i: usize = 0;
        while i < self.path.len()
            invariant
                i <= self.path@.len(),
                path@.len() == i,
                forall|j: int| 0 <= j < i ==> path@[j]@ == self.path@[j]@,
            decreases self.path@.len() - i,
        {
            path.push(self.path[i].clone());
            i = i + 1;
        }
        proof {
            assert(comps_model(path@) =~= comps_model(self.path@));
        }
        StoreId { base, path }
    }

    /// True iff the logical paths are equal; the base is ignored.
    pub fn same_path(&self, other: &StoreId) -> (r: bool)
        ensures
            r == (self@.path == other@.path),
    {
        if self.path.len() != other.path.len() {
            proof {
                assert(comps_model(self.path@).len() != comps_model(other.path@).len());
            }
            return false;
        }
        let mut i: usize = 0;
        while i < self.path.len()
            invariant
                self.path@.len() == other.path@.len(),
                i <= self.path@.len(),
                forall|j: int| 0 <= j < i ==> self.path@[j]@ == other.path@[j]@,
            decreases self.path@.len() - i,
        {
            if !crate::chars::str_eq(self.path[i].as_str(), other.path[i].as_str()) {
                proof {
                    assert(comps_model(self.path@)[i as int] != comps_model(other.path@)[
                        i as int
                    ]);
                }
                return false;
            }
            i = i + 1;
        }
        proof {
            assert(comps_model(self.path@) =~= comps_model(other.path@));
        }
        true
    }
}

/// The model of an optional owned base.
pub open spec fn old_base_view(base: Option<String>) -> Option<Seq<char>> {
    match base {
        Some(b) => Some(b@),
        None => None,
    }
}

/// Rebasing in the model: the base is replaced, the path kept.
pub open spec fn with_base_view(id: IdView, base: Seq<char>) -> IdView {
    IdView { base: Some(base), path: id.path }
}

/// Rebasing is idempotent: attaching the same base twice is the same
/// as attaching it once.
pub proof fn lemma_with_base_idempotent(id: IdView, base: Seq<char>)
    ensures
        with_base_view(with_base_view(id, base), base) == with_base_view(id, base),
{
}

/// The relative remainder of `full` under `base`: `full` must start
/// with `base`, followed by a `/` unless `base` ends with one.
pub open spec fn strip_base(base: Seq<char>, full: Seq<char>) -> Option<Seq<char>> {
    if base.len() > 0 && base[base.len() - 1] == '/' {
        if full.len() > base.len() && full.take(base.len() as int) == base {
            Some(full.skip(base.len() as int))
        } else {
            None
        }
    } else {
        if full.len() > base.len() + 1 && full.take(base.len() as int) == base && full[base.len() as int]
            == '/' {
            Some(full.skip(base.len() as int + 1))
        } else {
            None
        }
    }
}

fn strip_base_exec(base: &str, full: &[char]) -> (r: Option<Vec<char>>)
    ensures
        match strip_base(base@, full@) {
            Some(rest) => r matches Some(v) && v@ == rest,
            None => r is None,
        },
{
    let blen = base.unicode_len();
    let ends_slash = blen > 0 && base.get_char(blen - 1) == '/';
    if full.len() <= blen {
        return None;
    }
    let mut i: usize = 0;
    while i < blen
        invariant
            blen == base@.len(),
            blen < full@.len(),
            i <= blen,
            forall|j: int| 0 <= j < i ==> base@[j] == full@[j],
        decreases blen - i,
    {
        if base.get_char(i) != full[i] {
            proof {
                assert(full@.take(blen as int)[i as int] != base@[i as int]);
            }
            return None;
        }
        i = i + 1;
    }
    proof {
        assert(full@.take(blen as int) =~= base@);
    }
    if ends_slash {
        Some(crate::chars::copy_range(full, blen, full.len()))
    } else {
        if full.len() <= blen + 1 {
            return None;
        }
        if full[blen] != '/' {
            return None;
        }
        Some(crate::chars::copy_range(full, blen + 1, full.len()))
    }
}

fn comps_to_strings(p: Vec<Vec<char>>) -> (r: Vec<String>)
    ensures
        comps_model(r@) == crate::value::segs_model(p@),
{
    let mut r: Vec<String> = Vec::new();
    let mut i: usize = 0;
    while i < p.len()
        invariant
            i <= p@.len(),
            r@.len() == i,
            forall|j: int| 0 <= j < i ==> r@[j]@ == p@[j]@,
        decreases p@.len() - i,
    {
        r.push(crate::chars::chars_to_string(p[i].as_slice()));
        i = i + 1;
    }
    proof {
        assert(comps_model(r@) =~= crate::value::segs_model(p@));
    }
    r
}

impl PartialEq for StoreId {
    fn eq(&self, other: &StoreId) -> (r: bool) {
        self.same_path(other)
    }
}

impl vstd::std_specs::cmp::PartialEqSpecImpl for StoreId {
    open spec fn obeys_eq_spec() -> bool {
        true
    }

    open spec fn eq_spec(&self, other: &StoreId) -> bool {
        self@.path == other@.path
    }
}

} // verus!
