//! The store: the coordinator that owns the borrow-tracked cache, the
//! backing storage and the hook registry.
//!
//! Every public operation canonicalizes its identifier against the store
//! root, runs the pre-hook pipeline for its position, consults the cache
//! and the backing storage, and runs the post-hook pipeline. The cache
//! records, for every identifier touched in this store's lifetime, whether
//! its entry is resident (`Present`) or handed out to exactly one
//! [`FileLockEntry`] (`Borrowed`).
//!
//! Each operation's behaviour is specified by a transition function over
//! [`StoreView`]; the laws about cache residency, borrow exclusivity and
//! move atomicity are proved over those transitions in the same module.

use vstd::prelude::*;

use crate::error::{StoreError, StoreErrorKind};
use crate::storeid::{StoreId, IdView, with_base_view, fs_path_of};
use crate::entry::{Entry, EntryView};
use crate::value::{Value, ValueModel, default_header_model, header_verifies};
use crate::file_abstraction::{FileAbstraction, FsView, fs_lookup, fs_contains, fs_write,
    fs_remove};
use crate::hook::{Hook, HookView, Aspect, AspectView, HookPosition, aspects_model, pipeline_run,
    run_pipeline};
use crate::configuration::{opt_model, spec_config_valid, spec_aspect_names, spec_section_entry};
use crate::text::{entry_text_of, parse_entry_text, ParseOutcome};

verus! {

broadcast use vstd::std_specs::vec::axiom_vec_decreases_to_view, vstd::seq::axiom_seq_index_decreases, vstd::seq::axiom_seq_subrange_decreases;

/// Whether a cached entry is resident or handed out.
#[derive(Debug, Clone, Copy, PartialEq, Eq, Structural)]
pub enum StoreEntryStatus {
    Present,
    Borrowed,
}

/// A cache record: the identifier and its borrow status.
#[derive(Debug)]
pub struct StoreEntry {
    id: StoreId,
    status: StoreEntryStatus,
}

impl StoreEntry {
    /// The entry is currently handed out to a `FileLockEntry`.
    pub fn is_borrowed(&self) -> (r: bool)
        ensures
            r == (self@.1 == true),
    {
        self.status == StoreEntryStatus::Borrowed
    }
}

impl View for StoreEntry {
    type V = (Seq<Seq<char>>, bool);

    closed spec fn view(&self) -> (Seq<Seq<char>>, bool) {
        (self.id@.path, self.status is Borrowed)
    }
}

/// The cache model: logical paths with their borrow flags, in insertion
/// order.
pub type CacheView = Seq<(Seq<Seq<char>>, bool)>;

pub open spec fn cache_model(v: Seq<StoreEntry>) -> CacheView {
    Seq::new(v.len(), |i: int| v[i]@)
}

/// The borrow flag of `p`, if the cache knows it.
pub open spec fn cache_lookup(c: CacheView, p: Seq<Seq<char>>) -> Option<bool>
    decreases c.len(),
{
    if c.len() == 0 {
        None
    } else if c[0].0 == p {
        Some(c[0].1)
    } else {
        cache_lookup(c.skip(1), p)
    }
}

pub open spec fn cache_contains(c: CacheView, p: Seq<Seq<char>>) -> bool {
    cache_lookup(c, p) is Some
}

/// The cache with the flag of `p` replaced in place.
pub open spec fn cache_set(c: CacheView, p: Seq<Seq<char>>, b: bool) -> CacheView
    decreases c.len(),
{
    if c.len() == 0 {
        c
    } else if c[0].0 == p {
        seq![(p, b)] + c.skip(1)
    } else {
        seq![c[0]] + cache_set(c.skip(1), p, b)
    }
}

/// The cache without the record of `p`.
pub open spec fn cache_remove(c: CacheView, p: Seq<Seq<char>>) -> CacheView
    decreases c.len(),
{
    if c.len() == 0 {
        c
    } else if c[0].0 == p {
        c.skip(1)
    } else {
        seq![c[0]] + cache_remove(c.skip(1), p)
    }
}

/// Every path occurs at most once in the cache.
pub open spec fn cache_unique(c: CacheView) -> bool {
    forall|i: int, j: int| 0 <= i < j < c.len() ==> (#[trigger] c[i]).0 != (#[trigger] c[j]).0
}

proof fn lemma_cache_lookup_index(c: CacheView, p: Seq<Seq<char>>, i: int)
    requires
        0 <= i < c.len(),
        forall|j: int| 0 <= j < i ==> c[j].0 != p,
        c[i].0 == p,
    ensures
        cache_lookup(c, p) == Some(c[i].1),
    decreases c.len(),
{
    if i > 0 {
        lemma_cache_lookup_index(c.skip(1), p, i - 1);
    }
}

proof fn lemma_cache_lookup_none(c: CacheView, p: Seq<Seq<char>>)
    requires
        forall|j: int| 0 <= j < c.len() ==> c[j].0 != p,
    ensures
        cache_lookup(c, p) is None,
    decreases c.len(),
{
    if c.len() > 0 {
        lemma_cache_lookup_none(c.skip(1), p);
    }
}

proof fn lemma_cache_set_index(c: CacheView, p: Seq<Seq<char>>, b: bool, i: int)
    requires
        0 <= i < c.len(),
        forall|j: int| 0 <= j < i ==> c[j].0 != p,
        c[i].0 == p,
    ensures
        cache_set(c, p, b) == c.update(i, (p, b)),
    decreases c.len(),
{
    if i > 0 {
        lemma_cache_set_index(c.skip(1), p, b, i - 1);
        assert(cache_set(c, p, b) =~= c.update(i, (p, b)));
    } else {
        assert(cache_set(c, p, b) =~= c.update(i, (p, b)));
    }
}

proof fn lemma_cache_remove_index(c: CacheView, p: Seq<Seq<char>>, i: int)
    requires
        0 <= i < c.len(),
        forall|j: int| 0 <= j < i ==> c[j].0 != p,
        c[i].0 == p,
    ensures
        cache_remove(c, p) == c.remove(i),
    decreases c.len(),
{
    if i > 0 {
        lemma_cache_remove_index(c.skip(1), p, i - 1);
        assert(cache_remove(c, p) =~= c.remove(i));
    } else {
        assert(cache_remove(c, p) =~= c.remove(i));
    }
}

/// The run counters of an aspect's hooks, in order.
pub open spec fn hook_calls(hs: Seq<HookView>) -> Seq<nat> {
    Seq::new(hs.len(), |i: int| hs[i].calls)
}

/// The first `j` of them.
pub open spec fn hook_calls_prefix(hs: Seq<HookView>, j: int) -> Seq<nat> {
    Seq::new(if 0 <= j <= hs.len() {
        j as nat
    } else {
        0
    }, |i: int| hs[i].calls)
}

/// The run counters of a whole aspect list, flattened in order.
pub open spec fn calls_of(asps: Seq<AspectView>) -> Seq<nat>
    decreases asps.len(),
{
    if asps.len() == 0 {
        Seq::empty()
    } else {
        calls_of(asps.drop_last()) + hook_calls(asps.last().hooks)
    }
}

proof fn lemma_calls_of_step(asps: Seq<AspectView>, i: int)
    requires
        1 <= i <= asps.len(),
    ensures
        calls_of(asps.take(i)) == calls_of(asps.take(i - 1)) + hook_calls(asps[i - 1].hooks),
{
    assert(asps.take(i).drop_last() =~= asps.take(i - 1));
    assert(asps.take(i).last() == asps[i - 1]);
}

/// The model of the whole store.
#[verifier::ext_equal]
pub struct StoreView {
    pub location: Seq<char>,
    pub configuration: Option<ValueModel>,
    pub unload: Seq<AspectView>,
    pub pre_create: Seq<AspectView>,
    pub post_create: Seq<AspectView>,
    pub pre_retrieve: Seq<AspectView>,
    pub post_retrieve: Seq<AspectView>,
    pub pre_update: Seq<AspectView>,
    pub post_update: Seq<AspectView>,
    pub pre_delete: Seq<AspectView>,
    pub post_delete: Seq<AspectView>,
    pub pre_move: Seq<AspectView>,
    pub post_move: Seq<AspectView>,
    pub cache: CacheView,
    pub fs: FsView,
}

/// The store.
#[derive(Debug)]
pub struct Store {
    location: String,
    configuration: Option<Value>,
    store_unload_aspects: Vec<Aspect>,
    pre_create_aspects: Vec<Aspect>,
    post_create_aspects: Vec<Aspect>,
    pre_retrieve_aspects: Vec<Aspect>,
    post_retrieve_aspects: Vec<Aspect>,
    pre_update_aspects: Vec<Aspect>,
    post_update_aspects: Vec<Aspect>,
    pre_delete_aspects: Vec<Aspect>,
    post_delete_aspects: Vec<Aspect>,
    pre_move_aspects: Vec<Aspect>,
    post_move_aspects: Vec<Aspect>,
    entries: Vec<StoreEntry>,
    backend: FileAbstraction,
}

impl View for Store {
    type V = StoreView;

    closed spec fn view(&self) -> StoreView {
        StoreView {
            location: self.location@,
            configuration: opt_model(self.configuration),
            unload: aspects_model(self.store_unload_aspects@),
            pre_create: aspects_model(self.pre_create_aspects@),
            post_create: aspects_model(self.post_create_aspects@),
            pre_retrieve: aspects_model(self.pre_retrieve_aspects@),
            post_retrieve: aspects_model(self.post_retrieve_aspects@),
            pre_update: aspects_model(self.pre_update_aspects@),
            post_update: aspects_model(self.post_update_aspects@),
            pre_delete: aspects_model(self.pre_delete_aspects@),
            post_delete: aspects_model(self.post_delete_aspects@),
            pre_move: aspects_model(self.pre_move_aspects@),
            post_move: aspects_model(self.post_move_aspects@),
            cache: cache_model(self.entries@),
            fs: self.backend@,
        }
    }
}

/// A uniquely held, mutable handle to an entry. The holder gives it
/// back through `Store::update` or `Store::release`; `release` writes
/// the entry to the backing storage and marks the cache record
/// `Present` again.
#[derive(Debug)]
pub struct FileLockEntry {
    entry: Entry,
}

impl View for FileLockEntry {
    type V = EntryView;

    closed spec fn view(&self) -> EntryView {
        self.entry@
    }
}

impl FileLockEntry {
    /// The entry held by this handle.
    pub fn entry(&self) -> (r: &Entry)
        ensures
            r@ == self@,
    {
        &self.entry
    }

    pub fn get_location(&self) -> (r: &StoreId)
        ensures
            r@ == self@.location,
    {
        self.entry.get_location()
    }

    pub fn get_header(&self) -> (r: &Value)
        ensures
            r@ == self@.header,
    {
        self.entry.get_header()
    }

    pub fn set_header(&mut self, header: Value)
        ensures
            final(self)@.header == header@,
            final(self)@.location == old(self)@.location,
            final(self)@.content == old(self)@.content,
    {
        self.entry.set_header(header)
    }

    pub fn get_content(&self) -> (r: &String)
        ensures
            r@ == self@.content,
    {
        self.entry.get_content()
    }

    pub fn set_content(&mut self, content: String)
        ensures
            final(self)@.content == content@,
            final(self)@.location == old(self)@.location,
            final(self)@.header == old(self)@.header,
    {
        self.entry.set_content(content)
    }

    pub fn verify(&self) -> (r: Result<(), StoreError>)
        ensures
            r is Ok <==> header_verifies(self@.header),
            r matches Err(e) ==> e.chain() == seq![StoreErrorKind::HeaderInconsistency],
    {
        self.entry.verify()
    }
}

// ------------------------------------------------------------------
// Transition functions
// ------------------------------------------------------------------
/// The error chain of an aborted hook pipeline at an operation.
pub open spec fn hook_chain(call: StoreErrorKind, stage: StoreErrorKind) -> Seq<StoreErrorKind> {
    seq![
        call,
        StoreErrorKind::HookExecutionError,
        stage,
        StoreErrorKind::HookExecutionError,
    ]
}

/// Reading an entry for `id` out of the backing storage: a missing file
/// synthesizes a fresh default entry; a present one is parsed.
pub open spec fn spec_read_entry(fs: FsView, root: Seq<char>, id: IdView) -> Result<
    EntryView,
    Seq<StoreErrorKind>,
> {
    match fs_lookup(fs, fs_path_of(root, id.path)) {
        None => Ok(
            EntryView {
                location: id,
                header: default_header_model(),
                content: Seq::empty(),
            },
        ),
        Some(text) => match parse_entry_text(text) {
            ParseOutcome::Parsed(ps, c) => Ok(
                EntryView { location: id, header: ValueModel::Table(ps), content: c },
            ),
            ParseOutcome::BadFrame => Err(seq![StoreErrorKind::MalformedEntry]),
            ParseOutcome::BadHeader => Err(seq![StoreErrorKind::HeaderError]),
        },
    }
}

/// The write-back step shared by `update` and `release`: pre-update
/// hooks, header verification, the write through the backing storage,
/// optionally flipping the cache record back to `Present`, then
/// post-update hooks. `None` means success.
pub open spec fn spec_update_inner(s: StoreView, e: EntryView, modify_presence: bool) -> (
    StoreView,
    Option<Seq<StoreErrorKind>>,
) {
    let (pre2, ab) = pipeline_run(s.pre_update);
    let s1 = StoreView { pre_update: pre2, ..s };
    if ab {
        (
            s1,
            Some(
                hook_chain(StoreErrorKind::UpdateCallError, StoreErrorKind::PreHookExecuteError),
            ),
        )
    } else if cache_lookup(s1.cache, e.location.path) is None {
        (s1, Some(seq![StoreErrorKind::UpdateCallError, StoreErrorKind::IdNotFound]))
    } else if !header_verifies(e.header) {
        (s1, Some(seq![StoreErrorKind::UpdateCallError, StoreErrorKind::HeaderInconsistency]))
    } else {
        let s2 = StoreView {
            fs: fs_write(
                s1.fs,
                fs_path_of(s1.location, e.location.path),
                entry_text_of(e.header, e.content),
            ),
            cache: if modify_presence {
                cache_set(s1.cache, e.location.path, false)
            } else {
                s1.cache
            },
            ..s1
        };
        let (post2, ab2) = pipeline_run(s2.post_update);
        let s3 = StoreView { post_update: post2, ..s2 };
        if ab2 {
            (
                s3,
                Some(
                    hook_chain(
                        StoreErrorKind::UpdateCallError,
                        StoreErrorKind::PostHookExecuteError,
                    ),
                ),
            )
        } else {
            (s3, None)
        }
    }
}

/// Creating an entry: pre-create hooks may veto; an identifier already
/// resident fails; otherwise a fresh borrowed record is inserted and a
/// fresh entry handed out, gated by the post-create hooks. A post-hook
/// failure returns an error but releases the created entry back to the
/// cache, where `get` can recover it.
pub open spec fn spec_create(s: StoreView, id: IdView) -> (StoreView, Result<
    EntryView,
    Seq<StoreErrorKind>,
>) {
    let cid = with_base_view(id, s.location);
    let (pre2, ab) = pipeline_run(s.pre_create);
    let s1 = StoreView { pre_create: pre2, ..s };
    if ab {
        (
            s1,
            Err(hook_chain(StoreErrorKind::CreateCallError, StoreErrorKind::PreHookExecuteError)),
        )
    } else if cache_contains(s1.cache, cid.path) {
        (s1, Err(seq![StoreErrorKind::CreateCallError, StoreErrorKind::EntryAlreadyExists]))
    } else {
        let s2 = StoreView { cache: s1.cache.push((cid.path, true)), ..s1 };
        let e = EntryView {
            location: cid,
            header: default_header_model(),
            content: Seq::empty(),
        };
        let (post2, ab2) = pipeline_run(s2.post_create);
        let s3 = StoreView { post_create: post2, ..s2 };
        if ab2 {
            let (s4, _) = spec_update_inner(s3, e, true);
            (
                s4,
                Err(
                    hook_chain(
                        StoreErrorKind::CreateCallError,
                        StoreErrorKind::PostHookExecuteError,
                    ),
                ),
            )
        } else {
            (s3, Ok(e))
        }
    }
}

impl Store {
    /// Opens a store rooted at `location` with the given configuration.
    /// An invalid configuration is a `ConfigurationError`; a valid one
    /// yields a store with the configured aspect lists, an empty cache
    /// and empty backing storage.
    pub fn new(location: &str, configuration: Option<Value>) -> (r: Result<Store, StoreError>)
        ensures
            match r {
                Ok(s) => spec_config_valid(opt_model(configuration)) && s@ == spec_new_store(
                    location@,
                    opt_model(configuration),
                ),
                Err(e) => !spec_config_valid(opt_model(configuration)) && e.chain() == seq![
                    StoreErrorKind::ConfigurationError,
                ],
            },
    {
        match crate::configuration::config_is_valid(&configuration) {
            Err(e) => Err(e),
            Ok(_) => {
                let store = Store {
                    location: String::from_str(location),
                    store_unload_aspects: build_aspects(
                        &configuration,
                        "store-unload-hook-aspects",
                    ),
                    pre_create_aspects: build_aspects(&configuration, "pre-create-hook-aspects"),
                    post_create_aspects: build_aspects(&configuration, "post-create-hook-aspects"),
                    pre_retrieve_aspects: build_aspects(
                        &configuration,
                        "pre-retrieve-hook-aspects",
                    ),
                    post_retrieve_aspects: build_aspects(
                        &configuration,
                        "post-retrieve-hook-aspects",
                    ),
                    pre_update_aspects: build_aspects(&configuration, "pre-update-hook-aspects"),
                    post_update_aspects: build_aspects(&configuration, "post-update-hook-aspects"),
                    pre_delete_aspects: build_aspects(&configuration, "pre-delete-hook-aspects"),
                    post_delete_aspects: build_aspects(&configuration, "post-delete-hook-aspects"),
                    pre_move_aspects: build_aspects(&configuration, "pre-move-hook-aspects"),
                    post_move_aspects: build_aspects(&configuration, "post-move-hook-aspects"),
                    entries: Vec::new(),
                    backend: FileAbstraction::new(),
                    configuration,
                };
                proof {
                    assert(cache_model(store.entries@) =~= Seq::<
                        (Seq<Seq<char>>, bool),
                    >::empty());
                    assert(store@ =~~= spec_new_store(location@, opt_model(store.configuration)));
                }
                Ok(store)
            },
        }
    }

    /// The root path of the store.
    pub fn path(&self) -> (r: &String)
        ensures
            r@ == self@.location,
    {
        &self.location
    }

    /// The store configuration.
    pub fn config(&self) -> (r: &Option<Value>)
        ensures
            opt_model(*r) == self@.configuration,
    {
        &self.configuration
    }

    /// The cache's knowledge of an identifier: `None` if untouched,
    /// else whether its entry is currently borrowed. The cache is the
    /// authoritative ledger of held entries.
    pub fn cache_status(&self, id: &StoreId) -> (r: Option<bool>)
        ensures
            r == cache_lookup(self@.cache, id@.path),
    {
        match self.cache_find(id) {
            Some(i) => {
                proof {
                    lemma_cache_lookup_index(self@.cache, id@.path, i as int);
                }
                Some(self.entries[i].is_borrowed())
            },
            None => {
                proof {
                    lemma_cache_lookup_none(self@.cache, id@.path);
                }
                None
            },
        }
    }

    /// How many aspects are configured at a position.
    pub fn aspect_count(&self, position: HookPosition) -> (r: usize)
        ensures
            r == pos_list(self@, position).len(),
    {
        match position {
            HookPosition::StoreUnload => self.store_unload_aspects.len(),
            HookPosition::PreCreate => self.pre_create_aspects.len(),
            HookPosition::PostCreate => self.post_create_aspects.len(),
            HookPosition::PreRetrieve => self.pre_retrieve_aspects.len(),
            HookPosition::PostRetrieve => self.post_retrieve_aspects.len(),
            HookPosition::PreUpdate => self.pre_update_aspects.len(),
            HookPosition::PostUpdate => self.post_update_aspects.len(),
            HookPosition::PreDelete => self.pre_delete_aspects.len(),
            HookPosition::PostDelete => self.post_delete_aspects.len(),
            HookPosition::PreMove => self.pre_move_aspects.len(),
            HookPosition::PostMove => self.post_move_aspects.len(),
        }
    }

    /// The run counters of every hook at a position, aspect by aspect
    /// in configured order, hooks in registration order. This is how
    /// callers observe which hooks a pipeline ran.
    pub fn hook_call_counts(&self, position: HookPosition) -> (r: Vec<u64>)
        ensures
            r@.map_values(|c: u64| c as nat) == calls_of(pos_list(self@, position)),
    {
        let aspects: &Vec<Aspect> = match position {
            HookPosition::StoreUnload => &self.store_unload_aspects,
            HookPosition::PreCreate => &self.pre_create_aspects,
            HookPosition::PostCreate => &self.post_create_aspects,
            HookPosition::PreRetrieve => &self.pre_retrieve_aspects,
            HookPosition::PostRetrieve => &self.post_retrieve_aspects,
            HookPosition::PreUpdate => &self.pre_update_aspects,
            HookPosition::PostUpdate => &self.post_update_aspects,
            HookPosition::PreDelete => &self.pre_delete_aspects,
            HookPosition::PostDelete => &self.post_delete_aspects,
            HookPosition::PreMove => &self.pre_move_aspects,
            HookPosition::PostMove => &self.post_move_aspects,
        };
        let ghost asps = aspects_model(aspects@);
        let mut r: Vec<u64> = Vec::new();
        let mut i: usize = 0;
        while i < aspects.len()
            invariant
                i <= aspects@.len(),
                asps == aspects_model(aspects@),
                asps == pos_list(self@, position),
                asps.len() == aspects@.len(),
                r@.map_values(|c: u64| c as nat) == calls_of(asps.take(i as int)),
            decreases aspects@.len() - i,
        {
            let hooks = aspects[i].hooks();
            let ghost hs = asps[i as int].hooks;
            let mut j: usize = 0;
            while j < hooks.len()
                invariant
                    j <= hooks@.len(),
                    crate::hook::hooks_model(hooks@) == hs,
                    hs.len() == hooks@.len(),
                    i < asps.len(),
                    asps[i as int].hooks == hs,
                    r@.map_values(|c: u64| c as nat) == calls_of(asps.take(i as int))
                        + hook_calls_prefix(hs, j as int),
                decreases hooks@.len() - j,
            {
                let c = hooks[j].call_count();
                proof {
                    assert(crate::hook::hooks_model(hooks@)[j as int] == hooks@[j as int]@);
                    assert(hs[j as int].calls == c as nat);
                }
                r.push(c);
                j = j + 1;
                proof {
                    assert(hook_calls_prefix(hs, j as int) =~= hook_calls_prefix(hs, j - 1).push(
                        hs[j - 1].calls,
                    ));
                    assert(r@.map_values(|c: u64| c as nat) =~= (calls_of(asps.take(i as int))
                        + hook_calls_prefix(hs, j - 1)).push(c as nat));
                    assert(r@.map_values(|c: u64| c as nat) =~= calls_of(asps.take(i as int))
                        + hook_calls_prefix(hs, j as int));
                }
            }
            i = i + 1;
            proof {
                assert(hook_calls_prefix(hs, hs.len() as int) =~= hook_calls(hs));
                lemma_calls_of_step(asps, i as int);
                assert(r@.map_values(|c: u64| c as nat) =~= calls_of(asps.take(i as int)));
            }
        }
        proof {
            assert(asps.take(asps.len() as int) =~= asps);
        }
        r
    }

    /// The cache record index for an identifier's path.
    fn cache_find(&self, id: &StoreId) -> (r: Option<usize>)
        ensures
            match r {
                Some(i) => i < self@.cache.len() && self@.cache[i as int].0 == id@.path && forall|
                    j: int,
                |
                    0 <= j < i ==> self@.cache[j].0 != id@.path,
                None => forall|j: int| 0 <= j < self@.cache.len() ==> self@.cache[j].0 != id@.path,
            },
    {
        let mut i: usize = 0;
        while i < self.entries.len()
            invariant
                i <= self.entries@.len(),
                self@.cache.len() == self.entries@.len(),
                forall|j: int|
                    0 <= j < self@.cache.len() ==> self@.cache[j] == self.entries@[j]@,
                forall|j: int| 0 <= j < i ==> self@.cache[j].0 != id@.path,
            decreases self.entries@.len() - i,
        {
            if self.entries[i].id.same_path(id) {
                return Some(i);
            }
            i = i + 1;
        }
        None
    }

    /// Reads the entry for a canonical identifier out of the backing
    /// storage, synthesizing a default entry when the file is missing.
    fn read_entry(&self, id: &StoreId) -> (r: Result<Entry, StoreError>)
        ensures
            match spec_read_entry(self@.fs, self@.location, id@) {
                Ok(e) => r matches Ok(x) && x@ == e,
                Err(ch) => r matches Err(x) && x.chain() == ch,
            },
    {
        let p = id.fs_path_under(self.location.as_str());
        match self.backend.get_file_content(p.as_str()) {
            Err(_) => Ok(Entry::new(id.duplicate())),
            Ok(text) => Entry::from_str(id.duplicate(), text.as_str()),
        }
    }

    /// The write-back step shared by `update` and `release`.
    fn update_inner(&mut self, entry: &Entry, modify_presence: bool) -> (r: Result<
        (),
        StoreError,
    >)
        ensures
            ({
                let (s2, err) = spec_update_inner(old(self)@, entry@, modify_presence);
                final(self)@ == s2 && (match (r, err) {
                    (Ok(_), None) => true,
                    (Err(e), Some(ch)) => e.chain() == ch,
                    _ => false,
                })
            }),
    {
        let ab = run_pipeline(&mut self.pre_update_aspects);
        if ab {
            proof {
                assert(final(self)@ =~~= spec_update_inner(old(self)@, entry@, modify_presence).0);
            }
            return Err(
                StoreError::wrap(
                    StoreErrorKind::UpdateCallError,
                    StoreError::wrap(
                        StoreErrorKind::HookExecutionError,
                        StoreError::wrap(
                            StoreErrorKind::PreHookExecuteError,
                            StoreError::new(StoreErrorKind::HookExecutionError),
                        ),
                    ),
                ),
            );
        }
        let ghost s1 = StoreView { pre_update: pipeline_run(old(self)@.pre_update).0, ..old(self)@ };
        proof {
            assert(self@ =~~= s1);
        }
        match self.cache_find(entry.get_location()) {
            None => {
                proof {
                    lemma_cache_lookup_none(self@.cache, entry@.location.path);
                }
                Err(
                    StoreError::wrap(
                        StoreErrorKind::UpdateCallError,
                        StoreError::new(StoreErrorKind::IdNotFound),
                    ),
                )
            },
            Some(i) => {
                proof {
                    lemma_cache_lookup_index(self@.cache, entry@.location.path, i as int);
                }
                match entry.verify() {
                    Err(_) => Err(
                        StoreError::wrap(
                            StoreErrorKind::UpdateCallError,
                            StoreError::new(StoreErrorKind::HeaderInconsistency),
                        ),
                    ),
                    Ok(_) => {
                        let p = entry.get_location().fs_path_under(self.location.as_str());
                        let text = entry.to_str();
                        self.backend.write_file_content(p.as_str(), text.as_str());
                        if modify_presence {
                            proof {
                                lemma_cache_set_index(
                                    s1.cache,
                                    entry@.location.path,
                                    false,
                                    i as int,
                                );
                            }
                            let rec = StoreEntry {
                                id: entry.get_location().duplicate(),
                                status: StoreEntryStatus::Present,
                            };
                            self.entries.set(i, rec);
                            proof {
                                assert(cache_model(self.entries@) =~= cache_set(
                                    s1.cache,
                                    entry@.location.path,
                                    false,
                                ));
                            }
                        }
                        let ghost s2 = StoreView {
                            fs: fs_write(
                                s1.fs,
                                fs_path_of(s1.location, entry@.location.path),
                                entry_text_of(entry@.header, entry@.content),
                            ),
                            cache: if modify_presence {
                                cache_set(s1.cache, entry@.location.path, false)
                            } else {
                                s1.cache
                            },
                            ..s1
                        };
                        proof {
                            assert(self@ =~~= s2);
                        }
                        let ab2 = run_pipeline(&mut self.post_update_aspects);
                        proof {
                            assert(final(self)@ =~~= StoreView {
                                post_update: pipeline_run(s2.post_update).0,
                                ..s2
                            });
                        }
                        if ab2 {
                            Err(
                                StoreError::wrap(
                                    StoreErrorKind::UpdateCallError,
                                    StoreError::wrap(
                                        StoreErrorKind::HookExecutionError,
                                        StoreError::wrap(
                                            StoreErrorKind::PostHookExecuteError,
                                            StoreError::new(StoreErrorKind::HookExecutionError),
                                        ),
                                    ),
                                ),
                            )
                        } else {
                            Ok(())
                        }
                    },
                }
            },
        }
    }

    /// Creates the entry at `id` and hands out its unique handle.
    pub fn create(&mut self, id: StoreId) -> (r: Result<FileLockEntry, StoreError>)
        ensures
            ({
                let (s2, res) = spec_create(old(self)@, id@);
                final(self)@ == s2 && (match (r, res) {
                    (Ok(f), Ok(e)) => f@ == e,
                    (Err(x), Err(ch)) => x.chain() == ch,
                    _ => false,
                })
            }),
    {
        let id = id.with_base(self.location.as_str());
        let ab = run_pipeline(&mut self.pre_create_aspects);
        if ab {
            proof {
                assert(final(self)@ =~~= spec_create(old(self)@, id@).0);
            }
            return Err(
                StoreError::wrap(
                    StoreErrorKind::CreateCallError,
                    StoreError::wrap(
                        StoreErrorKind::HookExecutionError,
                        StoreError::wrap(
                            StoreErrorKind::PreHookExecuteError,
                            StoreError::new(StoreErrorKind::HookExecutionError),
                        ),
                    ),
                ),
            );
        }
        let ghost s1 = StoreView { pre_create: pipeline_run(old(self)@.pre_create).0, ..old(self)@ };
        proof {
            assert(self@ =~~= s1);
        }
        match self.cache_find(&id) {
            Some(i) => {
                proof {
                    lemma_cache_lookup_index(self@.cache, id@.path, i as int);
                }
                Err(
                    StoreError::wrap(
                        StoreErrorKind::CreateCallError,
                        StoreError::new(StoreErrorKind::EntryAlreadyExists),
                    ),
                )
            },
            None => {
                proof {
                    lemma_cache_lookup_none(self@.cache, id@.path);
                }
                let rec = StoreEntry { id: id.duplicate(), status: StoreEntryStatus::Borrowed };
                self.entries.push(rec);
                proof {
                    assert(cache_model(self.entries@) =~= s1.cache.push((id@.path, true)));
                }
                let entry = Entry::new(id);
                let ghost s2 = StoreView { cache: s1.cache.push((entry@.location.path, true)), ..s1 };
                proof {
                    assert(self@ =~~= s2);
                }
                let ab2 = run_pipeline(&mut self.post_create_aspects);
                let ghost s3 = StoreView { post_create: pipeline_run(s2.post_create).0, ..s2 };
                proof {
                    assert(self@ =~~= s3);
                }
                if ab2 {
                    let _ = self.update_inner(&entry, true);
                    proof {
                        assert(final(self)@ =~~= spec_create(old(self)@, id@).0);
                    }
                    Err(
                        StoreError::wrap(
                            StoreErrorKind::CreateCallError,
                            StoreError::wrap(
                                StoreErrorKind::HookExecutionError,
                                StoreError::wrap(
                                    StoreErrorKind::PostHookExecuteError,
                                    StoreError::new(StoreErrorKind::HookExecutionError),
                                ),
                            ),
                        ),
                    )
                } else {
                    Ok(FileLockEntry { entry })
                }
            },
        }
    }

    /// Writes a handle's entry back without giving up the borrow.
    pub fn update(&mut self, fle: &mut FileLockEntry) -> (r: Result<(), StoreError>)
        requires
            cache_lookup(old(self)@.cache, old(fle)@.location.path) == Some(true),
        ensures
            final(fle)@ == old(fle)@,
            ({
                let (s2, err) = spec_update_inner(old(self)@, old(fle)@, false);
                final(self)@ == s2 && (match (r, err) {
                    (Ok(_), None) => true,
                    (Err(e), Some(ch)) => e.chain() == ch,
                    _ => false,
                })
            }),
    {
        self.update_inner(&fle.entry, false)
    }

    /// Gives a handle back: writes its entry to the backing storage and
    /// marks the cache record `Present` again.
    pub fn release(&mut self, fle: FileLockEntry) -> (r: Result<(), StoreError>)
        requires
            cache_lookup(old(self)@.cache, fle@.location.path) == Some(true),
        ensures
            ({
                let (s2, err) = spec_update_inner(old(self)@, fle@, true);
                final(self)@ == s2 && (match (r, err) {
                    (Ok(_), None) => true,
                    (Err(e), Some(ch)) => e.chain() == ch,
                    _ => false,
                })
            }),
    {
        self.update_inner(&fle.entry, true)
    }
}

/// The store a valid configuration opens: the configured aspect lists,
/// an empty cache, empty backing storage.
pub open spec fn spec_new_store(location: Seq<char>, cm: Option<ValueModel>) -> StoreView {
    StoreView {
        location,
        configuration: cm,
        unload: spec_aspects_at(cm, "store-unload-hook-aspects"@),
        pre_create: spec_aspects_at(cm, "pre-create-hook-aspects"@),
        post_create: spec_aspects_at(cm, "post-create-hook-aspects"@),
        pre_retrieve: spec_aspects_at(cm, "pre-retrieve-hook-aspects"@),
        post_retrieve: spec_aspects_at(cm, "post-retrieve-hook-aspects"@),
        pre_update: spec_aspects_at(cm, "pre-update-hook-aspects"@),
        post_update: spec_aspects_at(cm, "post-update-hook-aspects"@),
        pre_delete: spec_aspects_at(cm, "pre-delete-hook-aspects"@),
        post_delete: spec_aspects_at(cm, "post-delete-hook-aspects"@),
        pre_move: spec_aspects_at(cm, "pre-move-hook-aspects"@),
        post_move: spec_aspects_at(cm, "post-move-hook-aspects"@),
        cache: Seq::empty(),
        fs: Seq::empty(),
    }
}

/// The aspects configured under `key`: one empty aspect per configured
/// name, each with its `aspects.<name>` configuration sub-tree.
pub open spec fn spec_aspects_at(cm: Option<ValueModel>, key: Seq<char>) -> Seq<AspectView> {
    Seq::new(
        spec_aspect_names(cm, key).len(),
        |i: int|
            AspectView {
                name: spec_aspect_names(cm, key)[i],
                config: spec_section_entry(cm, "aspects"@, spec_aspect_names(cm, key)[i]),
                hooks: Seq::empty(),
            },
    )
}

/// Builds the aspect list configured under `key`.
fn build_aspects(config: &Option<Value>, key: &str) -> (r: Vec<Aspect>)
    ensures
        aspects_model(r@) == spec_aspects_at(opt_model(*config), key@),
{
    let names = crate::configuration::aspect_names(config, key);
    let mut r: Vec<Aspect> = Vec::new();
    let mut i: usize = 0;
    while i < names.len()
        invariant
            i <= names@.len(),
            crate::storeid::comps_model(names@) == spec_aspect_names(opt_model(*config), key@),
            r@.len() == i,
            aspects_model(r@) == spec_aspects_at(opt_model(*config), key@).take(i as int),
        decreases names@.len() - i,
    {
        let ghost sm = spec_aspects_at(opt_model(*config), key@);
        let cfg = crate::configuration::section_entry(config, "aspects", names[i].as_str());
        let a = Aspect::new(names[i].as_str(), cfg);
        proof {
            assert(a@.hooks =~= sm[i as int].hooks);
            assert(a@.name == sm[i as int].name);
            assert(a@.config == sm[i as int].config);
            assert(a@ =~~= sm[i as int]);
        }
        r.push(a);
        proof {
            assert(aspects_model(r@) =~= sm.take(i as int).push(a@));
            assert(sm.take(i as int).push(a@) =~= sm.take(i as int + 1));
        }
        i = i + 1;
    }
    proof {
        assert(spec_aspects_at(opt_model(*config), key@).take(r@.len() as int)
            =~= spec_aspects_at(opt_model(*config), key@));
    }
    r
}


/// Retrieving an entry: materialize it from the cache and backing
/// storage (a missing file synthesizes a default), flip its record to
/// `Borrowed`, and hand it out, gated by the hook pipelines. A borrowed
/// identifier cannot be retrieved again.
pub open spec fn spec_retrieve(s: StoreView, id: IdView) -> (StoreView, Result<
    EntryView,
    Seq<StoreErrorKind>,
>) {
    let cid = with_base_view(id, s.location);
    let (pre2, ab) = pipeline_run(s.pre_retrieve);
    let s1 = StoreView { pre_retrieve: pre2, ..s };
    if ab {
        (
            s1,
            Err(
                hook_chain(
                    StoreErrorKind::RetrieveCallError,
                    StoreErrorKind::PreHookExecuteError,
                ),
            ),
        )
    } else if cache_lookup(s1.cache, cid.path) == Some(true) {
        (s1, Err(seq![StoreErrorKind::RetrieveCallError, StoreErrorKind::EntryAlreadyBorrowed]))
    } else {
        match spec_read_entry(s1.fs, s1.location, cid) {
            Err(ch) => (s1, Err(seq![StoreErrorKind::RetrieveCallError] + ch)),
            Ok(e) => {
                let s2 = StoreView {
                    cache: if cache_contains(s1.cache, cid.path) {
                        cache_set(s1.cache, cid.path, true)
                    } else {
                        s1.cache.push((cid.path, true))
                    },
                    ..s1
                };
                let (post2, ab2) = pipeline_run(s2.post_retrieve);
                let s3 = StoreView { post_retrieve: post2, ..s2 };
                if ab2 {
                    let (s4, _) = spec_update_inner(s3, e, true);
                    (
                        s4,
                        Err(
                            hook_chain(
                                StoreErrorKind::RetrieveCallError,
                                StoreErrorKind::PostHookExecuteError,
                            ),
                        ),
                    )
                } else {
                    (s3, Ok(e))
                }
            },
        }
    }
}

/// Getting an entry: `None` iff neither the cache nor the backing
/// storage knows the identifier; otherwise a retrieve.
pub open spec fn spec_get(s: StoreView, id: IdView) -> (StoreView, Result<
    Option<EntryView>,
    Seq<StoreErrorKind>,
>) {
    let cid = with_base_view(id, s.location);
    if !fs_contains(s.fs, fs_path_of(s.location, cid.path)) && !cache_contains(s.cache, cid.path) {
        (s, Ok(None))
    } else {
        let (s2, r) = spec_retrieve(s, id);
        match r {
            Ok(e) => (s2, Ok(Some(e))),
            Err(ch) => (s2, Err(seq![StoreErrorKind::GetCallError] + ch)),
        }
    }
}

/// Deleting an entry: an identifier the cache does not know is a
/// `FileNotFound`; a borrowed one is `IdLocked`; otherwise the record
/// and the backing file are removed, gated by the hook pipelines.
pub open spec fn spec_delete(s: StoreView, id: IdView) -> (StoreView, Option<Seq<StoreErrorKind>>) {
    let cid = with_base_view(id, s.location);
    let (pre2, ab) = pipeline_run(s.pre_delete);
    let s1 = StoreView { pre_delete: pre2, ..s };
    if ab {
        (
            s1,
            Some(
                hook_chain(StoreErrorKind::DeleteCallError, StoreErrorKind::PreHookExecuteError),
            ),
        )
    } else {
        match cache_lookup(s1.cache, cid.path) {
            None => (s1, Some(seq![StoreErrorKind::DeleteCallError, StoreErrorKind::FileNotFound])),
            Some(true) => (
                s1,
                Some(seq![StoreErrorKind::DeleteCallError, StoreErrorKind::IdLocked]),
            ),
            Some(false) => {
                let s2 = StoreView { cache: cache_remove(s1.cache, cid.path), ..s1 };
                let p = fs_path_of(s2.location, cid.path);
                if !fs_contains(s2.fs, p) {
                    (
                        s2,
                        Some(
                            seq![
                                StoreErrorKind::DeleteCallError,
                                StoreErrorKind::FileError,
                                StoreErrorKind::FileNotFound,
                            ],
                        ),
                    )
                } else {
                    let s3 = StoreView { fs: fs_remove(s2.fs, p), ..s2 };
                    let (post2, ab2) = pipeline_run(s3.post_delete);
                    let s4 = StoreView { post_delete: post2, ..s3 };
                    if ab2 {
                        (
                            s4,
                            Some(
                                hook_chain(
                                    StoreErrorKind::DeleteCallError,
                                    StoreErrorKind::PostHookExecuteError,
                                ),
                            ),
                        )
                    } else {
                        (s4, None)
                    }
                }
            },
        }
    }
}

/// A read-only duplicate: refused while a writer holds the entry, read
/// straight from the backing storage otherwise; the store is untouched.
pub open spec fn spec_retrieve_copy(s: StoreView, id: IdView) -> Result<
    EntryView,
    Seq<StoreErrorKind>,
> {
    let cid = with_base_view(id, s.location);
    if cache_lookup(s.cache, cid.path) == Some(true) {
        Err(seq![StoreErrorKind::RetrieveCopyCallError, StoreErrorKind::IdLocked])
    } else {
        match spec_read_entry(s.fs, s.location, cid) {
            Err(ch) => Err(seq![StoreErrorKind::RetrieveCopyCallError] + ch),
            Ok(e) => Ok(e),
        }
    }
}

/// Copying a handle's backing file to a new identifier, optionally
/// removing the source; the new identifier must be unknown to both the
/// cache and the backing storage. Post-move hooks fire on the new
/// identifier; its cache state is not materialized.
pub open spec fn spec_save_to(
    s: StoreView,
    e: EntryView,
    new_id: IdView,
    remove_old: bool,
) -> (StoreView, Option<Seq<StoreErrorKind>>) {
    let nid = with_base_view(new_id, s.location);
    let newp = fs_path_of(s.location, nid.path);
    let oldp = fs_path_of(s.location, e.location.path);
    if cache_contains(s.cache, nid.path) || fs_contains(s.fs, newp) {
        (s, Some(seq![StoreErrorKind::MoveCallError, StoreErrorKind::EntryAlreadyExists]))
    } else {
        match fs_lookup(s.fs, oldp) {
            None => (
                s,
                Some(
                    seq![
                        StoreErrorKind::MoveCallError,
                        StoreErrorKind::FileError,
                        StoreErrorKind::FileNotFound,
                    ],
                ),
            ),
            Some(c) => {
                let fs1 = fs_write(s.fs, newp, c);
                let fs2 = if remove_old {
                    fs_remove(fs1, oldp)
                } else {
                    fs1
                };
                let s2 = StoreView { fs: fs2, ..s };
                let (post2, ab2) = pipeline_run(s2.post_move);
                let s3 = StoreView { post_move: post2, ..s2 };
                if ab2 {
                    (
                        s3,
                        Some(
                            hook_chain(
                                StoreErrorKind::MoveCallError,
                                StoreErrorKind::PostHookExecuteError,
                            ),
                        ),
                    )
                } else {
                    (s3, None)
                }
            },
        }
    }
}

/// Moving an entry without loading it: the new identifier must not be
/// resident, the old one must not be borrowed; the backing file is
/// renamed and the cache record re-keyed.
pub open spec fn spec_move_by_id(s: StoreView, old_id: IdView, new_id: IdView) -> (
    StoreView,
    Option<Seq<StoreErrorKind>>,
) {
    let o = with_base_view(old_id, s.location);
    let n = with_base_view(new_id, s.location);
    let oldp = fs_path_of(s.location, o.path);
    let newp = fs_path_of(s.location, n.path);
    let (pre2, ab) = pipeline_run(s.pre_move);
    let s1 = StoreView { pre_move: pre2, ..s };
    if ab {
        (
            s1,
            Some(
                hook_chain(
                    StoreErrorKind::MoveByIdCallError,
                    StoreErrorKind::PreHookExecuteError,
                ),
            ),
        )
    } else if cache_contains(s1.cache, n.path) {
        (s1, Some(seq![StoreErrorKind::MoveByIdCallError, StoreErrorKind::EntryAlreadyExists]))
    } else if cache_lookup(s1.cache, o.path) == Some(true) {
        (s1, Some(seq![StoreErrorKind::MoveByIdCallError, StoreErrorKind::EntryAlreadyBorrowed]))
    } else {
        match fs_lookup(s1.fs, oldp) {
            None => (
                s1,
                Some(
                    seq![
                        StoreErrorKind::MoveByIdCallError,
                        StoreErrorKind::EntryRenameError,
                        StoreErrorKind::FileNotFound,
                    ],
                ),
            ),
            Some(c) => {
                let fs2 = fs_write(fs_remove(s1.fs, oldp), newp, c);
                let cache2 = if cache_contains(s1.cache, o.path) {
                    cache_remove(s1.cache, o.path).push((n.path, false))
                } else {
                    s1.cache
                };
                let s2 = StoreView { fs: fs2, cache: cache2, ..s1 };
                let (post2, ab2) = pipeline_run(s2.post_move);
                let s3 = StoreView { post_move: post2, ..s2 };
                if ab2 {
                    (
                        s3,
                        Some(
                            hook_chain(
                                StoreErrorKind::MoveByIdCallError,
                                StoreErrorKind::PostHookExecuteError,
                            ),
                        ),
                    )
                } else {
                    (s3, None)
                }
            },
        }
    }
}

impl Store {
    /// Borrows the entry at `id`, creating a default one if neither the
    /// cache nor the backing storage knows it.
    pub fn retrieve(&mut self, id: StoreId) -> (r: Result<FileLockEntry, StoreError>)
        ensures
            ({
                let (s2, res) = spec_retrieve(old(self)@, id@);
                final(self)@ == s2 && (match (r, res) {
                    (Ok(f), Ok(e)) => f@ == e,
                    (Err(x), Err(ch)) => x.chain() == ch,
                    _ => false,
                })
            }),
    {
        let id = id.with_base(self.location.as_str());
        let ab = run_pipeline(&mut self.pre_retrieve_aspects);
        if ab {
            proof {
                assert(final(self)@ =~~= spec_retrieve(old(self)@, id@).0);
            }
            return Err(
                StoreError::wrap(
                    StoreErrorKind::RetrieveCallError,
                    StoreError::wrap(
                        StoreErrorKind::HookExecutionError,
                        StoreError::wrap(
                            StoreErrorKind::PreHookExecuteError,
                            StoreError::new(StoreErrorKind::HookExecutionError),
                        ),
                    ),
                ),
            );
        }
        let ghost s1 = StoreView {
            pre_retrieve: pipeline_run(old(self)@.pre_retrieve).0,
            ..old(self)@
        };
        proof {
            assert(self@ =~~= s1);
        }
        let found = self.cache_find(&id);
        match found {
            Some(i) => {
                proof {
                    lemma_cache_lookup_index(self@.cache, id@.path, i as int);
                }
                if self.entries[i].is_borrowed() {
                    return Err(
                        StoreError::wrap(
                            StoreErrorKind::RetrieveCallError,
                            StoreError::new(StoreErrorKind::EntryAlreadyBorrowed),
                        ),
                    );
                }
                match self.read_entry(&id) {
                    Err(e) => Err(StoreError::wrap(StoreErrorKind::RetrieveCallError, e)),
                    Ok(entry) => {
                        proof {
                            lemma_cache_set_index(s1.cache, id@.path, true, i as int);
                        }
                        let rec = StoreEntry {
                            id: id.duplicate(),
                            status: StoreEntryStatus::Borrowed,
                        };
                        self.entries.set(i, rec);
                        proof {
                            assert(cache_model(self.entries@) =~= cache_set(
                                s1.cache,
                                id@.path,
                                true,
                            ));
                        }
                        self.finish_retrieve(entry, Ghost(s1), Ghost(id@))
                    },
                }
            },
            None => {
                proof {
                    lemma_cache_lookup_none(self@.cache, id@.path);
                }
                match self.read_entry(&id) {
                    Err(e) => Err(StoreError::wrap(StoreErrorKind::RetrieveCallError, e)),
                    Ok(entry) => {
                        let rec = StoreEntry {
                            id: id.duplicate(),
                            status: StoreEntryStatus::Borrowed,
                        };
                        self.entries.push(rec);
                        proof {
                            assert(cache_model(self.entries@) =~= s1.cache.push((id@.path, true)));
                        }
                        self.finish_retrieve(entry, Ghost(s1), Ghost(id@))
                    },
                }
            },
        }
    }

    /// The post-retrieve phase: hooks, and on an abort the handle is
    /// released back to the cache before the error returns.
    fn finish_retrieve(
        &mut self,
        entry: Entry,
        Ghost(s1): Ghost<StoreView>,
        Ghost(cid): Ghost<IdView>,
    ) -> (r: Result<FileLockEntry, StoreError>)
        requires
            old(self)@ == (StoreView {
                cache: if cache_contains(s1.cache, cid.path) {
                    cache_set(s1.cache, cid.path, true)
                } else {
                    s1.cache.push((cid.path, true))
                },
                ..s1
            }),
            entry@.location.path == cid.path,
        ensures
            ({
                let s2 = old(self)@;
                let (post2, ab2) = pipeline_run(s2.post_retrieve);
                let s3 = StoreView { post_retrieve: post2, ..s2 };
                if ab2 {
                    final(self)@ == spec_update_inner(s3, entry@, true).0 && (r matches Err(x)
                        && x.chain() == hook_chain(
                        StoreErrorKind::RetrieveCallError,
                        StoreErrorKind::PostHookExecuteError,
                    ))
                } else {
                    final(self)@ == s3 && (r matches Ok(f) && f@ == entry@)
                }
            }),
    {
        let ghost s2 = old(self)@;
        let ab2 = run_pipeline(&mut self.post_retrieve_aspects);
        proof {
            assert(self@ =~~= StoreView {
                post_retrieve: pipeline_run(s2.post_retrieve).0,
                ..s2
            });
        }
        if ab2 {
            let _ = self.update_inner(&entry, true);
            Err(
                StoreError::wrap(
                    StoreErrorKind::RetrieveCallError,
                    StoreError::wrap(
                        StoreErrorKind::HookExecutionError,
                        StoreError::wrap(
                            StoreErrorKind::PostHookExecuteError,
                            StoreError::new(StoreErrorKind::HookExecutionError),
                        ),
                    ),
                ),
            )
        } else {
            Ok(FileLockEntry { entry })
        }
    }

    /// Gets the entry at `id` if the store knows it; `get` never
    /// creates.
    pub fn get(&mut self, id: StoreId) -> (r: Result<Option<FileLockEntry>, StoreError>)
        ensures
            ({
                let (s2, res) = spec_get(old(self)@, id@);
                final(self)@ == s2 && (match (r, res) {
                    (Ok(None), Ok(None)) => true,
                    (Ok(Some(f)), Ok(Some(e))) => f@ == e,
                    (Err(x), Err(ch)) => x.chain() == ch,
                    _ => false,
                })
            }),
    {
        let cid = id.duplicate().with_base(self.location.as_str());
        let p = cid.fs_path_under(self.location.as_str());
        let in_fs = self.backend.file_exists(p.as_str());
        let in_cache = match self.cache_find(&cid) {
            Some(i) => {
                proof {
                    lemma_cache_lookup_index(self@.cache, cid@.path, i as int);
                }
                true
            },
            None => {
                proof {
                    lemma_cache_lookup_none(self@.cache, cid@.path);
                }
                false
            },
        };
        if !in_fs && !in_cache {
            return Ok(None);
        }
        match self.retrieve(id) {
            Ok(f) => Ok(Some(f)),
            Err(e) => Err(StoreError::wrap(StoreErrorKind::GetCallError, e)),
        }
    }

    /// Deletes the entry at `id` from the cache and the backing
    /// storage.
    pub fn delete(&mut self, id: StoreId) -> (r: Result<(), StoreError>)
        ensures
            ({
                let (s2, err) = spec_delete(old(self)@, id@);
                final(self)@ == s2 && (match (r, err) {
                    (Ok(_), None) => true,
                    (Err(x), Some(ch)) => x.chain() == ch,
                    _ => false,
                })
            }),
    {
        let id = id.with_base(self.location.as_str());
        let ab = run_pipeline(&mut self.pre_delete_aspects);
        if ab {
            proof {
                assert(final(self)@ =~~= spec_delete(old(self)@, id@).0);
            }
            return Err(
                StoreError::wrap(
                    StoreErrorKind::DeleteCallError,
                    StoreError::wrap(
                        StoreErrorKind::HookExecutionError,
                        StoreError::wrap(
                            StoreErrorKind::PreHookExecuteError,
                            StoreError::new(StoreErrorKind::HookExecutionError),
                        ),
                    ),
                ),
            );
        }
        let ghost s1 = StoreView { pre_delete: pipeline_run(old(self)@.pre_delete).0, ..old(self)@ };
        proof {
            assert(self@ =~~= s1);
        }
        match self.cache_find(&id) {
            None => {
                proof {
                    lemma_cache_lookup_none(self@.cache, id@.path);
                }
                Err(
                    StoreError::wrap(
                        StoreErrorKind::DeleteCallError,
                        StoreError::new(StoreErrorKind::FileNotFound),
                    ),
                )
            },
            Some(i) => {
                proof {
                    lemma_cache_lookup_index(self@.cache, id@.path, i as int);
                }
                if self.entries[i].is_borrowed() {
                    return Err(
                        StoreError::wrap(
                            StoreErrorKind::DeleteCallError,
                            StoreError::new(StoreErrorKind::IdLocked),
                        ),
                    );
                }
                proof {
                    lemma_cache_remove_index(s1.cache, id@.path, i as int);
                }
                self.entries.remove(i);
                proof {
                    assert(cache_model(self.entries@) =~= cache_remove(s1.cache, id@.path));
                }
                let ghost s2 = StoreView { cache: cache_remove(s1.cache, id@.path), ..s1 };
                proof {
                    assert(self@ =~~= s2);
                }
                let p = id.fs_path_under(self.location.as_str());
                match self.backend.remove_file(p.as_str()) {
                    Err(e) => Err(
                        StoreError::wrap(
                            StoreErrorKind::DeleteCallError,
                            StoreError::wrap(StoreErrorKind::FileError, e),
                        ),
                    ),
                    Ok(_) => {
                        let ghost s3 = StoreView {
                            fs: fs_remove(s2.fs, fs_path_of(s2.location, id@.path)),
                            ..s2
                        };
                        proof {
                            assert(self@ =~~= s3);
                        }
                        let ab2 = run_pipeline(&mut self.post_delete_aspects);
                        proof {
                            assert(final(self)@ =~~= StoreView {
                                post_delete: pipeline_run(s3.post_delete).0,
                                ..s3
                            });
                        }
                        if ab2 {
                            Err(
                                StoreError::wrap(
                                    StoreErrorKind::DeleteCallError,
                                    StoreError::wrap(
                                        StoreErrorKind::HookExecutionError,
                                        StoreError::wrap(
                                            StoreErrorKind::PostHookExecuteError,
                                            StoreError::new(StoreErrorKind::HookExecutionError),
                                        ),
                                    ),
                                ),
                            )
                        } else {
                            Ok(())
                        }
                    },
                }
            },
        }
    }

    /// A read-only duplicate of the entry at `id`; refused with
    /// `IdLocked` while a writer holds it.
    pub fn retrieve_copy(&mut self, id: StoreId) -> (r: Result<Entry, StoreError>)
        ensures
            final(self)@ == old(self)@,
            (match (r, spec_retrieve_copy(old(self)@, id@)) {
                (Ok(x), Ok(e)) => x@ == e,
                (Err(x), Err(ch)) => x.chain() == ch,
                _ => false,
            }),
    {
        let id = id.with_base(self.location.as_str());
        match self.cache_find(&id) {
            Some(i) => {
                proof {
                    lemma_cache_lookup_index(self@.cache, id@.path, i as int);
                }
                if self.entries[i].is_borrowed() {
                    return Err(
                        StoreError::wrap(
                            StoreErrorKind::RetrieveCopyCallError,
                            StoreError::new(StoreErrorKind::IdLocked),
                        ),
                    );
                }
                match self.read_entry(&id) {
                    Err(e) => Err(StoreError::wrap(StoreErrorKind::RetrieveCopyCallError, e)),
                    Ok(entry) => Ok(entry),
                }
            },
            None => {
                proof {
                    lemma_cache_lookup_none(self@.cache, id@.path);
                }
                match self.read_entry(&id) {
                    Err(e) => Err(StoreError::wrap(StoreErrorKind::RetrieveCopyCallError, e)),
                    Ok(entry) => Ok(entry),
                }
            },
        }
    }

    /// Saves a copy of the handle's backing file under `new_id`.
    pub fn save_to(&mut self, fle: &FileLockEntry, new_id: StoreId) -> (r: Result<(), StoreError>)
        ensures
            ({
                let (s2, err) = spec_save_to(old(self)@, fle@, new_id@, false);
                final(self)@ == s2 && (match (r, err) {
                    (Ok(_), None) => true,
                    (Err(x), Some(ch)) => x.chain() == ch,
                    _ => false,
                })
            }),
    {
        self.save_to_other_location(&fle.entry, new_id, false)
    }

    /// Saves the handle's backing file under `new_id` and removes the
    /// original file.
    pub fn save_as(&mut self, fle: FileLockEntry, new_id: StoreId) -> (r: Result<(), StoreError>)
        ensures
            ({
                let (s2, err) = spec_save_to(old(self)@, fle@, new_id@, true);
                final(self)@ == s2 && (match (r, err) {
                    (Ok(_), None) => true,
                    (Err(x), Some(ch)) => x.chain() == ch,
                    _ => false,
                })
            }),
    {
        self.save_to_other_location(&fle.entry, new_id, true)
    }

    fn save_to_other_location(&mut self, entry: &Entry, new_id: StoreId, remove_old: bool) -> (r:
        Result<(), StoreError>)
        ensures
            ({
                let (s2, err) = spec_save_to(old(self)@, entry@, new_id@, remove_old);
                final(self)@ == s2 && (match (r, err) {
                    (Ok(_), None) => true,
                    (Err(x), Some(ch)) => x.chain() == ch,
                    _ => false,
                })
            }),
    {
        let new_id = new_id.with_base(self.location.as_str());
        let newp = new_id.fs_path_under(self.location.as_str());
        let oldp = entry.get_location().fs_path_under(self.location.as_str());
        let in_cache = match self.cache_find(&new_id) {
            Some(i) => {
                proof {
                    lemma_cache_lookup_index(self@.cache, new_id@.path, i as int);
                }
                true
            },
            None => {
                proof {
                    lemma_cache_lookup_none(self@.cache, new_id@.path);
                }
                false
            },
        };
        if in_cache || self.backend.file_exists(newp.as_str()) {
            return Err(
                StoreError::wrap(
                    StoreErrorKind::MoveCallError,
                    StoreError::new(StoreErrorKind::EntryAlreadyExists),
                ),
            );
        }
        match self.backend.copy(oldp.as_str(), newp.as_str()) {
            Err(e) => Err(
                StoreError::wrap(
                    StoreErrorKind::MoveCallError,
                    StoreError::wrap(StoreErrorKind::FileError, e),
                ),
            ),
            Ok(_) => {
                if remove_old {
                    proof {
                        crate::file_abstraction::lemma_fs_write_other(
                            old(self)@.fs,
                            fs_path_of(old(self)@.location, new_id@.path),
                            fs_lookup(
                                old(self)@.fs,
                                fs_path_of(old(self)@.location, entry@.location.path),
                            )->Some_0,
                            fs_path_of(old(self)@.location, entry@.location.path),
                        );
                    }
                    match self.backend.remove_file(oldp.as_str()) {
                        Ok(_) => {},
                        Err(_) => {
                            proof {
                                assert(false);
                            }
                        },
                    }
                }
                let ghost s2 = spec_save_to(old(self)@, entry@, new_id@, remove_old);
                let ab2 = run_pipeline(&mut self.post_move_aspects);
                if ab2 {
                    proof {
                        assert(final(self)@ =~~= spec_save_to(
                            old(self)@,
                            entry@,
                            new_id@,
                            remove_old,
                        ).0);
                    }
                    Err(
                        StoreError::wrap(
                            StoreErrorKind::MoveCallError,
                            StoreError::wrap(
                                StoreErrorKind::HookExecutionError,
                                StoreError::wrap(
                                    StoreErrorKind::PostHookExecuteError,
                                    StoreError::new(StoreErrorKind::HookExecutionError),
                                ),
                            ),
                        ),
                    )
                } else {
                    proof {
                        assert(final(self)@ =~~= spec_save_to(
                            old(self)@,
                            entry@,
                            new_id@,
                            remove_old,
                        ).0);
                    }
                    Ok(())
                }
            },
        }
    }

    /// Moves an entry from `old_id` to `new_id` without loading it.
    pub fn move_by_id(&mut self, old_id: StoreId, new_id: StoreId) -> (r: Result<(), StoreError>)
        ensures
            ({
                let (s2, err) = spec_move_by_id(old(self)@, old_id@, new_id@);
                final(self)@ == s2 && (match (r, err) {
                    (Ok(_), None) => true,
                    (Err(x), Some(ch)) => x.chain() == ch,
                    _ => false,
                })
            }),
    {
        let old_id = old_id.with_base(self.location.as_str());
        let new_id = new_id.with_base(self.location.as_str());
        let oldp = old_id.fs_path_under(self.location.as_str());
        let newp = new_id.fs_path_under(self.location.as_str());
        let ab = run_pipeline(&mut self.pre_move_aspects);
        if ab {
            proof {
                assert(final(self)@ =~~= spec_move_by_id(old(self)@, old_id@, new_id@).0);
            }
            return Err(
                StoreError::wrap(
                    StoreErrorKind::MoveByIdCallError,
                    StoreError::wrap(
                        StoreErrorKind::HookExecutionError,
                        StoreError::wrap(
                            StoreErrorKind::PreHookExecuteError,
                            StoreError::new(StoreErrorKind::HookExecutionError),
                        ),
                    ),
                ),
            );
        }
        let ghost s1 = StoreView { pre_move: pipeline_run(old(self)@.pre_move).0, ..old(self)@ };
        proof {
            assert(self@ =~~= s1);
        }
        let new_cached = match self.cache_find(&new_id) {
            Some(i) => {
                proof {
                    lemma_cache_lookup_index(self@.cache, new_id@.path, i as int);
                }
                true
            },
            None => {
                proof {
                    lemma_cache_lookup_none(self@.cache, new_id@.path);
                }
                false
            },
        };
        if new_cached {
            return Err(
                StoreError::wrap(
                    StoreErrorKind::MoveByIdCallError,
                    StoreError::new(StoreErrorKind::EntryAlreadyExists),
                ),
            );
        }
        let old_idx = self.cache_find(&old_id);
        match old_idx {
            Some(i) => {
                proof {
                    lemma_cache_lookup_index(self@.cache, old_id@.path, i as int);
                }
                if self.entries[i].is_borrowed() {
                    return Err(
                        StoreError::wrap(
                            StoreErrorKind::MoveByIdCallError,
                            StoreError::new(StoreErrorKind::EntryAlreadyBorrowed),
                        ),
                    );
                }
            },
            None => {
                proof {
                    lemma_cache_lookup_none(self@.cache, old_id@.path);
                }
            },
        }
        match self.backend.rename(oldp.as_str(), newp.as_str()) {
            Err(e) => Err(
                StoreError::wrap(
                    StoreErrorKind::MoveByIdCallError,
                    StoreError::wrap(StoreErrorKind::EntryRenameError, e),
                ),
            ),
            Ok(_) => {
                match old_idx {
                    Some(i) => {
                        proof {
                            lemma_cache_remove_index(s1.cache, old_id@.path, i as int);
                        }
                        self.entries.remove(i);
                        let rec = StoreEntry {
                            id: new_id.duplicate(),
                            status: StoreEntryStatus::Present,
                        };
                        self.entries.push(rec);
                        proof {
                            assert(cache_model(self.entries@) =~= cache_remove(
                                s1.cache,
                                old_id@.path,
                            ).push((new_id@.path, false)));
                        }
                    },
                    None => {},
                }
                let ghost s2 = StoreView {
                    fs: fs_write(
                        fs_remove(s1.fs, fs_path_of(s1.location, old_id@.path)),
                        fs_path_of(s1.location, new_id@.path),
                        fs_lookup(s1.fs, fs_path_of(s1.location, old_id@.path))->Some_0,
                    ),
                    cache: if cache_contains(s1.cache, old_id@.path) {
                        cache_remove(s1.cache, old_id@.path).push((new_id@.path, false))
                    } else {
                        s1.cache
                    },
                    ..s1
                };
                proof {
                    assert(self@ =~~= s2);
                }
                let ab2 = run_pipeline(&mut self.post_move_aspects);
                proof {
                    assert(final(self)@ =~~= StoreView {
                        post_move: pipeline_run(s2.post_move).0,
                        ..s2
                    });
                }
                if ab2 {
                    Err(
                        StoreError::wrap(
                            StoreErrorKind::MoveByIdCallError,
                            StoreError::wrap(
                                StoreErrorKind::HookExecutionError,
                                StoreError::wrap(
                                    StoreErrorKind::PostHookExecuteError,
                                    StoreError::new(StoreErrorKind::HookExecutionError),
                                ),
                            ),
                        ),
                    )
                } else {
                    Ok(())
                }
            },
        }
    }
}


/// Whether a hook's shape fits a position: the pre, delete and unload
/// points pass only the identifier; the post-create, post-retrieve and
/// update points pass the mutable entry.
pub open spec fn shape_fits(shape: crate::hook::HookShape, pos: HookPosition) -> bool {
    match shape {
        crate::hook::HookShape::Both => true,
        crate::hook::HookShape::IdOnly => match pos {
            HookPosition::StoreUnload => true,
            HookPosition::PreCreate => true,
            HookPosition::PreRetrieve => true,
            HookPosition::PreDelete => true,
            HookPosition::PostDelete => true,
            HookPosition::PreMove => true,
            HookPosition::PostMove => true,
            _ => false,
        },
        crate::hook::HookShape::EntryMutating => match pos {
            HookPosition::PostCreate => true,
            HookPosition::PostRetrieve => true,
            HookPosition::PreUpdate => true,
            HookPosition::PostUpdate => true,
            _ => false,
        },
    }
}

/// The aspect list a position selects.
pub open spec fn pos_list(s: StoreView, pos: HookPosition) -> Seq<AspectView> {
    match pos {
        HookPosition::StoreUnload => s.unload,
        HookPosition::PreCreate => s.pre_create,
        HookPosition::PostCreate => s.post_create,
        HookPosition::PreRetrieve => s.pre_retrieve,
        HookPosition::PostRetrieve => s.post_retrieve,
        HookPosition::PreUpdate => s.pre_update,
        HookPosition::PostUpdate => s.post_update,
        HookPosition::PreDelete => s.pre_delete,
        HookPosition::PostDelete => s.post_delete,
        HookPosition::PreMove => s.pre_move,
        HookPosition::PostMove => s.post_move,
    }
}

/// The store with a position's aspect list replaced.
pub open spec fn with_pos_list(s: StoreView, pos: HookPosition, l: Seq<AspectView>) -> StoreView {
    match pos {
        HookPosition::StoreUnload => StoreView { unload: l, ..s },
        HookPosition::PreCreate => StoreView { pre_create: l, ..s },
        HookPosition::PostCreate => StoreView { post_create: l, ..s },
        HookPosition::PreRetrieve => StoreView { pre_retrieve: l, ..s },
        HookPosition::PostRetrieve => StoreView { post_retrieve: l, ..s },
        HookPosition::PreUpdate => StoreView { pre_update: l, ..s },
        HookPosition::PostUpdate => StoreView { post_update: l, ..s },
        HookPosition::PreDelete => StoreView { pre_delete: l, ..s },
        HookPosition::PostDelete => StoreView { post_delete: l, ..s },
        HookPosition::PreMove => StoreView { pre_move: l, ..s },
        HookPosition::PostMove => StoreView { post_move: l, ..s },
    }
}

/// The first aspect with the given name.
pub open spec fn aspect_index(asps: Seq<AspectView>, name: Seq<char>) -> Option<int>
    decreases asps.len(),
{
    if asps.len() == 0 {
        None
    } else if asps[0].name == name {
        Some(0int)
    } else {
        match aspect_index(asps.skip(1), name) {
            Some(i) => Some(i + 1),
            None => None,
        }
    }
}

proof fn lemma_aspect_index_first(asps: Seq<AspectView>, name: Seq<char>, i: int)
    requires
        0 <= i < asps.len(),
        forall|j: int| 0 <= j < i ==> asps[j].name != name,
        asps[i].name == name,
    ensures
        aspect_index(asps, name) == Some(i),
    decreases asps.len(),
{
    if i > 0 {
        lemma_aspect_index_first(asps.skip(1), name, i - 1);
    }
}

proof fn lemma_aspect_index_none(asps: Seq<AspectView>, name: Seq<char>)
    requires
        forall|j: int| 0 <= j < asps.len() ==> asps[j].name != name,
    ensures
        aspect_index(asps, name) is None,
    decreases asps.len(),
{
    if asps.len() > 0 {
        lemma_aspect_index_none(asps.skip(1), name);
    }
}

/// A hook with its configuration attached, if the store configuration
/// has a `hooks.<name>` sub-tree.
pub open spec fn hook_with_config(h: HookView, cfg: Option<ValueModel>) -> HookView {
    match cfg {
        Some(c) => HookView { config: Some(c), ..h },
        None => h,
    }
}

/// Registering a hook: the shape must fit the position; the named
/// aspect must exist in the position's group; the hook, given its
/// `hooks.<name>` configuration, is appended to that aspect.
pub open spec fn spec_register(
    s: StoreView,
    pos: HookPosition,
    aspect_name: Seq<char>,
    h: HookView,
) -> (StoreView, Option<Seq<StoreErrorKind>>) {
    if !shape_fits(h.shape, pos) {
        (s, Some(seq![StoreErrorKind::HookRegisterError]))
    } else {
        let l = pos_list(s, pos);
        match aspect_index(l, aspect_name) {
            None => (
                s,
                Some(
                    seq![
                        StoreErrorKind::HookRegisterError,
                        StoreErrorKind::AspectNameNotFoundError,
                    ],
                ),
            ),
            Some(i) => {
                let h2 = hook_with_config(h, spec_section_entry(s.configuration, "hooks"@, h.name));
                let a2 = AspectView { hooks: l[i].hooks.push(h2), ..l[i] };
                (with_pos_list(s, pos, l.update(i, a2)), None)
            },
        }
    }
}

/// The index of the first aspect with the given name.
fn find_aspect_idx(aspects: &Vec<Aspect>, name: &str) -> (r: Option<usize>)
    ensures
        match r {
            Some(i) => i < aspects@.len() && aspects_model(aspects@)[i as int].name == name@
                && forall|j: int| 0 <= j < i ==> aspects_model(aspects@)[j].name != name@,
            None => forall|j: int|
                0 <= j < aspects@.len() ==> aspects_model(aspects@)[j].name != name@,
        },
{
    let mut i: usize = 0;
    while i < aspects.len()
        invariant
            i <= aspects@.len(),
            forall|j: int| 0 <= j < i ==> aspects_model(aspects@)[j].name != name@,
        decreases aspects@.len() - i,
    {
        if crate::chars::str_eq(aspects[i].name().as_str(), name) {
            return Some(i);
        }
        i = i + 1;
    }
    None
}

/// Appends a configured hook to the named aspect of one list.
fn register_in(aspects: &mut Vec<Aspect>, aspect_name: &str, hook: Hook) -> (r: Result<
    (),
    StoreError,
>)
    ensures
        match aspect_index(aspects_model(old(aspects)@), aspect_name@) {
            None => final(aspects)@ == old(aspects)@ && (r matches Err(e) && e.chain() == seq![
                StoreErrorKind::HookRegisterError,
                StoreErrorKind::AspectNameNotFoundError,
            ]),
            Some(i) => r is Ok && aspects_model(final(aspects)@) == aspects_model(
                old(aspects)@,
            ).update(
                i,
                (AspectView {
                    hooks: aspects_model(old(aspects)@)[i].hooks.push(hook@),
                    ..aspects_model(old(aspects)@)[i]
                }),
            ),
        },
{
    let ghost pre = aspects_model(aspects@);
    let found = find_aspect_idx(aspects, aspect_name);
    match found {
        Some(i) => {
            proof {
                lemma_aspect_index_first(pre, aspect_name@, i as int);
            }
            let mut a = aspects.remove(i);
            a.register_hook(hook);
            aspects.insert(i, a);
            proof {
                assert(aspects_model(aspects@) =~= pre.update(
                    i as int,
                    AspectView { hooks: pre[i as int].hooks.push(hook@), ..pre[i as int] },
                ));
            }
            Ok(())
        },
        None => {
            proof {
                lemma_aspect_index_none(pre, aspect_name@);
            }
            Err(
                StoreError::wrap(
                    StoreErrorKind::HookRegisterError,
                    StoreError::new(StoreErrorKind::AspectNameNotFoundError),
                ),
            )
        },
    }
}

impl Store {
    /// Registers a hook at a position under an aspect name. The hook's
    /// shape must fit the position, and the aspect must be configured
    /// there; the hook receives its `hooks.<name>` configuration.
    pub fn register_hook(
        &mut self,
        position: HookPosition,
        aspect_name: &str,
        hook: Hook,
    ) -> (r: Result<(), StoreError>)
        ensures
            ({
                let (s2, err) = spec_register(old(self)@, position, aspect_name@, hook@);
                final(self)@ == s2 && (match (r, err) {
                    (Ok(_), None) => true,
                    (Err(x), Some(ch)) => x.chain() == ch,
                    _ => false,
                })
            }),
    {
        let fits = match hook.shape() {
            crate::hook::HookShape::Both => true,
            crate::hook::HookShape::IdOnly => match position {
                HookPosition::StoreUnload => true,
                HookPosition::PreCreate => true,
                HookPosition::PreRetrieve => true,
                HookPosition::PreDelete => true,
                HookPosition::PostDelete => true,
                HookPosition::PreMove => true,
                HookPosition::PostMove => true,
                _ => false,
            },
            crate::hook::HookShape::EntryMutating => match position {
                HookPosition::PostCreate => true,
                HookPosition::PostRetrieve => true,
                HookPosition::PreUpdate => true,
                HookPosition::PostUpdate => true,
                _ => false,
            },
        };
        if !fits {
            return Err(StoreError::new(StoreErrorKind::HookRegisterError));
        }
        let mut hook = hook;
        let cfg = crate::configuration::section_entry(
            &self.configuration,
            "hooks",
            hook.name().clone().as_str(),
        );
        match cfg {
            Some(c) => {
                hook.set_config(c);
            },
            None => {},
        }
        match position {
            HookPosition::StoreUnload => register_in(
                &mut self.store_unload_aspects,
                aspect_name,
                hook,
            ),
            HookPosition::PreCreate => register_in(&mut self.pre_create_aspects, aspect_name, hook),
            HookPosition::PostCreate => register_in(
                &mut self.post_create_aspects,
                aspect_name,
                hook,
            ),
            HookPosition::PreRetrieve => register_in(
                &mut self.pre_retrieve_aspects,
                aspect_name,
                hook,
            ),
            HookPosition::PostRetrieve => register_in(
                &mut self.post_retrieve_aspects,
                aspect_name,
                hook,
            ),
            HookPosition::PreUpdate => register_in(&mut self.pre_update_aspects, aspect_name, hook),
            HookPosition::PostUpdate => register_in(
                &mut self.post_update_aspects,
                aspect_name,
                hook,
            ),
            HookPosition::PreDelete => register_in(&mut self.pre_delete_aspects, aspect_name, hook),
            HookPosition::PostDelete => register_in(
                &mut self.post_delete_aspects,
                aspect_name,
                hook,
            ),
            HookPosition::PreMove => register_in(&mut self.pre_move_aspects, aspect_name, hook),
            HookPosition::PostMove => register_in(&mut self.post_move_aspects, aspect_name, hook),
        }
    }

    /// Runs the store-unload hooks; the counterpart of dropping the
    /// store in a deployment that registered unload aspects.
    pub fn close(&mut self) -> (r: Result<(), StoreError>)
        ensures
            ({
                let (u2, ab) = pipeline_run(old(self)@.unload);
                final(self)@ == (StoreView { unload: u2, ..old(self)@ }) && (if ab {
                    r matches Err(e) && e.chain() == seq![StoreErrorKind::HookExecutionError]
                } else {
                    r is Ok
                })
            }),
    {
        let ab = run_pipeline(&mut self.store_unload_aspects);
        proof {
            assert(final(self)@ =~~= StoreView {
                unload: pipeline_run(old(self)@.unload).0,
                ..old(self)@
            });
        }
        if ab {
            Err(StoreError::new(StoreErrorKind::HookExecutionError))
        } else {
            Ok(())
        }
    }

    /// Every file in the backing storage parses as an entry whose
    /// header satisfies the header invariant.
    pub fn verify(&self) -> (r: bool)
        ensures
            r == spec_all_entries_verify(self@.fs),
    {
        let items = self.backend.items();
        let mut i: usize = 0;
        while i < items.len()
            invariant
                i <= items@.len(),
                items@.len() == self@.fs.len(),
                forall|j: int|
                    0 <= j < items@.len() ==> (#[trigger] items@[j]).0@ == self@.fs[j].0
                        && items@[j].1@ == self@.fs[j].1,
                forall|j: int| 0 <= j < i ==> spec_entry_ok(self@.fs[j].1),
            decreases items@.len() - i,
        {
            match crate::text::parse_entry(items[i].1.as_str()) {
                Err(_) => {
                    return false;
                },
                Ok((header, _content)) => {
                    match crate::value::verify_header_consistency(&header) {
                        Err(_) => {
                            return false;
                        },
                        Ok(_) => {},
                    }
                },
            }
            i = i + 1;
        }
        true
    }
}

/// One stored blob parses as an entry whose header verifies.
pub open spec fn spec_entry_ok(text: Seq<char>) -> bool {
    match parse_entry_text(text) {
        ParseOutcome::Parsed(ps, _) => header_verifies(ValueModel::Table(ps)),
        _ => false,
    }
}

/// Every stored blob is a well-formed entry.
pub open spec fn spec_all_entries_verify(fs: FsView) -> bool {
    forall|i: int| 0 <= i < fs.len() ==> spec_entry_ok((#[trigger] fs[i]).1)
}

/// One object a walk yields: an entry identifier or a collection.
#[derive(Debug)]
pub enum StoreObject {
    Id(StoreId),
    Collection(String),
}

/// The model of a walked object.
#[verifier::ext_equal]
pub enum StoreObjectView {
    Id(IdView),
    Collection(Seq<char>),
}

impl View for StoreObject {
    type V = StoreObjectView;

    closed spec fn view(&self) -> StoreObjectView {
        match self {
            StoreObject::Id(id) => StoreObjectView::Id(id@),
            StoreObject::Collection(p) => StoreObjectView::Collection(p@),
        }
    }
}

/// `pre` begins `s`.
pub open spec fn is_prefix(pre: Seq<char>, s: Seq<char>) -> bool {
    s.len() >= pre.len() && s.take(pre.len() as int) == pre
}

/// The directory prefix of a module under a root.
pub open spec fn module_prefix(root: Seq<char>, m: Seq<char>) -> Seq<char> {
    fs_path_of(root, seq![m]) + seq!['/']
}

/// The identifiers of a module's files, in storage order: every file
/// under the module directory whose path strips to a valid relative
/// path.
pub open spec fn module_ids(fs: FsView, root: Seq<char>, m: Seq<char>) -> Seq<IdView>
    decreases fs.len(),
{
    if fs.len() == 0 {
        Seq::empty()
    } else {
        (if is_prefix(module_prefix(root, m), fs[0].0) && (match crate::storeid::strip_base(
            root,
            fs[0].0,
        ) {
            Some(rest) => crate::storeid::parse_rel_path(rest) is Some,
            None => false,
        }) {
            seq![
                IdView {
                    base: Some(root),
                    path: crate::storeid::parse_rel_path(
                        crate::storeid::strip_base(root, fs[0].0)->Some_0,
                    )->Some_0,
                },
            ]
        } else {
            Seq::empty()
        }) + module_ids(fs.skip(1), root, m)
    }
}

/// An iterator over the identifiers of one module.
#[derive(Debug)]
pub struct GlobStoreIdIterator {
    ids: Vec<StoreId>,
    at: usize,
}

/// The models of an identifier vector.
pub open spec fn ids_model(v: Seq<StoreId>) -> Seq<IdView> {
    Seq::new(v.len(), |i: int| v[i]@)
}

impl View for GlobStoreIdIterator {
    type V = (Seq<IdView>, int);

    closed spec fn view(&self) -> (Seq<IdView>, int) {
        (ids_model(self.ids@), self.at as int)
    }
}

impl GlobStoreIdIterator {
    pub fn new(ids: Vec<StoreId>) -> (r: GlobStoreIdIterator)
        ensures
            r@.0 == ids_model(ids@),
            r@.1 == 0,
    {
        GlobStoreIdIterator { ids, at: 0 }
    }

    /// The next identifier, if any are left.
    pub fn next(&mut self) -> (r: Option<StoreId>)
        ensures
            old(self)@.0 == final(self)@.0,
            match r {
                Some(id) => old(self)@.1 < old(self)@.0.len() && id@ == old(self)@.0[old(
                    self,
                )@.1] && final(self)@.1 == old(self)@.1 + 1,
                None => old(self)@.1 >= old(self)@.0.len() && final(self)@.1 == old(self)@.1,
            },
    {
        if self.at < self.ids.len() {
            let id = self.ids[self.at].duplicate();
            self.at = self.at + 1;
            Some(id)
        } else {
            None
        }
    }

    /// How many identifiers are left.
    pub fn remaining(&self) -> (r: usize)
        ensures
            r as int == if self@.0.len() >= self@.1 {
                self@.0.len() - self@.1
            } else {
                0
            },
    {
        if self.at <= self.ids.len() {
            self.ids.len() - self.at
        } else {
            0
        }
    }
}

/// A walk through a module's tree: the module collection, then its
/// entries. The in-memory backing storage has no nested directories, so
/// the module directory is the one collection yielded.
#[derive(Debug)]
pub struct Walk {
    items: Vec<StoreObject>,
    at: usize,
}

pub open spec fn objs_model(v: Seq<StoreObject>) -> Seq<StoreObjectView> {
    Seq::new(v.len(), |i: int| v[i]@)
}

impl View for Walk {
    type V = (Seq<StoreObjectView>, int);

    closed spec fn view(&self) -> (Seq<StoreObjectView>, int) {
        (objs_model(self.items@), self.at as int)
    }
}

impl Walk {
    /// The next object, if any are left.
    pub fn next(&mut self) -> (r: Option<StoreObject>)
        ensures
            old(self)@.0 == final(self)@.0,
            match r {
                Some(_) => old(self)@.1 < old(self)@.0.len() && r->Some_0@ == old(self)@.0[old(
                    self,
                )@.1] && final(self)@.1 == old(self)@.1 + 1,
                None => old(self)@.1 >= old(self)@.0.len() && final(self)@.1 == old(self)@.1,
            },
    {
        if self.at < self.items.len() {
            let obj = match &self.items[self.at] {
                StoreObject::Id(id) => StoreObject::Id(id.duplicate()),
                StoreObject::Collection(p) => StoreObject::Collection(p.clone()),
            };
            self.at = self.at + 1;
            Some(obj)
        } else {
            None
        }
    }
}

impl Store {
    /// Collects the identifiers a module's files under the store root.
    fn collect_module_ids(&self, mod_name: &str) -> (r: Vec<StoreId>)
        ensures
            ids_model(r@) == module_ids(self@.fs, self@.location, mod_name@),
    {
        let ghost fsv = self@.fs;
        let ghost root = self@.location;
        let paths = self.backend.paths();
        let mut prefix: Vec<char> = Vec::new();
        crate::chars::extend_chars(&mut prefix, self.location.as_str());
        let blen = self.location.as_str().unicode_len();
        if !(blen > 0 && self.location.as_str().get_char(blen - 1) == '/') {
            prefix.push('/');
        }
        crate::chars::extend_chars(&mut prefix, mod_name);
        prefix.push('/');
        proof {
            assert(crate::storeid::join_slash(seq![mod_name@]) == mod_name@);
            assert(prefix@ =~= module_prefix(root, mod_name@));
        }
        let mut r: Vec<StoreId> = Vec::new();
        let mut i: usize = 0;
        while i < paths.len()
            invariant
                i <= paths@.len(),
                paths@.len() == fsv.len(),
                forall|j: int| 0 <= j < paths@.len() ==> (#[trigger] paths@[j])@ == fsv[j].0,
                prefix@ == module_prefix(root, mod_name@),
                root == self@.location,
                fsv == self@.fs,
                ids_model(r@) == module_ids_upto(fsv, root, mod_name@, i as int),
            decreases paths@.len() - i,
        {
            let cs = crate::chars::str_to_chars(paths[i].as_str());
            let pref_ok = crate::chars::prefix_check(prefix.as_slice(), cs.as_slice());
            proof {
                lemma_module_ids_upto_step(fsv, root, mod_name@, i as int);
                assert(seq![fsv[i as int]].skip(1) =~= Seq::<(Seq<char>, Seq<char>)>::empty());
                assert(module_ids(Seq::<(Seq<char>, Seq<char>)>::empty(), root, mod_name@)
                    == Seq::<IdView>::empty());
            }
            if pref_ok {
                match StoreId::from_full_path(self.location.as_str(), paths[i].as_str()) {
                    Ok(id) => {
                        proof {
                            assert(paths@[i as int]@ == fsv[i as int].0);
                            assert(is_prefix(module_prefix(root, mod_name@), fsv[i as int].0));
                            assert(crate::storeid::strip_base(root, fsv[i as int].0) is Some);
                            assert(id@ =~~= IdView {
                                base: Some(root),
                                path: crate::storeid::parse_rel_path(
                                    crate::storeid::strip_base(root, fsv[i as int].0)->Some_0,
                                )->Some_0,
                            });
                            assert(module_ids(seq![fsv[i as int]], root, mod_name@) =~= seq![id@]);
                        }
                        let ghost idv = id@;
                        r.push(id);
                        proof {
                            lemma_module_ids_upto_step(fsv, root, mod_name@, i as int);
                            assert(ids_model(r@) =~= module_ids_upto(fsv, root, mod_name@, i as int)
                                + seq![idv]);
                            assert(module_ids(seq![fsv[i as int]], root, mod_name@) =~= seq![idv]);
                            assert(module_ids_upto(fsv, root, mod_name@, i as int + 1)
                                == module_ids_upto(fsv, root, mod_name@, i as int) + module_ids(
                                seq![fsv[i as int]],
                                root,
                                mod_name@,
                            ));
                            assert(module_ids_upto(fsv, root, mod_name@, i as int + 1)
                                == module_ids_upto(fsv, root, mod_name@, i as int) + seq![idv]);
                            assert(ids_model(r@) == module_ids_upto(
                                fsv,
                                root,
                                mod_name@,
                                i as int + 1,
                            ));
                        }
                    },
                    Err(_) => {
                        proof {
                            assert(ids_model(r@) =~= module_ids_upto(
                                fsv,
                                root,
                                mod_name@,
                                i as int + 1,
                            ));
                        }
                    },
                }
            } else {
                proof {
                    assert(!is_prefix(module_prefix(root, mod_name@), fsv[i as int].0));
                    assert(ids_model(r@) =~= module_ids_upto(fsv, root, mod_name@, i as int + 1));
                }
            }
            i = i + 1;
        }
        proof {
            lemma_module_ids_upto_full(fsv, root, mod_name@);
        }
        r
    }

    /// Iterates over all identifiers of one module.
    pub fn retrieve_for_module(&self, mod_name: &str) -> (r: Result<
        GlobStoreIdIterator,
        StoreError,
    >)
        ensures
            r matches Ok(it) && it@.0 == module_ids(self@.fs, self@.location, mod_name@) && it@.1
                == 0,
    {
        Ok(GlobStoreIdIterator::new(self.collect_module_ids(mod_name)))
    }

    /// Walks a module's tree: its collection marker, then its entries.
    pub fn walk(&self, mod_name: &str) -> (r: Walk)
        ensures
            r@.1 == 0,
            r@.0.len() == 1 + module_ids(self@.fs, self@.location, mod_name@).len(),
            r@.0[0] == StoreObjectView::Collection(
                fs_path_of(self@.location, seq![mod_name@]),
            ),
            forall|i: int|
                0 <= i < module_ids(self@.fs, self@.location, mod_name@).len() ==> r@.0[i + 1]
                    == StoreObjectView::Id(
                    module_ids(self@.fs, self@.location, mod_name@)[i],
                ),
    {
        let ids = self.collect_module_ids(mod_name);
        let mut items: Vec<StoreObject> = Vec::new();
        let mut dir: Vec<char> = Vec::new();
        crate::chars::extend_chars(&mut dir, self.location.as_str());
        let blen = self.location.as_str().unicode_len();
        if !(blen > 0 && self.location.as_str().get_char(blen - 1) == '/') {
            dir.push('/');
        }
        crate::chars::extend_chars(&mut dir, mod_name);
        proof {
            assert(crate::storeid::join_slash(seq![mod_name@]) == mod_name@);
            assert(dir@ =~= fs_path_of(self@.location, seq![mod_name@]));
        }
        items.push(StoreObject::Collection(crate::chars::chars_to_string(dir.as_slice())));
        let ghost idsv = ids_model(ids@);
        let mut i: usize = 0;
        while i < ids.len()
            invariant
                i <= ids@.len(),
                idsv == ids_model(ids@),
                idsv.len() == ids@.len(),
                items@.len() == i + 1,
                objs_model(items@)[0] == StoreObjectView::Collection(
                    fs_path_of(self@.location, seq![mod_name@]),
                ),
                forall|j: int|
                    0 <= j < i ==> objs_model(items@)[j + 1] == StoreObjectView::Id(idsv[j]),
            decreases ids@.len() - i,
        {
            items.push(StoreObject::Id(ids[i].duplicate()));
            i = i + 1;
        }
        Walk { items, at: 0 }
    }
}

/// The module identifiers among the first `n` stored files.
pub open spec fn module_ids_upto(fs: FsView, root: Seq<char>, m: Seq<char>, n: int) -> Seq<IdView> {
    module_ids(fs.take(n), root, m)
}

proof fn lemma_module_ids_append(a: FsView, b: FsView, root: Seq<char>, m: Seq<char>)
    ensures
        module_ids(a + b, root, m) == module_ids(a, root, m) + module_ids(b, root, m),
    decreases a.len(),
{
    if a.len() == 0 {
        assert(a + b =~= b);
        assert(module_ids(a, root, m) + module_ids(b, root, m) =~= module_ids(b, root, m));
    } else {
        lemma_module_ids_append(a.skip(1), b, root, m);
        assert((a + b).skip(1) =~= a.skip(1) + b);
        assert((a + b)[0] == a[0]);
        assert(module_ids(a + b, root, m) =~= module_ids(a, root, m) + module_ids(b, root, m));
    }
}

proof fn lemma_module_ids_upto_step(fs: FsView, root: Seq<char>, m: Seq<char>, i: int)
    requires
        0 <= i < fs.len(),
    ensures
        module_ids_upto(fs, root, m, i + 1) == module_ids_upto(fs, root, m, i) + module_ids(
            seq![fs[i]],
            root,
            m,
        ),
{
    assert(fs.take(i + 1) =~= fs.take(i) + seq![fs[i]]);
    lemma_module_ids_append(fs.take(i), seq![fs[i]], root, m);
}

proof fn lemma_module_ids_upto_full(fs: FsView, root: Seq<char>, m: Seq<char>)
    ensures
        module_ids_upto(fs, root, m, fs.len() as int) == module_ids(fs, root, m),
{
    assert(fs.take(fs.len() as int) =~= fs);
}


// ------------------------------------------------------------------
// Laws
// ------------------------------------------------------------------
proof fn lemma_cache_lookup_push(c: CacheView, p: Seq<Seq<char>>, b: bool)
    requires
        cache_lookup(c, p) is None,
    ensures
        cache_lookup(c.push((p, b)), p) == Some(b),
    decreases c.len(),
{
    if c.len() == 0 {
        assert(c.push((p, b))[0] == (p, b));
    } else {
        lemma_cache_lookup_push(c.skip(1), p, b);
        assert(c.push((p, b)).skip(1) =~= c.skip(1).push((p, b)));
        assert(c.push((p, b))[0] == c[0]);
    }
}

proof fn lemma_cache_lookup_other_push(c: CacheView, p: Seq<Seq<char>>, b: bool, q: Seq<Seq<char>>)
    requires
        p != q,
    ensures
        cache_lookup(c.push((p, b)), q) == cache_lookup(c, q),
    decreases c.len(),
{
    let w = c.push((p, b));
    if c.len() == 0 {
        assert(w[0] == (p, b));
        assert(w.skip(1) =~= Seq::<(Seq<Seq<char>>, bool)>::empty());
        assert(cache_lookup(w.skip(1), q) is None);
        assert(cache_lookup(w, q) is None);
        assert(cache_lookup(c, q) is None);
    } else {
        lemma_cache_lookup_other_push(c.skip(1), p, b, q);
        assert(w.skip(1) =~= c.skip(1).push((p, b)));
        assert(w[0] == c[0]);
        assert(cache_lookup(w, q) == if c[0].0 == q {
            Some(c[0].1)
        } else {
            cache_lookup(c.skip(1).push((p, b)), q)
        });
    }
}

proof fn lemma_cache_lookup_set(c: CacheView, p: Seq<Seq<char>>, b: bool)
    requires
        cache_lookup(c, p) is Some,
    ensures
        cache_lookup(cache_set(c, p, b), p) == Some(b),
    decreases c.len(),
{
    if c.len() > 0 {
        if c[0].0 == p {
            let w = seq![(p, b)] + c.skip(1);
            assert(cache_set(c, p, b) =~= w);
            assert(w[0] == (p, b));
        } else {
            lemma_cache_lookup_set(c.skip(1), p, b);
            let w = seq![c[0]] + cache_set(c.skip(1), p, b);
            assert(cache_set(c, p, b) =~= w);
            assert(w[0] == c[0]);
            assert(w.skip(1) =~= cache_set(c.skip(1), p, b));
        }
    }
}

proof fn lemma_cache_lookup_removed(c: CacheView, p: Seq<Seq<char>>)
    requires
        cache_unique(c),
    ensures
        cache_lookup(cache_remove(c, p), p) is None,
    decreases c.len(),
{
    if c.len() > 0 {
        if c[0].0 == p {
            assert(cache_remove(c, p) =~= c.skip(1));
            assert forall|j: int| 0 <= j < c.skip(1).len() implies c.skip(1)[j].0 != p by {
                assert(c.skip(1)[j] == c[j + 1]);
            }
            lemma_cache_lookup_none(c.skip(1), p);
        } else {
            assert(cache_unique(c.skip(1))) by {
                assert forall|x: int, y: int|
                    0 <= x < y < c.skip(1).len() implies (#[trigger] c.skip(1)[x]).0 != (
                    #[trigger] c.skip(1)[y]).0 by {
                    assert(c.skip(1)[x] == c[x + 1]);
                    assert(c.skip(1)[y] == c[y + 1]);
                }
            }
            lemma_cache_lookup_removed(c.skip(1), p);
            let w = seq![c[0]] + cache_remove(c.skip(1), p);
            assert(cache_remove(c, p) =~= w);
            assert(w[0] == c[0]);
            assert(w.skip(1) =~= cache_remove(c.skip(1), p));
        }
    }
}

/// Cache residency after `create`: a successful create leaves exactly
/// the created identifier's record borrowed in the cache; everything
/// else is untouched.
pub proof fn lemma_create_cache_residency(s: StoreView, id: IdView)
    requires
        spec_create(s, id).1 is Ok,
    ensures
        cache_lookup(spec_create(s, id).0.cache, id.path) == Some(true),
        forall|q: Seq<Seq<char>>|
            q != id.path ==> cache_lookup(spec_create(s, id).0.cache, q) == cache_lookup(
                s.cache,
                q,
            ),
{
    let (pre2, ab) = pipeline_run(s.pre_create);
    let s1 = StoreView { pre_create: pre2, ..s };
    lemma_cache_lookup_push(s1.cache, id.path, true);
    assert forall|q: Seq<Seq<char>>|
        q != id.path implies cache_lookup(spec_create(s, id).0.cache, q) == cache_lookup(
        s.cache,
        q,
    ) by {
        lemma_cache_lookup_other_push(s1.cache, id.path, true, q);
    }
}

/// Cache residency after `retrieve`: a successful retrieve leaves the
/// identifier's record borrowed.
pub proof fn lemma_retrieve_cache_residency(s: StoreView, id: IdView)
    requires
        spec_retrieve(s, id).1 is Ok,
    ensures
        cache_lookup(spec_retrieve(s, id).0.cache, id.path) == Some(true),
{
    let (pre2, ab) = pipeline_run(s.pre_retrieve);
    let s1 = StoreView { pre_retrieve: pre2, ..s };
    if cache_contains(s1.cache, id.path) {
        lemma_cache_lookup_set(s1.cache, id.path, true);
    } else {
        lemma_cache_lookup_push(s1.cache, id.path, true);
    }
}

/// Cache residency after `delete`: a successful delete leaves no record
/// for the identifier.
pub proof fn lemma_delete_cache_residency(s: StoreView, id: IdView)
    requires
        cache_unique(s.cache),
        spec_delete(s, id).1 is None,
    ensures
        cache_lookup(spec_delete(s, id).0.cache, id.path) is None,
{
    let (pre2, ab) = pipeline_run(s.pre_delete);
    let s1 = StoreView { pre_delete: pre2, ..s };
    lemma_cache_lookup_removed(s1.cache, id.path);
}

/// Borrow exclusivity: while an identifier's record is borrowed, a
/// second `create` and a second `retrieve` of it both fail, so at most
/// one handle per identifier is ever alive.
pub proof fn lemma_borrow_exclusive(s: StoreView, id: IdView)
    requires
        cache_lookup(s.cache, id.path) == Some(true),
    ensures
        spec_create(s, id).1 is Err,
        spec_retrieve(s, id).1 is Err,
{
}

/// A post-create hook failure does not roll back: the created entry
/// stays resident (released back to `Present`) with its file written,
/// so a later `get` does not report it absent. The store's own
/// pre-update pipeline is assumed not to veto the release.
pub proof fn lemma_post_create_failure_recoverable(s: StoreView, id: IdView)
    requires
        spec_create(s, id).1 matches Err(ch) && ch == hook_chain(
            StoreErrorKind::CreateCallError,
            StoreErrorKind::PostHookExecuteError,
        ),
        !pipeline_run(s.pre_update).1,
    ensures
        cache_lookup(spec_create(s, id).0.cache, id.path) == Some(false),
        fs_contains(spec_create(s, id).0.fs, fs_path_of(s.location, id.path)),
        !(spec_get(spec_create(s, id).0, id).1 == Ok::<Option<EntryView>, Seq<StoreErrorKind>>(None)),
{
    let (pre2, ab) = pipeline_run(s.pre_create);
    let s1 = StoreView { pre_create: pre2, ..s };
    assert(!ab) by {
        if ab {
            assert(spec_create(s, id).1->Err_0[2] == StoreErrorKind::PreHookExecuteError);
        }
    }
    assert(!cache_contains(s1.cache, id.path)) by {
        if cache_contains(s1.cache, id.path) {
            assert(spec_create(s, id).1->Err_0.len() == 2);
        }
    }
    let s2 = StoreView { cache: s1.cache.push((id.path, true)), ..s1 };
    let e = EntryView {
        location: with_base_view(id, s.location),
        header: default_header_model(),
        content: Seq::empty(),
    };
    let (post2, ab2) = pipeline_run(s2.post_create);
    let s3 = StoreView { post_create: post2, ..s2 };
    assert(ab2) by {
        if !ab2 {
            assert(spec_create(s, id).1 is Ok);
        }
    }
    // the release: pre-update pipeline does not abort, the default
    // header verifies, the record exists and is flipped to Present
    let (preu2, abu) = pipeline_run(s3.pre_update);
    assert(!abu);
    let su1 = StoreView { pre_update: preu2, ..s3 };
    lemma_cache_lookup_push(s1.cache, id.path, true);
    assert(cache_lookup(su1.cache, e.location.path) == Some(true));
    crate::value::lemma_default_header_verifies();
    lemma_cache_lookup_set(su1.cache, e.location.path, false);
    lemma_fs_lookup_written(
        su1.fs,
        fs_path_of(su1.location, e.location.path),
        entry_text_of(e.header, e.content),
    );
}

proof fn lemma_fs_lookup_written(fs: FsView, p: Seq<char>, c: Seq<char>)
    ensures
        fs_lookup(fs_write(fs, p, c), p) == Some(c),
    decreases fs.len(),
{
    if fs.len() == 0 {
        assert(fs_write(fs, p, c) =~= seq![(p, c)]);
    } else if fs[0].0 == p {
        let w = seq![(p, c)] + fs.skip(1);
        assert(fs_write(fs, p, c) =~= w);
        assert(w[0] == (p, c));
    } else {
        lemma_fs_lookup_written(fs.skip(1), p, c);
        let w = seq![fs[0]] + fs_write(fs.skip(1), p, c);
        assert(fs_write(fs, p, c) =~= w);
        assert(w[0] == fs[0]);
        assert(w.skip(1) =~= fs_write(fs.skip(1), p, c));
    }
}

proof fn lemma_fs_lookup_removed(fs: FsView, p: Seq<char>)
    requires
        crate::file_abstraction::fs_unique(fs),
    ensures
        fs_lookup(fs_remove(fs, p), p) is None,
    decreases fs.len(),
{
    if fs.len() > 0 {
        if fs[0].0 == p {
            assert(fs_remove(fs, p) =~= fs.skip(1));
            assert forall|j: int| 0 <= j < fs.skip(1).len() implies fs.skip(1)[j].0 != p by {
                assert(fs.skip(1)[j] == fs[j + 1]);
            }
            lemma_fs_lookup_none_all(fs.skip(1), p);
        } else {
            assert(crate::file_abstraction::fs_unique(fs.skip(1))) by {
                assert forall|x: int, y: int|
                    0 <= x < y < fs.skip(1).len() implies (#[trigger] fs.skip(1)[x]).0 != (
                    #[trigger] fs.skip(1)[y]).0 by {
                    assert(fs.skip(1)[x] == fs[x + 1]);
                    assert(fs.skip(1)[y] == fs[y + 1]);
                }
            }
            lemma_fs_lookup_removed(fs.skip(1), p);
            let w = seq![fs[0]] + fs_remove(fs.skip(1), p);
            assert(fs_remove(fs, p) =~= w);
            assert(w[0] == fs[0]);
            assert(w.skip(1) =~= fs_remove(fs.skip(1), p));
        }
    }
}

proof fn lemma_fs_lookup_none_all(fs: FsView, p: Seq<char>)
    requires
        forall|j: int| 0 <= j < fs.len() ==> fs[j].0 != p,
    ensures
        fs_lookup(fs, p) is None,
    decreases fs.len(),
{
    if fs.len() > 0 {
        lemma_fs_lookup_none_all(fs.skip(1), p);
    }
}

/// Move atomicity at the cache: after a successful `move_by_id` from
/// `a` to `b` (distinct logical paths mapping to distinct files), the
/// store no longer knows `a` — neither its cache nor its backing
/// storage — while `b`'s file is present, so `get(a)` reports absent
/// and `get(b)` does not.
pub proof fn lemma_move_atomicity(s: StoreView, a: IdView, b: IdView)
    requires
        cache_unique(s.cache),
        crate::file_abstraction::fs_unique(s.fs),
        a.path != b.path,
        fs_path_of(s.location, a.path) != fs_path_of(s.location, b.path),
        spec_move_by_id(s, a, b).1 is None,
    ensures
        cache_lookup(spec_move_by_id(s, a, b).0.cache, a.path) is None,
        fs_lookup(spec_move_by_id(s, a, b).0.fs, fs_path_of(s.location, a.path)) is None,
        fs_contains(spec_move_by_id(s, a, b).0.fs, fs_path_of(s.location, b.path)),
        spec_get(spec_move_by_id(s, a, b).0, a).1 == Ok::<Option<EntryView>, Seq<StoreErrorKind>>(None),
{
    let (pre2, ab) = pipeline_run(s.pre_move);
    let s1 = StoreView { pre_move: pre2, ..s };
    let oldp = fs_path_of(s.location, a.path);
    let newp = fs_path_of(s.location, b.path);
    let c = fs_lookup(s1.fs, oldp)->Some_0;
    lemma_fs_lookup_removed(s1.fs, oldp);
    crate::file_abstraction::lemma_fs_write_other(fs_remove(s1.fs, oldp), newp, c, oldp);
    lemma_fs_lookup_written(fs_remove(s1.fs, oldp), newp, c);
    if cache_contains(s1.cache, a.path) {
        lemma_cache_lookup_removed(s1.cache, a.path);
        lemma_cache_lookup_other_push(cache_remove(s1.cache, a.path), b.path, false, a.path);
    }
}

} // verus!
