//! The hook pipeline.
//!
//! Hooks are observers registered at defined points of the entry
//! lifecycle. They are grouped into named, ordered aspects; a pipeline
//! runs the aspects in configured order and each aspect's hooks in
//! registration order. A hook either succeeds, fails aborting the
//! pipeline, or fails letting it continue. Each hook counts how often it
//! has run, so the order laws are observable.

use vstd::prelude::*;

use crate::value::{Value, ValueModel, value_model};

verus! {

broadcast use vstd::std_specs::vec::axiom_vec_decreases_to_view;

/// The ten lifecycle points plus store unload.
#[derive(Debug, Clone, Copy, PartialEq, Eq, Structural)]
pub enum HookPosition {
    StoreUnload,
    PreCreate,
    PostCreate,
    PreRetrieve,
    PostRetrieve,
    PreUpdate,
    PostUpdate,
    PreDelete,
    PostDelete,
    PreMove,
    PostMove,
}

/// What a hook does when it runs.
#[derive(Debug, Clone, Copy, PartialEq, Eq, Structural)]
pub enum HookBehavior {
    /// Succeed.
    Succeed,
    /// Fail and abort the pipeline.
    ErrorAborting,
    /// Fail but let the pipeline continue.
    ErrorContinuing,
}

/// Which invocation shape a hook provides.
#[derive(Debug, Clone, Copy, PartialEq, Eq, Structural)]
pub enum HookShape {
    /// Sees only the identifier.
    IdOnly,
    /// Sees the mutable entry.
    EntryMutating,
    /// Provides both shapes.
    Both,
}

/// A registered hook.
#[derive(Debug)]
pub struct Hook {
    name: String,
    behavior: HookBehavior,
    shape: HookShape,
    config: Option<Value>,
    calls: u64,
}

/// The model of a hook.
#[verifier::ext_equal]
pub struct HookView {
    pub name: Seq<char>,
    pub behavior: HookBehavior,
    pub shape: HookShape,
    pub config: Option<ValueModel>,
    pub calls: nat,
}

impl View for Hook {
    type V = HookView;

    closed spec fn view(&self) -> HookView {
        HookView {
            name: self.name@,
            behavior: self.behavior,
            shape: self.shape,
            config: match self.config {
                Some(c) => Some(value_model(c)),
                None => None,
            },
            calls: self.calls as nat,
        }
    }
}

impl Hook {
    /// A new hook with the given behavior and shape, not yet run.
    pub fn new(name: &str, behavior: HookBehavior, shape: HookShape) -> (r: Hook)
        ensures
            r@.name == name@,
            r@.behavior == behavior,
            r@.shape == shape,
            r@.config is None,
            r@.calls == 0,
    {
        Hook {
            name: String::from_str(name),
            behavior,
            shape,
            config: None,
            calls: 0,
        }
    }

    pub fn name(&self) -> (r: &String)
        ensures
            r@ == self@.name,
    {
        &self.name
    }

    pub fn behavior(&self) -> (r: HookBehavior)
        ensures
            r == self@.behavior,
    {
        self.behavior
    }

    pub fn shape(&self) -> (r: HookShape)
        ensures
            r == self@.shape,
    {
        self.shape
    }

    /// How often this hook has run.
    pub fn call_count(&self) -> (r: u64)
        ensures
            r as nat == self@.calls,
    {
        self.calls
    }

    /// Hands the hook its configuration sub-tree.
    pub fn set_config(&mut self, config: Value)
        ensures
            final(self)@ == (HookView { config: Some(config@), ..old(self)@ }),
    {
        self.config = Some(config);
        proof {
            assert(final(self)@ =~= HookView { config: Some(config@), ..old(self)@ });
        }
    }
}

/// A named, ordered group of hooks sharing a configuration sub-tree.
#[derive(Debug)]
pub struct Aspect {
    name: String,
    config: Option<Value>,
    hooks: Vec<Hook>,
}

/// The model of an aspect.
#[verifier::ext_equal]
pub struct AspectView {
    pub name: Seq<char>,
    pub config: Option<ValueModel>,
    pub hooks: Seq<HookView>,
}

/// The models of a hook vector.
pub open spec fn hooks_model(v: Seq<Hook>) -> Seq<HookView> {
    Seq::new(v.len(), |i: int| v[i]@)
}

impl View for Aspect {
    type V = AspectView;

    closed spec fn view(&self) -> AspectView {
        AspectView {
            name: self.name@,
            config: match self.config {
                Some(c) => Some(value_model(c)),
                None => None,
            },
            hooks: hooks_model(self.hooks@),
        }
    }
}

impl Aspect {
    /// A new aspect with no hooks.
    pub fn new(name: &str, config: Option<Value>) -> (r: Aspect)
        ensures
            r@.name == name@,
            r@.hooks == Seq::<HookView>::empty(),
            match (r@.config, config) {
                (Some(cm), Some(c)) => cm == c@,
                (None, None) => true,
                _ => false,
            },
    {
        let r = Aspect { name: String::from_str(name), config, hooks: Vec::new() };
        proof {
            assert(r@.hooks =~= Seq::<HookView>::empty());
        }
        r
    }

    pub fn name(&self) -> (r: &String)
        ensures
            r@ == self@.name,
    {
        &self.name
    }

    /// Appends a hook to this aspect.
    pub fn register_hook(&mut self, hook: Hook)
        ensures
            final(self)@ == (AspectView {
                hooks: old(self)@.hooks.push(hook@),
                ..old(self)@
            }),
    {
        self.hooks.push(hook);
        proof {
            assert(hooks_model(self.hooks@) =~= hooks_model(old(self).hooks@).push(hook@));
            assert(final(self)@ =~= AspectView {
                hooks: old(self)@.hooks.push(hook@),
                ..old(self)@
            });
        }
    }

    /// The hooks of this aspect.
    pub fn hooks(&self) -> (r: &Vec<Hook>)
        ensures
            hooks_model(r@) == self@.hooks,
    {
        &self.hooks
    }
}

/// A hook after one more run.
pub open spec fn bump(h: HookView) -> HookView {
    HookView {
        calls: if h.calls < u64::MAX as nat {
            (h.calls + 1) as nat
        } else {
            h.calls
        },
        ..h
    }
}

/// Running an aspect's hooks from index `i`: each hook in order runs
/// (its counter is bumped); an aborting failure stops the run, so later
/// hooks never see the input. The flag says whether the run aborted.
pub open spec fn hooks_run_from(hs: Seq<HookView>, i: int) -> (Seq<HookView>, bool)
    decreases hs.len() - i,
{
    if i < 0 || i >= hs.len() {
        (hs, false)
    } else {
        let hs2 = hs.update(i, bump(hs[i]));
        if hs[i].behavior is ErrorAborting {
            (hs2, true)
        } else {
            hooks_run_from(hs2, i + 1)
        }
    }
}

/// The models of an aspect vector.
pub open spec fn aspects_model(v: Seq<Aspect>) -> Seq<AspectView> {
    Seq::new(v.len(), |i: int| v[i]@)
}

/// Running a pipeline from aspect `i`: aspects in order, each running
/// its hooks; an abort in one aspect stops the pipeline.
pub open spec fn aspects_run_from(asps: Seq<AspectView>, i: int) -> (Seq<AspectView>, bool)
    decreases asps.len() - i,
{
    if i < 0 || i >= asps.len() {
        (asps, false)
    } else {
        let (hs2, ab) = hooks_run_from(asps[i].hooks, 0);
        let asps2 = asps.update(i, AspectView { hooks: hs2, ..asps[i] });
        if ab {
            (asps2, true)
        } else {
            aspects_run_from(asps2, i + 1)
        }
    }
}

/// The whole pipeline over a configured aspect list.
pub open spec fn pipeline_run(asps: Seq<AspectView>) -> (Seq<AspectView>, bool) {
    aspects_run_from(asps, 0)
}

/// Runs the hooks of one aspect; true iff an aborting failure occurred.
fn run_hooks(hooks: &mut Vec<Hook>) -> (r: bool)
    ensures
        (hooks_model(final(hooks)@), r) == hooks_run_from(hooks_model(old(hooks)@), 0),
{
    let mut i: usize = 0;
    loop
        invariant
            i <= hooks@.len(),
            hooks_run_from(hooks_model(old(hooks)@), 0) == hooks_run_from(
                hooks_model(hooks@),
                i as int,
            ),
        decreases hooks@.len() - i,
    {
        if i >= hooks.len() {
            return false;
        }
        let behavior = hooks[i].behavior();
        let name = hooks[i].name().clone();
        let shape = hooks[i].shape();
        let calls = hooks[i].call_count();
        let config = match &hooks[i].config {
            Some(c) => Some(crate::value::duplicate(c)),
            None => None,
        };
        let bumped = Hook {
            name,
            behavior,
            shape,
            config,
            calls: if calls < u64::MAX {
                calls + 1
            } else {
                calls
            },
        };
        let ghost pre = hooks_model(hooks@);
        proof {
            assert(bumped@ =~= bump(pre[i as int]));
        }
        hooks.set(i, bumped);
        proof {
            assert(hooks_model(hooks@) =~= pre.update(i as int, bump(pre[i as int])));
        }
        if behavior == HookBehavior::ErrorAborting {
            return true;
        }
        i = i + 1;
    }
}

/// Runs a whole pipeline; true iff an aborting failure occurred.
pub fn run_pipeline(aspects: &mut Vec<Aspect>) -> (r: bool)
    ensures
        (aspects_model(final(aspects)@), r) == pipeline_run(aspects_model(old(aspects)@)),
{
    let mut i: usize = 0;
    loop
        invariant
            i <= aspects@.len(),
            aspects_run_from(aspects_model(old(aspects)@), 0) == aspects_run_from(
                aspects_model(aspects@),
                i as int,
            ),
        decreases aspects@.len() - i,
    {
        if i >= aspects.len() {
            return false;
        }
        let ghost pre = aspects_model(aspects@);
        let mut a = aspects.remove(i);
        let ghost removed = aspects@;
        let ghost a_hooks = a@.hooks;
        let ab = run_hooks(&mut a.hooks);
        proof {
            assert(a@ =~= AspectView { hooks: hooks_run_from(a_hooks, 0).0, ..pre[i as int] });
        }
        aspects.insert(i, a);
        proof {
            assert(aspects@ =~= removed.insert(i as int, a));
            assert(aspects_model(aspects@) =~= pre.update(
                i as int,
                AspectView { hooks: hooks_run_from(pre[i as int].hooks, 0).0, ..pre[i as int] },
            ));
        }
        if ab {
            return true;
        }
        i = i + 1;
    }
}


/// The least index of an aborting hook, if there is one.
pub open spec fn first_abort(hs: Seq<HookView>, i: int) -> Option<int>
    decreases hs.len() - i,
{
    if i < 0 || i >= hs.len() {
        None
    } else if hs[i].behavior is ErrorAborting {
        Some(i)
    } else {
        first_abort(hs, i + 1)
    }
}

/// Hook order within an aspect: hooks run in registration order; with
/// no aborting hook every hook runs once and the run succeeds; with one,
/// the run stops at the first aborting hook — it and everything before
/// it runs once, and no later hook sees the input.
pub proof fn lemma_hooks_run_order(hs: Seq<HookView>, i: int)
    requires
        0 <= i <= hs.len(),
    ensures
        ({
            let (hs2, ab) = hooks_run_from(hs, i);
            &&& hs2.len() == hs.len()
            &&& forall|j: int| 0 <= j < i ==> hs2[j] == hs[j]
            &&& match first_abort(hs, i) {
                None => !ab && forall|j: int| i <= j < hs.len() ==> hs2[j] == bump(hs[j]),
                Some(k) => ab && (forall|j: int| i <= j <= k ==> hs2[j] == bump(hs[j])) && (
                forall|j: int| k < j < hs.len() ==> hs2[j] == hs[j]),
            }
        }),
    decreases hs.len() - i,
{
    if i < hs.len() {
        let hsu = hs.update(i, bump(hs[i]));
        if hs[i].behavior is ErrorAborting {
            assert(first_abort(hs, i) == Some(i));
        } else {
            lemma_hooks_run_order(hsu, i + 1);
            lemma_first_abort_update(hs, i + 1, i);
            lemma_first_abort_bounds(hs, i + 1);
            let r = hooks_run_from(hsu, i + 1);
            let hs2 = r.0;
            let ab = r.1;
            assert(hooks_run_from(hs, i) == (hs2, ab));
            match first_abort(hs, i + 1) {
                None => {
                    assert(!ab);
                    assert forall|j: int| i <= j < hs.len() implies hs2[j] == bump(hs[j]) by {
                        if j == i {
                            assert(hs2[i] == hsu[i]);
                        } else {
                            assert(hs2[j] == bump(hsu[j]));
                            assert(hsu[j] == hs[j]);
                        }
                    }
                },
                Some(k) => {
                    assert(ab);
                    assert forall|j: int| i <= j <= k implies hs2[j] == bump(hs[j]) by {
                        if j == i {
                            assert(hs2[i] == hsu[i]);
                        } else {
                            assert(hs2[j] == bump(hsu[j]));
                            assert(hsu[j] == hs[j]);
                        }
                    }
                    assert forall|j: int| k < j < hs.len() implies hs2[j] == hs[j] by {
                        assert(hs2[j] == hsu[j]);
                        assert(hsu[j] == hs[j]);
                    }
                },
            }
        }
    }
}

/// A found first abort lies in range, is aborting, and nothing before
/// it aborts.
pub proof fn lemma_first_abort_bounds(hs: Seq<HookView>, i: int)
    requires
        0 <= i <= hs.len(),
    ensures
        match first_abort(hs, i) {
            Some(k) => i <= k < hs.len() && hs[k].behavior is ErrorAborting && forall|j: int|
                i <= j < k ==> !((#[trigger] hs[j]).behavior is ErrorAborting),
            None => forall|j: int|
                i <= j < hs.len() ==> !((#[trigger] hs[j]).behavior is ErrorAborting),
        },
    decreases hs.len() - i,
{
    if 0 <= i && i < hs.len() {
        if !(hs[i].behavior is ErrorAborting) {
            lemma_first_abort_bounds(hs, i + 1);
        }
    }
}

proof fn lemma_first_abort_update(hs: Seq<HookView>, i: int, u: int)
    requires
        0 <= u < i,
        0 <= i <= hs.len(),
    ensures
        first_abort(hs.update(u, bump(hs[u])), i) == first_abort(hs, i),
    decreases hs.len() - i,
{
    if i < hs.len() {
        lemma_first_abort_update(hs, i + 1, u);
    }
}

/// The least aspect index whose hooks contain an aborting one.
pub open spec fn first_abort_aspect(asps: Seq<AspectView>, i: int) -> Option<int>
    decreases asps.len() - i,
{
    if i < 0 || i >= asps.len() {
        None
    } else if first_abort(asps[i].hooks, 0) is Some {
        Some(i)
    } else {
        first_abort_aspect(asps, i + 1)
    }
}

/// Aspect order in a pipeline: aspects run in configured order; an
/// abort in one aspect stops the pipeline, so no aspect after the
/// aborting one sees the input.
pub proof fn lemma_pipeline_order(asps: Seq<AspectView>, i: int)
    requires
        0 <= i <= asps.len(),
    ensures
        ({
            let (asps2, ab) = aspects_run_from(asps, i);
            &&& asps2.len() == asps.len()
            &&& forall|j: int| 0 <= j < i ==> asps2[j] == asps[j]
            &&& match first_abort_aspect(asps, i) {
                None => !ab && forall|j: int|
                    i <= j < asps.len() ==> asps2[j] == (AspectView {
                        hooks: hooks_run_from(asps[j].hooks, 0).0,
                        ..asps[j]
                    }),
                Some(k) => ab && (forall|j: int|
                    i <= j <= k ==> asps2[j] == (AspectView {
                        hooks: hooks_run_from(asps[j].hooks, 0).0,
                        ..asps[j]
                    })) && (forall|j: int| k < j < asps.len() ==> asps2[j] == asps[j]),
            }
        }),
    decreases asps.len() - i,
{
    if i < asps.len() {
        let hr = hooks_run_from(asps[i].hooks, 0);
        let hs2 = hr.0;
        let hab = hr.1;
        lemma_hooks_run_order(asps[i].hooks, 0);
        lemma_first_abort_bounds(asps[i].hooks, 0);
        let asps2 = asps.update(i, AspectView { hooks: hs2, ..asps[i] });
        if hab {
            assert(first_abort(asps[i].hooks, 0) is Some);
            assert(first_abort_aspect(asps, i) == Some(i));
        } else {
            assert(first_abort(asps[i].hooks, 0) is None);
            lemma_pipeline_order(asps2, i + 1);
            lemma_first_abort_aspect_update(asps, i + 1, i, hs2);
            let r = aspects_run_from(asps2, i + 1);
            let a2 = r.0;
            let ab = r.1;
            assert(aspects_run_from(asps, i) == (a2, ab));
            assert(first_abort_aspect(asps2, i + 1) == first_abort_aspect(asps, i + 1)) by {
                assert(asps2 =~= asps.update(i, AspectView { hooks: hs2, ..asps[i] }));
            }
            match first_abort_aspect(asps, i + 1) {
                None => {
                    assert(!ab);
                    assert forall|j: int| i <= j < asps.len() implies a2[j] == (AspectView {
                        hooks: hooks_run_from(asps[j].hooks, 0).0,
                        ..asps[j]
                    }) by {
                        if j == i {
                            assert(a2[i] == asps2[i]);
                        } else {
                            assert(a2[j] == (AspectView {
                                hooks: hooks_run_from(asps2[j].hooks, 0).0,
                                ..asps2[j]
                            }));
                            assert(asps2[j] == asps[j]);
                        }
                    }
                },
                Some(k) => {
                    assert(ab);
                    lemma_first_abort_aspect_bounds(asps, i + 1);
                    assert forall|j: int| i <= j <= k implies a2[j] == (AspectView {
                        hooks: hooks_run_from(asps[j].hooks, 0).0,
                        ..asps[j]
                    }) by {
                        if j == i {
                            assert(a2[i] == asps2[i]);
                        } else {
                            assert(a2[j] == (AspectView {
                                hooks: hooks_run_from(asps2[j].hooks, 0).0,
                                ..asps2[j]
                            }));
                            assert(asps2[j] == asps[j]);
                        }
                    }
                    assert forall|j: int| k < j < asps.len() implies a2[j] == asps[j] by {
                        assert(a2[j] == asps2[j]);
                        assert(asps2[j] == asps[j]);
                    }
                },
            }
        }
    }
}

/// A found first aborting aspect lies in range and its hook run aborts.
pub proof fn lemma_first_abort_aspect_bounds(asps: Seq<AspectView>, i: int)
    requires
        0 <= i <= asps.len(),
    ensures
        match first_abort_aspect(asps, i) {
            Some(k) => i <= k < asps.len() && first_abort(asps[k].hooks, 0) is Some && forall|
                j: int,
            | i <= j < k ==> !((first_abort((#[trigger] asps[j]).hooks, 0)) is Some),
            None => forall|j: int|
                i <= j < asps.len() ==> !((first_abort((#[trigger] asps[j]).hooks, 0)) is Some),
        },
    decreases asps.len() - i,
{
    if 0 <= i && i < asps.len() {
        if !(first_abort(asps[i].hooks, 0) is Some) {
            lemma_first_abort_aspect_bounds(asps, i + 1);
        }
    }
}

proof fn lemma_first_abort_aspect_update(
    asps: Seq<AspectView>,
    i: int,
    u: int,
    hs2: Seq<HookView>,
)
    requires
        0 <= u < i,
        0 <= i <= asps.len(),
    ensures
        first_abort_aspect(asps.update(u, AspectView { hooks: hs2, ..asps[u] }), i)
            == first_abort_aspect(asps, i),
    decreases asps.len() - i,
{
    if i < asps.len() {
        lemma_first_abort_aspect_update(asps, i + 1, u, hs2);
    }
}

} // verus!
