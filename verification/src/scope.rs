//! Scope tracking and closure capture.
//!
//! While the builder walks source structure it keeps a stack of scope frames:
//! *binding* frames map source names to the SSA variables that currently
//! denote them, and *tracking* frames mark closure-body boundaries. A
//! tracking frame holds no bindings of its own; instead, the first time a
//! name is resolved across it, it records the pair (outer variable, freshly
//! generated inner variable) for that name, so that every later resolution of
//! the same name inside the closure body lands on the same inner variable.
//!
//! Resolution is modelled by the pure function [`resolve_frames`] from
//! (frames, counter, name) to (new frames, new counter, resolved variable);
//! [`ScopeTracker::get`] is proved equal to it, and the capture laws
//! ([`lemma_resolve_idempotent`], [`lemma_resolve_preserves_entries`]) are
//! proved of the model.

use vstd::prelude::*;

use crate::env::{ClosureEnv, ModuleEnvs};
use crate::FunctionIdent;
use crate::Atom;

verus! {

/// One SSA variable, identified by the number the generator handed out.
#[derive(Clone, Copy, PartialEq, Eq, Structural, Debug, Hash, PartialOrd, Ord)]
pub struct SSAVariable(pub u64);

/// Monotonically increasing source of fresh SSA variable ids, shared by the
/// whole compilation of one function.
#[derive(Clone, Copy, Debug)]
pub struct SSAVariableGenerator {
    counter: u64,
}

impl SSAVariableGenerator {
    /// The id the next call of [`Self::next`] will hand out.
    pub closed spec fn count(&self) -> u64 {
        self.counter
    }

    pub fn initial() -> (r: Self)
        ensures
            r.count() == 0,
    {
        SSAVariableGenerator { counter: 0 }
    }

    /// Allocate and return a fresh SSA variable.
    pub fn next(&mut self) -> (r: SSAVariable)
        requires
            old(self).count() < u64::MAX,
        ensures
            r == SSAVariable(old(self).count()),
            final(self).count() == old(self).count() + 1,
    {
        let v = SSAVariable(self.counter);
        self.counter = self.counter + 1;
        v
    }
}

/// What a scope frame can bind: a source-level variable or a named function.
#[derive(Clone, Copy, PartialEq, Eq, Structural, Debug, Hash)]
pub enum ScopeDefinition {
    Variable(Atom),
    Function(FunctionIdent),
}

/// The two variables a tracking frame records for a captured name: the
/// variable the name resolved to outside the frame, and the fresh variable
/// that stands for it inside.
#[derive(Clone, Copy, PartialEq, Eq, Structural, Debug)]
pub struct SSAPair {
    pub outer: SSAVariable,
    pub inner: SSAVariable,
}

/// A small association map from [`ScopeDefinition`] to `V`, viewed as a
/// `Map`. Later insertions shadow earlier ones.
#[derive(Debug)]
pub struct ScopeMap<V> {
    entries: Vec<(ScopeDefinition, V)>,
}

impl<V: Copy> ScopeMap<V> {
    /// The entries folded into a map, later entries winning.
    pub closed spec fn map_of(s: Seq<(ScopeDefinition, V)>) -> Map<ScopeDefinition, V>
        decreases s.len(),
    {
        if s.len() == 0 {
            Map::empty()
        } else {
            Self::map_of(s.drop_last()).insert(s.last().0, s.last().1)
        }
    }

    pub closed spec fn view(&self) -> Map<ScopeDefinition, V> {
        Self::map_of(self.entries@)
    }

    /// How many entries the map physically holds.
    pub closed spec fn num_entries(&self) -> nat {
        self.entries@.len()
    }

    proof fn lemma_map_of_no_match(s: Seq<(ScopeDefinition, V)>, k: ScopeDefinition)
        requires
            forall|j: int| 0 <= j < s.len() ==> (#[trigger] s[j]).0 != k,
        ensures
            !Self::map_of(s).contains_key(k),
        decreases s.len(),
    {
        if s.len() > 0 {
            assert(s.last() == s[s.len() - 1]);
            Self::lemma_map_of_no_match(s.drop_last(), k);
        }
    }

    proof fn lemma_map_of_last_match(s: Seq<(ScopeDefinition, V)>, i: int, k: ScopeDefinition)
        requires
            0 <= i < s.len(),
            s[i].0 == k,
            forall|j: int| i < j < s.len() ==> (#[trigger] s[j]).0 != k,
        ensures
            Self::map_of(s).contains_key(k),
            Self::map_of(s)[k] == s[i].1,
        decreases s.len(),
    {
        if i == s.len() - 1 {
            assert(s.last() == s[i]);
        } else {
            assert(s.last() == s[s.len() - 1]);
            Self::lemma_map_of_last_match(s.drop_last(), i, k);
        }
    }

    pub fn new() -> (r: Self)
        ensures
            r@ == Map::<ScopeDefinition, V>::empty(),
            r.num_entries() == 0,
    {
        ScopeMap { entries: Vec::new() }
    }

    /// Look the name up; `None` when it is not bound here.
    pub fn get(&self, k: &ScopeDefinition) -> (r: Option<V>)
        ensures
            r == if self@.contains_key(*k) {
                Some(self@[*k])
            } else {
                None::<V>
            },
    {
        let mut i: usize = self.entries.len();
        while i > 0
            invariant
                i <= self.entries@.len(),
                forall|j: int| i <= j < self.entries@.len() ==> (#[trigger] self.entries@[j]).0 != *k,
            decreases i,
        {
            i = i - 1;
            if self.entries[i].0 == *k {
                proof {
                    Self::lemma_map_of_last_match(self.entries@, i as int, *k);
                }
                return Some(self.entries[i].1);
            }
        }
        proof {
            Self::lemma_map_of_no_match(self.entries@, *k);
        }
        None
    }

    /// Bind `k` to `v`, shadowing any earlier binding of `k`.
    pub fn insert(&mut self, k: ScopeDefinition, v: V)
        ensures
            final(self)@ == old(self)@.insert(k, v),
            final(self).num_entries() == old(self).num_entries() + 1,
    {
        self.entries.push((k, v));
        proof {
            assert(self.entries@.drop_last() =~= old(self).entries@);
        }
    }

    /// The number of entries held.
    pub fn len(&self) -> (r: usize)
        ensures
            r == self.num_entries(),
    {
        self.entries.len()
    }

    /// The entries in insertion order.
    pub fn entries(&self) -> (r: &Vec<(ScopeDefinition, V)>)
        ensures
            r@.len() == self.num_entries(),
            forall|j: int|
                0 <= j < r@.len() ==> self@.contains_key((#[trigger] r@[j]).0),
    {
        proof {
            assert forall|j: int| 0 <= j < self.entries@.len()
                implies self@.contains_key((#[trigger] self.entries@[j]).0) by {
                Self::lemma_map_of_contains(self.entries@, j);
            }
        }
        &self.entries
    }

    proof fn lemma_map_of_contains(s: Seq<(ScopeDefinition, V)>, j: int)
        requires
            0 <= j < s.len(),
        ensures
            Self::map_of(s).contains_key(s[j].0),
        decreases s.len(),
    {
        if j < s.len() - 1 {
            Self::lemma_map_of_contains(s.drop_last(), j);
        } else {
            assert(s.last() == s[j]);
        }
    }
}

/// One frame of the scope stack.
enum Scope {
    /// A binding frame: one or more name-to-variable assignments.
    Simple(ScopeMap<SSAVariable>),
    /// A tracking frame: no assignments of its own; records the names
    /// resolved across it, to capture variables for a closure.
    Tracking(ScopeMap<SSAPair>),
}

impl Scope {
    spec fn view(&self) -> FrameView {
        match self {
            Scope::Simple(m) => FrameView::Binding(m@),
            Scope::Tracking(t) => FrameView::Tracking(t@),
        }
    }
}

/// The mathematical content of one scope frame.
#[verifier::ext_equal]
pub enum FrameView {
    Binding(Map<ScopeDefinition, SSAVariable>),
    Tracking(Map<ScopeDefinition, SSAPair>),
}

/// What one resolution step leaves behind: the frame stack with any new
/// capture entries, the variable counter after any fresh allocations, and the
/// variable the name resolved to.
#[verifier::ext_equal]
pub struct ResolveResult {
    pub frames: Seq<FrameView>,
    pub counter: nat,
    pub var: SSAVariable,
}

/// The model of name resolution: search frames innermost-to-outermost for
/// the nearest binding frame holding `name`; then, returning inward, rename
/// across every tracking frame crossed — reusing its recorded inner variable
/// when the name was already captured there, otherwise recording the pair
/// (current variable, fresh variable) and continuing with the fresh one.
/// `None` when no binding frame holds `name`.
pub open spec fn resolve_frames(
    frames: Seq<FrameView>,
    counter: nat,
    name: ScopeDefinition,
) -> Option<ResolveResult>
    decreases frames.len(),
{
    if frames.len() == 0 {
        None
    } else {
        let rest = frames.drop_last();
        match frames.last() {
            FrameView::Binding(m) => {
                if m.contains_key(name) {
                    Some(ResolveResult { frames: frames, counter: counter, var: m[name] })
                } else {
                    match resolve_frames(rest, counter, name) {
                        None => None,
                        Some(r) => Some(
                            ResolveResult {
                                frames: r.frames.push(FrameView::Binding(m)),
                                counter: r.counter,
                                var: r.var,
                            },
                        ),
                    }
                }
            },
            FrameView::Tracking(t) => {
                match resolve_frames(rest, counter, name) {
                    None => None,
                    Some(r) => {
                        if t.contains_key(name) {
                            Some(
                                ResolveResult {
                                    frames: r.frames.push(FrameView::Tracking(t)),
                                    counter: r.counter,
                                    var: t[name].inner,
                                },
                            )
                        } else {
                            let fresh = SSAVariable(r.counter as u64);
                            Some(
                                ResolveResult {
                                    frames: r.frames.push(
                                        FrameView::Tracking(
                                            t.insert(name, SSAPair { outer: r.var, inner: fresh }),
                                        ),
                                    ),
                                    counter: r.counter + 1,
                                    var: fresh,
                                },
                            )
                        }
                    },
                }
            },
        }
    }
}

/// Resolution allocates at most one fresh variable per frame and never
/// shrinks the stack or the counter.
pub proof fn lemma_resolve_counter_bound(
    frames: Seq<FrameView>,
    counter: nat,
    name: ScopeDefinition,
)
    ensures
        resolve_frames(frames, counter, name) matches Some(r) ==> {
            &&& counter <= r.counter <= counter + frames.len()
            &&& r.frames.len() == frames.len()
        },
    decreases frames.len(),
{
    if frames.len() > 0 {
        lemma_resolve_counter_bound(frames.drop_last(), counter, name);
    }
}

/// Capture idempotence: once a name has been resolved, resolving it again
/// changes nothing and returns the same variable — whatever the counter now
/// is. A name that does not resolve still does not.
pub proof fn lemma_resolve_idempotent(
    frames: Seq<FrameView>,
    counter: nat,
    counter2: nat,
    name: ScopeDefinition,
)
    ensures
        match resolve_frames(frames, counter, name) {
            Some(r) => resolve_frames(r.frames, counter2, name) == Some(
                ResolveResult { frames: r.frames, counter: counter2, var: r.var },
            ),
            None => resolve_frames(frames, counter2, name) is None,
        },
    decreases frames.len(),
{
    if frames.len() == 0 {
        return;
    }
    let rest = frames.drop_last();
    lemma_resolve_idempotent(rest, counter, counter2, name);
    match frames.last() {
        FrameView::Binding(m) => {
            if m.contains_key(name) {
            } else {
                match resolve_frames(rest, counter, name) {
                    None => {},
                    Some(rr) => {
                        let r = resolve_frames(frames, counter, name)->Some_0;
                        assert(r.frames.drop_last() =~= rr.frames);
                        assert(r.frames.last() == FrameView::Binding(m));
                    },
                }
            }
        },
        FrameView::Tracking(t) => {
            match resolve_frames(rest, counter, name) {
                None => {},
                Some(rr) => {
                    let r = resolve_frames(frames, counter, name)->Some_0;
                    assert(r.frames.drop_last() =~= rr.frames);
                },
            }
        },
    }
}

/// Does `f2` extend `f1` by at most a capture entry for `name`? Binding
/// frames must be unchanged; a tracking frame may gain `name` if it lacked
/// it, and nothing else.
pub open spec fn frame_extends(f1: FrameView, f2: FrameView, name: ScopeDefinition) -> bool {
    match (f1, f2) {
        (FrameView::Binding(m1), FrameView::Binding(m2)) => m2 == m1,
        (FrameView::Tracking(t1), FrameView::Tracking(t2)) => t2 == t1 || (
            !t1.contains_key(name) && t2.contains_key(name) && t2 == t1.insert(name, t2[name])
        ),
        _ => false,
    }
}

/// Capture consistency: resolution never changes an entry a tracking frame
/// already holds — for any name, the recorded (outer, inner) pair is fixed
/// at first insertion — and touches no binding frame at all.
pub proof fn lemma_resolve_preserves_entries(
    frames: Seq<FrameView>,
    counter: nat,
    name: ScopeDefinition,
)
    ensures
        resolve_frames(frames, counter, name) matches Some(r) ==> {
            &&& r.frames.len() == frames.len()
            &&& forall|i: int|
                0 <= i < frames.len() ==> frame_extends(frames[i], #[trigger] r.frames[i], name)
        },
    decreases frames.len(),
{
    if frames.len() == 0 {
        return;
    }
    let rest = frames.drop_last();
    lemma_resolve_preserves_entries(rest, counter, name);
    match resolve_frames(frames, counter, name) {
        None => {},
        Some(r) => {
            match frames.last() {
                FrameView::Binding(m) => {
                    if m.contains_key(name) {
                        assert forall|i: int| 0 <= i < frames.len()
                            implies frame_extends(frames[i], #[trigger] r.frames[i], name) by {
                            assert(r.frames[i] == frames[i]);
                        }
                    } else {
                        let rr = resolve_frames(rest, counter, name)->Some_0;
                        assert forall|i: int| 0 <= i < frames.len()
                            implies frame_extends(frames[i], #[trigger] r.frames[i], name) by {
                            if i < frames.len() - 1 {
                                assert(r.frames[i] == rr.frames[i]);
                                assert(rest[i] == frames[i]);
                            } else {
                                assert(r.frames[i] == FrameView::Binding(m));
                            }
                        }
                    }
                },
                FrameView::Tracking(t) => {
                    let rr = resolve_frames(rest, counter, name)->Some_0;
                    assert forall|i: int| 0 <= i < frames.len()
                        implies frame_extends(frames[i], #[trigger] r.frames[i], name) by {
                        if i < frames.len() - 1 {
                            assert(r.frames[i] == rr.frames[i]);
                            assert(rest[i] == frames[i]);
                        } else {
                            if t.contains_key(name) {
                                assert(r.frames[i] == FrameView::Tracking(t));
                            } else {
                                let fresh = SSAVariable(rr.counter as u64);
                                let t2 = t.insert(name, SSAPair { outer: rr.var, inner: fresh });
                                assert(r.frames[i] == FrameView::Tracking(t2));
                                assert(t2[name] == SSAPair { outer: rr.var, inner: fresh });
                            }
                        }
                    }
                },
            }
        },
    }
}

/// The fatal internal-consistency failures: each one signals a defect in an
/// upstream collaborator's use of this core's contracts, never a malformed
/// user program, and must abort the current compilation.
#[derive(Clone, Copy, PartialEq, Eq, Structural, Debug)]
pub enum FatalError {
    /// A pop was requested on an empty scope stack.
    EmptyScopeStack,
    /// A binding pop met a tracking frame, or a tracking pop a binding frame.
    MismatchedPop,
    /// A closure environment was registered twice.
    DuplicateEnvRegistration,
}

/// A closure environment as accumulated while compiling its body: the
/// ordered capture list and the meta binds, before finalization into the
/// module-wide table.
#[derive(Debug)]
pub struct VerboseLambdaEnv {
    pub env: ClosureEnv,
    /// Captured names with their outer and inner variables, in capture order.
    pub captures: Vec<Capture>,
    /// Function identities bound in the environment, with the variable
    /// denoting the function value and, for self-recursive named functions,
    /// the variable of the recursive reference.
    pub meta_binds: Vec<MetaBind>,
}

/// One captured name of a closure environment.
#[derive(Clone, Copy, PartialEq, Eq, Structural, Debug)]
pub struct Capture {
    pub name: ScopeDefinition,
    pub outer: SSAVariable,
    pub inner: SSAVariable,
}

/// One meta bind of a closure environment.
#[derive(Clone, Copy, PartialEq, Eq, Structural, Debug)]
pub struct MetaBind {
    pub fun: FunctionIdent,
    pub fun_var: SSAVariable,
    pub self_ref: Option<SSAVariable>,
}

/// The stateful resolver used while the builder walks source structure: a
/// stack of scope frames, the SSA variable generator of the function under
/// compilation, and the closure environments registered so far.
pub struct ScopeTracker {
    scopes: Vec<Scope>,
    ssa_var_generator: SSAVariableGenerator,
    module_envs: ModuleEnvs,
    lambda_envs: Vec<(ClosureEnv, VerboseLambdaEnv)>,
}

impl ScopeTracker {
    /// The frame stack, outermost first.
    pub closed spec fn frames(&self) -> Seq<FrameView> {
        self.scopes@.map(|i: int, s: Scope| s.view())
    }

    /// The next SSA variable id to be handed out.
    pub closed spec fn counter(&self) -> nat {
        self.ssa_var_generator.count() as nat
    }

    /// The module-wide environment table as it stands.
    pub closed spec fn envs_view(&self) -> Seq<crate::env::EnvDataView> {
        self.module_envs@
    }

    /// The registered closure environments, in registration order.
    pub closed spec fn lambda_seq(&self) -> Seq<(ClosureEnv, VerboseLambdaEnv)> {
        self.lambda_envs@
    }

    /// Is this environment handle registered?
    pub open spec fn lambda_registered(&self, env: ClosureEnv) -> bool {
        exists|i: int| 0 <= i < self.lambda_seq().len() && (#[trigger] self.lambda_seq()[i]).0 == env
    }

    /// Every registered environment handle was allocated in the module
    /// table. Established by [`Self::new`] and preserved by every method.
    pub open spec fn envs_wf(&self) -> bool {
        forall|i: int|
            0 <= i < self.lambda_seq().len() ==> (#[trigger] self.lambda_seq()[i]).0.0
                < self.envs_view().len()
    }

    pub fn new() -> (r: Self)
        ensures
            r.frames() =~= Seq::<FrameView>::empty(),
            r.counter() == 0,
            r.envs_view() =~= Seq::<crate::env::EnvDataView>::empty(),
            r.lambda_seq() =~= Seq::<(ClosureEnv, VerboseLambdaEnv)>::empty(),
            r.envs_wf(),
    {
        ScopeTracker {
            scopes: Vec::new(),
            ssa_var_generator: SSAVariableGenerator::initial(),
            module_envs: ModuleEnvs::new(),
            lambda_envs: Vec::new(),
        }
    }

    /// A copy of the variable generator in its current state.
    pub fn clone_ssa_generator(&self) -> (r: SSAVariableGenerator)
        ensures
            r.count() as nat == self.counter(),
    {
        self.ssa_var_generator
    }

    /// Push a binding frame whose complete name-to-variable map is already
    /// known.
    pub fn push_scope(&mut self, bindings: ScopeMap<SSAVariable>)
        ensures
            final(self).frames() =~= old(self).frames().push(FrameView::Binding(bindings@)),
            final(self).counter() == old(self).counter(),
            final(self).envs_view() == old(self).envs_view(),
            final(self).lambda_seq() == old(self).lambda_seq(),
    {
        self.scopes.push(Scope::Simple(bindings));
    }

    /// Push a tracking frame at a closure-body boundary.
    pub fn push_tracking(&mut self)
        ensures
            final(self).frames() =~= old(self).frames().push(
                FrameView::Tracking(Map::<ScopeDefinition, SSAPair>::empty()),
            ),
            final(self).counter() == old(self).counter(),
            final(self).envs_view() == old(self).envs_view(),
            final(self).lambda_seq() == old(self).lambda_seq(),
    {
        self.scopes.push(Scope::Tracking(ScopeMap::new()));
    }

    /// Pop a binding frame. Popping an empty stack or a tracking frame is a
    /// fatal internal-consistency failure, and the stack is left as it was.
    pub fn pop_scope(&mut self) -> (r: Result<(), FatalError>)
        ensures
            final(self).counter() == old(self).counter(),
            final(self).envs_view() == old(self).envs_view(),
            final(self).lambda_seq() == old(self).lambda_seq(),
            old(self).frames().len() == 0 ==> r == Err::<(), FatalError>(
                FatalError::EmptyScopeStack,
            ) && final(self).frames() == old(self).frames(),
            old(self).frames().len() > 0 ==> match old(self).frames().last() {
                FrameView::Binding(_) => r == Ok::<(), FatalError>(()) && final(self).frames()
                    =~= old(self).frames().drop_last(),
                FrameView::Tracking(_) => r == Err::<(), FatalError>(FatalError::MismatchedPop)
                    && final(self).frames() == old(self).frames(),
            },
    {
        if self.scopes.len() == 0 {
            return Err(FatalError::EmptyScopeStack);
        }
        let top = self.scopes.len() - 1;
        match &self.scopes[top] {
            Scope::Simple(_) => {
                self.scopes.pop();
                Ok(())
            },
            Scope::Tracking(_) => Err(FatalError::MismatchedPop),
        }
    }

    /// Pop a tracking frame and hand back its accumulated capture map.
    /// Popping an empty stack or a binding frame is a fatal
    /// internal-consistency failure, and the stack is left as it was.
    pub fn pop_tracking(&mut self) -> (r: Result<ScopeMap<SSAPair>, FatalError>)
        ensures
            final(self).counter() == old(self).counter(),
            final(self).envs_view() == old(self).envs_view(),
            final(self).lambda_seq() == old(self).lambda_seq(),
            old(self).frames().len() == 0 ==> (r matches Err(e) && e
                == FatalError::EmptyScopeStack && final(self).frames() == old(self).frames()),
            old(self).frames().len() > 0 ==> match old(self).frames().last() {
                FrameView::Tracking(t) => (r matches Ok(m) && m@ == t && final(self).frames()
                    =~= old(self).frames().drop_last()),
                FrameView::Binding(_) => (r matches Err(e) && e == FatalError::MismatchedPop
                    && final(self).frames() == old(self).frames()),
            },
    {
        if self.scopes.len() == 0 {
            return Err(FatalError::EmptyScopeStack);
        }
        let top = self.scopes.len() - 1;
        match &self.scopes[top] {
            Scope::Tracking(_) => {
                let popped = self.scopes.pop();
                match popped {
                    Some(Scope::Tracking(t)) => Ok(t),
                    _ => Err(FatalError::MismatchedPop),
                }
            },
            Scope::Simple(_) => Err(FatalError::MismatchedPop),
        }
    }

    /// Allocate and return a fresh SSA variable.
    pub fn new_ssa(&mut self) -> (r: SSAVariable)
        requires
            old(self).counter() < u64::MAX,
        ensures
            r == SSAVariable(old(self).counter() as u64),
            final(self).counter() == old(self).counter() + 1,
            final(self).frames() == old(self).frames(),
            final(self).envs_view() == old(self).envs_view(),
            final(self).lambda_seq() == old(self).lambda_seq(),
    {
        self.ssa_var_generator.next()
    }

    /// Resolve `var` against the scope stack, recording captures in every
    /// tracking frame crossed, exactly as [`resolve_frames`] describes.
    /// `None` when no binding frame holds the name — a prior pass error.
    pub fn get(&mut self, var: &ScopeDefinition) -> (r: Option<SSAVariable>)
        requires
            old(self).counter() + old(self).frames().len() <= u64::MAX,
        ensures
            final(self).envs_view() == old(self).envs_view(),
            final(self).lambda_seq() == old(self).lambda_seq(),
            match resolve_frames(old(self).frames(), old(self).counter(), *var) {
                None => r is None && final(self).frames() == old(self).frames() && final(self).counter()
                    == old(self).counter(),
                Some(res) => r == Some(res.var) && final(self).frames() =~= res.frames && final(self).counter()
                    == res.counter,
            },
    {
        let upto = self.scopes.len();
        let r = self.get_rec(upto, var);
        proof {
            assert(old(self).frames().take(upto as int) =~= old(self).frames());
        }
        r
    }

    /// Resolve against the outermost `upto` frames only; the engine behind
    /// [`Self::get`], recursing inward-to-outward over the stack.
    fn get_rec(&mut self, upto: usize, name: &ScopeDefinition) -> (r: Option<SSAVariable>)
        requires
            upto <= old(self).frames().len(),
            old(self).counter() + upto <= u64::MAX,
        ensures
            final(self).frames().len() == old(self).frames().len(),
            forall|j: int|
                upto <= j < final(self).frames().len() ==> final(self).frames()[j] == old(self).frames()[j],
            final(self).envs_view() == old(self).envs_view(),
            final(self).lambda_seq() == old(self).lambda_seq(),
            match resolve_frames(old(self).frames().take(upto as int), old(self).counter(), *name) {
                None => r is None && final(self).frames() == old(self).frames() && final(self).counter()
                    == old(self).counter(),
                Some(res) => r == Some(res.var) && final(self).frames().take(upto as int) =~= res.frames
                    && final(self).counter() == res.counter && final(self).frames().skip(upto as int)
                    =~= old(self).frames().skip(upto as int),
            },
        decreases upto,
    {
        if upto == 0 {
            return None;
        }
        let idx = upto - 1;
        let ghost pre = self.frames().take(upto as int);
        proof {
            assert(pre.drop_last() =~= self.frames().take(idx as int));
            assert(pre.last() == self.frames()[idx as int]);
        }
        let hit: Option<SSAVariable>;
        let is_simple: bool;
        match &self.scopes[idx] {
            Scope::Simple(m) => {
                is_simple = true;
                hit = m.get(name);
            },
            Scope::Tracking(_) => {
                is_simple = false;
                hit = None;
            },
        }
        if is_simple {
            if let Some(v) = hit {
                proof {
                    assert(self.frames().take(upto as int) =~= pre);
                }
                return Some(v);
            }
            let ghost before = self.frames();
            let r = self.get_rec(idx, name);
            proof {
                assert(self.frames()[idx as int] == before[idx as int]);
                match resolve_frames(before.take(idx as int), old(self).counter(), *name) {
                    None => {
                        assert(self.frames() == before);
                    },
                    Some(res) => {
                        assert(self.frames().take(upto as int) =~= res.frames.push(
                            before[idx as int],
                        ));
                        assert(self.frames().skip(upto as int) =~= before.skip(upto as int));
                    },
                }
            }
            r
        } else {
            let ghost before = self.frames();
            let rec = self.get_rec(idx, name);
            match rec {
                None => {
                    proof {
                        assert(self.frames() == before);
                    }
                    None
                },
                Some(v) => {
                    proof {
                        assert(self.frames()[idx as int] == before[idx as int]);
                    }
                    let ghost res_rest = resolve_frames(
                        before.take(idx as int),
                        old(self).counter(),
                        *name,
                    )->Some_0;
                    let existing: Option<SSAPair>;
                    match &self.scopes[idx] {
                        Scope::Tracking(t) => {
                            existing = t.get(name);
                        },
                        Scope::Simple(_) => {
                            proof {
                                assert(false);
                            }
                            existing = None;
                        },
                    }
                    match existing {
                        Some(pair) => {
                            proof {
                                assert(self.frames().take(upto as int) =~= res_rest.frames.push(
                                    before[idx as int],
                                ));
                                assert(self.frames().skip(upto as int) =~= before.skip(
                                    upto as int,
                                ));
                            }
                            Some(pair.inner)
                        },
                        None => {
                            proof {
                                lemma_resolve_counter_bound(
                                    before.take(idx as int),
                                    old(self).counter(),
                                    *name,
                                );
                            }
                            let fresh = self.ssa_var_generator.next();
                            let ghost mid = self.frames();
                            match &mut self.scopes[idx] {
                                Scope::Tracking(t) => {
                                    t.insert(*name, SSAPair { outer: v, inner: fresh });
                                },
                                Scope::Simple(_) => {
                                    proof {
                                        assert(false);
                                    }
                                },
                            }
                            proof {
                                let t_old = match before[idx as int] {
                                    FrameView::Tracking(t) => t,
                                    FrameView::Binding(m) => Map::empty(),
                                };
                                let t_new = t_old.insert(
                                    *name,
                                    SSAPair { outer: res_rest.var, inner: fresh },
                                );
                                assert(self.frames()[idx as int] == FrameView::Tracking(t_new));
                                assert(self.frames().take(upto as int) =~= res_rest.frames.push(
                                    FrameView::Tracking(t_new),
                                ));
                                assert(self.frames().skip(upto as int) =~= before.skip(
                                    upto as int,
                                ));
                            }
                            Some(fresh)
                        },
                    }
                },
            }
        }
    }

    /// Allocate a fresh closure-environment handle in the module table.
    pub fn gen_env_idx(&mut self) -> (r: ClosureEnv)
        requires
            old(self).envs_view().len() < u32::MAX,
        ensures
            r.0 == old(self).envs_view().len(),
            final(self).envs_view().len() == old(self).envs_view().len() + 1,
            final(self).frames() == old(self).frames(),
            final(self).counter() == old(self).counter(),
            final(self).lambda_seq() == old(self).lambda_seq(),
            old(self).envs_wf() ==> final(self).envs_wf(),
    {
        self.module_envs.add()
    }

    /// Register the finished capture data of `env_idx`. Registering the same
    /// environment twice is a fatal internal-consistency failure, and the
    /// registration is refused.
    pub fn add_lambda_env(&mut self, env_idx: ClosureEnv, env: VerboseLambdaEnv) -> (r: Result<
        (),
        FatalError,
    >)
        requires
            env_idx.0 < old(self).envs_view().len(),
        ensures
            final(self).frames() == old(self).frames(),
            final(self).counter() == old(self).counter(),
            final(self).envs_view() == old(self).envs_view(),
            old(self).lambda_registered(env_idx) ==> r == Err::<(), FatalError>(
                FatalError::DuplicateEnvRegistration,
            ) && final(self).lambda_seq() == old(self).lambda_seq(),
            !old(self).lambda_registered(env_idx) ==> r == Ok::<(), FatalError>(())
                && final(self).lambda_seq() =~= old(self).lambda_seq().push((env_idx, env)),
            old(self).envs_wf() ==> final(self).envs_wf(),
    {
        let mut i: usize = 0;
        let n = self.lambda_envs.len();
        while i < n
            invariant
                i <= n,
                n == self.lambda_seq().len(),
                forall|j: int| 0 <= j < i ==> (#[trigger] self.lambda_seq()[j]).0 != env_idx,
            decreases n - i,
        {
            if self.lambda_envs[i].0 == env_idx {
                return Err(FatalError::DuplicateEnvRegistration);
            }
            i = i + 1;
        }
        self.lambda_envs.push((env_idx, env));
        Ok(())
    }

    /// Read back the registered capture data of `env_idx`; `None` when it
    /// was never registered.
    pub fn get_lambda_env(&self, env_idx: ClosureEnv) -> (r: Option<&VerboseLambdaEnv>)
        ensures
            self.lambda_registered(env_idx) <==> r is Some,
            r matches Some(e) ==> exists|i: int|
                0 <= i < self.lambda_seq().len() && #[trigger] self.lambda_seq()[i] == (
                env_idx,
                *e,
                ),
    {
        let mut i: usize = 0;
        let n = self.lambda_envs.len();
        while i < n
            invariant
                i <= n,
                n == self.lambda_seq().len(),
                forall|j: int| 0 <= j < i ==> (#[trigger] self.lambda_seq()[j]).0 != env_idx,
            decreases n - i,
        {
            if self.lambda_envs[i].0 == env_idx {
                return Some(&self.lambda_envs[i].1);
            }
            i = i + 1;
        }
        None
    }

    /// Write every registered environment's capture count and meta binds
    /// into the module-wide table and hand the table over: the one place
    /// capture data crosses into the module-level artifact.
    pub fn finish(self) -> (r: ModuleEnvs)
        requires
            self.envs_wf(),
        ensures
            r@ =~= finish_envs(self.envs_view(), self.lambda_seq()),
    {
        let ghost envs0 = self.envs_view();
        let ghost lam0 = self.lambda_seq();
        let ScopeTracker { scopes: _, ssa_var_generator: _, mut module_envs, lambda_envs } = self;
        proof {
            assert(lambda_envs@ == lam0);
            assert forall|j: int| 0 <= j < lambda_envs@.len() implies (#[trigger] lambda_envs@[j]).0.0
                < module_envs@.len() by {
                assert(lambda_envs@[j] == lam0[j]);
            }
        }
        let n: usize = lambda_envs.len();
        let mut i: usize = 0;
        while i < n
            invariant
                i <= n,
                n == lambda_envs@.len(),
                module_envs@.len() == envs0.len(),
                forall|j: int|
                    0 <= j < lambda_envs@.len() ==> (#[trigger] lambda_envs@[j]).0.0
                        < module_envs@.len(),
                module_envs@ =~= finish_envs(envs0, lambda_envs@.take(i as int)),
            decreases n - i,
        {
            let ghost pre_envs = module_envs@;
            let env = lambda_envs[i].0;
            let num: usize = lambda_envs[i].1.captures.len();
            module_envs.env_set_captures_num(env, num);
            let m: usize = lambda_envs[i].1.meta_binds.len();
            let mut k: usize = 0;
            while k < m
                invariant
                    k <= m,
                    i < lambda_envs@.len(),
                    m == lambda_envs@[i as int].1.meta_binds@.len(),
                    env == lambda_envs@[i as int].0,
                    env.0 < module_envs@.len(),
                    module_envs@.len() == pre_envs.len(),
                    module_envs@ =~= apply_meta_binds(
                        set_captures(pre_envs, env, lambda_envs@[i as int].1.captures@.len()),
                        env,
                        lambda_envs@[i as int].1.meta_binds@.take(k as int),
                    ),
                decreases m - k,
            {
                let mb = lambda_envs[i].1.meta_binds[k];
                module_envs.env_add_meta_bind(env, mb.fun);
                proof {
                    let binds = lambda_envs@[i as int].1.meta_binds@;
                    assert(binds.take(k as int + 1).drop_last() =~= binds.take(k as int));
                    lemma_apply_meta_binds_unfold(
                        set_captures(pre_envs, env, lambda_envs@[i as int].1.captures@.len()),
                        env,
                        binds.take(k as int + 1),
                    );
                }
                k = k + 1;
            }
            proof {
                let taken = lambda_envs@.take(i as int + 1);
                assert(taken.drop_last() =~= lambda_envs@.take(i as int));
                assert(taken.last() == lambda_envs@[i as int]);
                assert(lambda_envs@[i as int].1.meta_binds@.take(m as int) =~= lambda_envs@[
                    i as int].1.meta_binds@);
            }
            i = i + 1;
        }
        proof {
            assert(lambda_envs@.take(n as int) =~= lambda_envs@);
        }
        module_envs
    }
}

/// `envs` with the capture count of `env` set to `num`.
pub open spec fn set_captures(
    envs: Seq<crate::env::EnvDataView>,
    env: ClosureEnv,
    num: nat,
) -> Seq<crate::env::EnvDataView>
    recommends
        env.0 < envs.len(),
{
    envs.update(
        env.0 as int,
        crate::env::EnvDataView {
            captures_num: Some(num as usize),
            meta_binds: envs[env.0 as int].meta_binds,
        },
    )
}

/// `envs` with one meta bind appended to `env`.
pub open spec fn add_meta_bind(
    envs: Seq<crate::env::EnvDataView>,
    env: ClosureEnv,
    ident: FunctionIdent,
) -> Seq<crate::env::EnvDataView>
    recommends
        env.0 < envs.len(),
{
    envs.update(
        env.0 as int,
        crate::env::EnvDataView {
            captures_num: envs[env.0 as int].captures_num,
            meta_binds: envs[env.0 as int].meta_binds.push(ident),
        },
    )
}

/// `envs` after appending the identities of `binds` to `env`, in order.
pub open spec fn apply_meta_binds(
    envs: Seq<crate::env::EnvDataView>,
    env: ClosureEnv,
    binds: Seq<MetaBind>,
) -> Seq<crate::env::EnvDataView>
    decreases binds.len(),
{
    if binds.len() == 0 {
        envs
    } else {
        add_meta_bind(apply_meta_binds(envs, env, binds.drop_last()), env, binds.last().fun)
    }
}

proof fn lemma_apply_meta_binds_unfold(
    envs: Seq<crate::env::EnvDataView>,
    env: ClosureEnv,
    binds: Seq<MetaBind>,
)
    requires
        binds.len() > 0,
    ensures
        apply_meta_binds(envs, env, binds) == add_meta_bind(
            apply_meta_binds(envs, env, binds.drop_last()),
            env,
            binds.last().fun,
        ),
{
}

/// The finished module table: for each registered environment, in
/// registration order, its capture count is set and its meta-bind identities
/// appended.
pub open spec fn finish_envs(
    envs: Seq<crate::env::EnvDataView>,
    lambdas: Seq<(ClosureEnv, VerboseLambdaEnv)>,
) -> Seq<crate::env::EnvDataView>
    decreases lambdas.len(),
{
    if lambdas.len() == 0 {
        envs
    } else {
        let prev = finish_envs(envs, lambdas.drop_last());
        let env = lambdas.last().0;
        let data = lambdas.last().1;
        apply_meta_binds(
            set_captures(prev, env, data.captures@.len()),
            env,
            data.meta_binds@,
        )
    }
}

} // verus!
