//! The context stack: activation protocol, frame lifecycle, query lifecycle.
//!
//! A [`Session`] owns everything the engine protocol requires the host to
//! get right: the stack of open contexts (of which exactly the top one is
//! active), the term-reference allocation pointer, the binding trail, and
//! the symbol allocation logs.  Engine-mutating operations demand an active
//! context; opening a child context deactivates its parent and closing the
//! child reactivates it, strictly last-in-first-out.
//!
//! Handing activation back is the pop itself, so a double reactivation —
//! the fault the engine's protocol can only assert against at run time —
//! has no representation here at all: the stack makes it unreachable.
//! What remains checkable at run time is handle staleness, and the
//! `check_active` / `try_`-variants report exactly that for hosts that
//! cannot carry the static proof.

use crate::term::keep_below;
use crate::term::lemma_keep_below_all;
use crate::term::lemma_keep_below_bound;
use crate::term::lemma_keep_below_concat;
use crate::term::lemma_keep_below_lookup;
use crate::term::lemma_keep_below_prefix;
use crate::term::lemma_lookup_absent;
use crate::term::lemma_lookup_concat_absent;
use crate::term::lemma_lookup_push;
use crate::term::lemma_unwind_erases;
use crate::term::lookup;
use crate::term::Binding;
use crate::term::TermValue;
use vstd::prelude::*;
use vstd::string::StringExecFns;

verus! {

/// The closed set of context kinds.  The set must stay closed: the
/// activation protocol below is audited against exactly these five.
#[derive(Clone, Copy, Debug, PartialEq, Eq, Structural)]
pub enum ContextType {
    /// The root context produced from an activated engine.
    ActivatedEngine,
    /// One open foreign call frame.
    Frame,
    /// One open logic query.
    Query,
    /// A type-erased alias of another context; never itself on the stack.
    Unknown,
    /// An escape-hatch root wrapped around an engine that was activated
    /// outside the session's control.
    UnmanagedContext,
}

/// The outcome of advancing a query to its next solution.
#[derive(Clone, Copy, Debug, PartialEq, Eq, Structural)]
pub enum QueryResult {
    /// A solution was found and choice points remain: more may exist.
    Success,
    /// A solution was found and deterministically no more remain.
    SuccessLast,
    /// No (more) solutions.
    Failure,
    /// An error occurred while searching; only the tag is surfaced here,
    /// payload extraction is a collaborator's business.
    Exception,
}

/// Decodes the numeric outcome the engine's advance entry point returns.
/// Every code outside the engine's documented set is rejected rather than
/// guessed at.
pub fn decode_solution_code(code: i32) -> (r: Option<QueryResult>)
    ensures
        r == (if code == -1 {
            Some(QueryResult::Exception)
        } else if code == 0 {
            Some(QueryResult::Failure)
        } else if code == 1 {
            Some(QueryResult::Success)
        } else if code == 2 {
            Some(QueryResult::SuccessLast)
        } else {
            None::<QueryResult>
        }),
{
    if code == -1 {
        Some(QueryResult::Exception)
    } else if code == 0 {
        Some(QueryResult::Failure)
    } else if code == 1 {
        Some(QueryResult::Success)
    } else if code == 2 {
        Some(QueryResult::SuccessLast)
    } else {
        None
    }
}

/// The largest arity the engine accepts for a functor.
pub const MAX_ARITY: usize = 1024;

/// Only the root activated-engine context and frames may open queries: not
/// another query, and not a type-erased or escape-hatch context.
pub open spec fn queryable(k: ContextType) -> bool {
    k == ContextType::ActivatedEngine || k == ContextType::Frame
}

/// What a query runs: the predicate it was opened on, and the module it
/// targets — `None` meaning the engine's default module.
#[derive(Clone, Copy, Debug)]
pub struct QueryTarget {
    pub module: Option<usize>,
    pub predicate: usize,
}

/// One context on the session's stack of open contexts.
#[derive(Clone, Copy, Debug)]
pub struct ContextRecord {
    /// Which kind of context was opened.
    pub kind: ContextType,
    /// The term-reference allocation pointer when this context was opened;
    /// discarding or rewinding the context frees every reference at or
    /// above it.
    pub term_mark: usize,
    /// The trail length when this context was opened; discarding the
    /// context unwinds every binding made at or after it.
    pub trail_mark: usize,
    /// The generation stamp handed to the handle for this context, so that
    /// a stale handle can never revalidate against a later context that
    /// reuses its depth.
    pub serial: u64,
    /// For a query context, what the query runs; `None` for every other
    /// kind.
    pub target: Option<QueryTarget>,
}

/// A handle to one context of a session.  Handles are plain data: every
/// operation checks the handle against the session's stack, so a handle
/// kept across the close of its context is detected, never trusted.
#[derive(Clone, Copy, Debug, PartialEq, Eq, Structural)]
pub struct Context {
    /// Position of the context on the session's stack.
    pub depth: usize,
    /// Generation stamp of the context this handle was issued for.
    pub serial: u64,
    /// The kind the context was opened as, or `Unknown` for a type-erased
    /// alias.
    pub kind: ContextType,
}

/// One functor allocation: an atom applied to a fixed number of arguments.
#[derive(Clone, Copy, Debug, PartialEq, Eq, Structural)]
pub struct FunctorRecord {
    pub name_atom: usize,
    pub arity: u16,
}

/// One module allocation, by the atom naming it.
#[derive(Clone, Copy, Debug, PartialEq, Eq, Structural)]
pub struct ModuleRecord {
    pub name_atom: usize,
}

/// One predicate allocation, from a functor and a module.
#[derive(Clone, Copy, Debug, PartialEq, Eq, Structural)]
pub struct PredicateRecord {
    pub functor: usize,
    pub module: usize,
}

/// The modelled state of one engine bound to the calling thread, together
/// with the stack of contexts opened on it.
///
/// Holding the session (exclusively, as Rust ownership already enforces) is
/// the proof of a live engine activation: the allocation operations for
/// atoms, functors, modules and predicates only touch the engine's global
/// symbol tables, so they are available whatever context is currently the
/// active one, while every term- or stack-mutating operation additionally
/// demands a handle to the active context.
pub struct Session {
    /// The stack of open contexts; the first entry is the root, the last is
    /// the one active context.
    pub contexts: Vec<ContextRecord>,
    /// The term-reference allocation pointer: references `0..terms` are
    /// currently allocated.
    pub terms: usize,
    /// The binding trail, in chronological order.
    pub trail: Vec<Binding>,
    /// Names of the atoms allocated so far, by allocation order.
    pub atoms: Vec<String>,
    /// Functors allocated so far.
    pub functors: Vec<FunctorRecord>,
    /// Modules allocated so far.
    pub modules: Vec<ModuleRecord>,
    /// Predicates allocated so far.
    pub predicates: Vec<PredicateRecord>,
    /// The opaque, pointer-sized identifier of the engine instance.
    pub engine: u64,
    /// The next generation stamp to hand out; strictly above every stamp on
    /// the stack.
    pub next_serial: u64,
}

/// Marks may only grow towards the top of the stack.
pub open spec fn marks_le(a: ContextRecord, b: ContextRecord) -> bool {
    a.term_mark <= b.term_mark && a.trail_mark <= b.trail_mark
}

/// The symbol logs only grow from `pre` to `post`: every handle allocated
/// before stays valid and names the same record.
pub open spec fn symbols_extend(pre: Session, post: Session) -> bool {
    &&& pre.atoms@.len() <= post.atoms@.len()
    &&& pre.functors@.len() <= post.functors@.len()
    &&& pre.modules@.len() <= post.modules@.len()
    &&& pre.predicates@.len() <= post.predicates@.len()
    &&& (forall|j: int| 0 <= j < pre.atoms@.len() ==> post.atoms@[j] == pre.atoms@[j])
    &&& (forall|j: int| 0 <= j < pre.functors@.len() ==> post.functors@[j] == pre.functors@[j])
    &&& (forall|j: int| 0 <= j < pre.modules@.len() ==> post.modules@[j] == pre.modules@[j])
    &&& (forall|j: int|
        0 <= j < pre.predicates@.len() ==> post.predicates@[j] == pre.predicates@[j])
}

/// The predicate log entry at `p` is the engine's single-argument `call`
/// wrapper in the `user` module: the functor `call/1` over the atom named
/// "call", resolved in the module named "user".
pub open spec fn is_call_predicate(s: Session, p: int) -> bool {
    &&& 0 <= p < s.predicates@.len()
    &&& s.predicates@[p].functor < s.functors@.len()
    &&& s.predicates@[p].module < s.modules@.len()
    &&& s.functors@[s.predicates@[p].functor as int].arity == 1
    &&& s.functors@[s.predicates@[p].functor as int].name_atom < s.atoms@.len()
    &&& s.atoms@[s.functors@[s.predicates@[p].functor as int].name_atom as int]@ == "call"@
    &&& s.modules@[s.predicates@[p].module as int].name_atom < s.atoms@.len()
    &&& s.atoms@[s.modules@[s.predicates@[p].module as int].name_atom as int]@ == "user"@
}

/// The predicate log entry at `p` is the engine's fixed three-argument
/// parsing predicate in the `user` module: the functor
/// `read_term_from_atom/3`, resolved in the module named "user".
pub open spec fn is_parse_predicate(s: Session, p: int) -> bool {
    &&& 0 <= p < s.predicates@.len()
    &&& s.predicates@[p].functor < s.functors@.len()
    &&& s.predicates@[p].module < s.modules@.len()
    &&& s.functors@[s.predicates@[p].functor as int].arity == 3
    &&& s.functors@[s.predicates@[p].functor as int].name_atom < s.atoms@.len()
    &&& s.atoms@[s.functors@[s.predicates@[p].functor as int].name_atom as int]@
        == "read_term_from_atom"@
    &&& s.modules@[s.predicates@[p].module as int].name_atom < s.atoms@.len()
    &&& s.atoms@[s.modules@[s.predicates@[p].module as int].name_atom as int]@ == "user"@
}

impl Session {
    /// The record of the one active context.
    pub open spec fn top(self) -> ContextRecord {
        self.contexts@.last()
    }

    /// The stack record at depth `i` is internally consistent.
    pub open spec fn rec_ok(self, i: int) -> bool {
        let r = self.contexts@[i];
        &&& r.term_mark <= self.terms
        &&& r.trail_mark <= self.trail@.len()
        &&& r.serial < self.next_serial
        &&& (i == 0 ==> r.kind == ContextType::ActivatedEngine || r.kind
            == ContextType::UnmanagedContext)
        &&& (i > 0 ==> r.kind == ContextType::Frame || r.kind == ContextType::Query)
        &&& (r.kind == ContextType::Query ==> i > 0 && queryable(self.contexts@[i - 1].kind))
        &&& (r.kind == ContextType::Query <==> r.target is Some)
    }

    /// Every binding older than the context at depth `i` touches only term
    /// references older than that context: unwinding the context can never
    /// free a reference that an older binding still mentions.
    pub open spec fn prefix_ok(self, i: int) -> bool {
        forall|j: int|
            0 <= j < self.contexts@[i].trail_mark ==> (#[trigger] self.trail@[j]).term
                < self.contexts@[i].term_mark
    }

    /// The session invariant: a nonempty stack of strictly nested contexts
    /// whose marks respect the nesting order, over a trail that only
    /// mentions currently allocated term references.
    pub open spec fn wf(self) -> bool {
        &&& self.contexts@.len() >= 1
        &&& forall|i: int| 0 <= i < self.contexts@.len() ==> #[trigger] self.rec_ok(i)
        &&& forall|i: int| 0 <= i < self.contexts@.len() ==> #[trigger] self.prefix_ok(i)
        &&& forall|i: int, k: int|
            0 <= i <= k < self.contexts@.len() ==> #[trigger] marks_le(
                self.contexts@[i],
                self.contexts@[k],
            )
        &&& forall|j: int| 0 <= j < self.trail@.len() ==> (#[trigger] self.trail@[j]).term
            < self.terms
    }

    /// The handle refers to a context that is still open: its depth is on
    /// the stack, the generation stamps agree, and the kinds agree unless
    /// the handle is a type-erased alias.
    pub open spec fn valid_handle(self, c: Context) -> bool {
        &&& c.depth < self.contexts@.len()
        &&& self.contexts@[c.depth as int].serial == c.serial
        &&& (c.kind == ContextType::Unknown || self.contexts@[c.depth as int].kind == c.kind)
    }

    /// The handle refers to the one active context: the top of the stack.
    pub open spec fn is_active(self, c: Context) -> bool {
        self.valid_handle(c) && c.depth as int == self.contexts@.len() - 1
    }

    /// The value term reference `t` currently holds, or `None` if it is
    /// unbound.
    pub open spec fn value_of(self, t: usize) -> Option<TermValue> {
        lookup(self.trail@, t)
    }

    /// Runtime check of [`Session::is_active`], for callers that cannot
    /// carry the proof: using a stale or shadowed handle is a programmer
    /// error that must fault rather than touch the engine.
    pub fn check_active(&self, c: &Context) -> (b: bool)
        ensures
            b == self.is_active(*c),
    {
        if c.depth < self.contexts.len() && c.depth + 1 == self.contexts.len() {
            let r = self.contexts[c.depth];
            r.serial == c.serial && (c.kind == ContextType::Unknown || r.kind == c.kind)
        } else {
            false
        }
    }

    /// The engine identifier this session is bound to.
    pub fn engine_ptr(&self) -> (r: u64)
        ensures
            r == self.engine,
    {
        self.engine
    }

    /// Opens a session on an activated engine: the root context of the
    /// stack, active until a child is opened from it.
    pub fn new(engine: u64) -> (r: (Session, Context))
        ensures
            r.0.wf(),
            r.0.engine == engine,
            r.0.contexts@.len() == 1,
            r.0.top().kind == ContextType::ActivatedEngine,
            r.0.terms == 0,
            r.0.trail@.len() == 0,
            r.0.atoms@.len() == 0,
            r.0.functors@.len() == 0,
            r.0.modules@.len() == 0,
            r.0.predicates@.len() == 0,
            r.0.next_serial == 1,
            r.0.is_active(r.1),
            r.1.kind == ContextType::ActivatedEngine,
    {
        Session::root(engine, ContextType::ActivatedEngine)
    }

    /// Opens a session around an engine that was activated outside the
    /// session's control, for code reached from engine-initiated callbacks
    /// where no context value exists yet.
    ///
    /// The caller must guarantee on their own authority that an engine is
    /// truly active on this thread and that no other context claims
    /// ownership of its reactivation; the session cannot check either, it
    /// can only keep its own nesting sound from here on.  A null engine
    /// identifier means no engine is active at all, the one misuse that is
    /// detectable, so it is excluded outright.  The root it makes cannot
    /// open queries directly: open a frame from it first.
    pub fn unmanaged(engine: u64) -> (r: (Session, Context))
        requires
            engine != 0,
        ensures
            r.0.wf(),
            r.0.engine == engine,
            r.0.contexts@.len() == 1,
            r.0.top().kind == ContextType::UnmanagedContext,
            r.0.terms == 0,
            r.0.trail@.len() == 0,
            r.0.atoms@.len() == 0,
            r.0.functors@.len() == 0,
            r.0.modules@.len() == 0,
            r.0.predicates@.len() == 0,
            r.0.next_serial == 1,
            r.0.is_active(r.1),
            r.1.kind == ContextType::UnmanagedContext,
    {
        Session::root(engine, ContextType::UnmanagedContext)
    }

    fn root(engine: u64, kind: ContextType) -> (r: (Session, Context))
        requires
            kind == ContextType::ActivatedEngine || kind == ContextType::UnmanagedContext,
        ensures
            r.0.wf(),
            r.0.engine == engine,
            r.0.contexts@.len() == 1,
            r.0.top().kind == kind,
            r.0.terms == 0,
            r.0.trail@.len() == 0,
            r.0.atoms@.len() == 0,
            r.0.functors@.len() == 0,
            r.0.modules@.len() == 0,
            r.0.predicates@.len() == 0,
            r.0.next_serial == 1,
            r.0.is_active(r.1),
            r.1.kind == kind,
    {
        let mut contexts: Vec<ContextRecord> = Vec::new();
        contexts.push(ContextRecord { kind, term_mark: 0, trail_mark: 0, serial: 0, target: None });
        let s = Session {
            contexts,
            terms: 0,
            trail: Vec::new(),
            atoms: Vec::new(),
            functors: Vec::new(),
            modules: Vec::new(),
            predicates: Vec::new(),
            engine,
            next_serial: 1,
        };
        let c = Context { depth: 0, serial: 0, kind };
        proof {
            assert forall|i: int| 0 <= i < s.contexts@.len() implies #[trigger] s.rec_ok(i) by {}
            assert forall|i: int| 0 <= i < s.contexts@.len() implies #[trigger] s.prefix_ok(i) by {}
        }
        (s, c)
    }

    /// Produces a type-erased alias of a live context, for storage that
    /// must not carry the concrete kind.  The alias names the same stack
    /// entry, and closing the original is still the only way to pop the
    /// entry: the alias owns no cleanup of its own.
    ///
    /// One deliberate tightening: an alias carries no activation of its
    /// own but shares its context's — it is active exactly when the
    /// context it erases is.  An alias marked active unconditionally, as a
    /// plain pre-activated flag copy would be, could acquire term
    /// references while some other context is the active one, and no
    /// proof that exactly one context is active at a time would survive
    /// that; sharing the activation keeps the alias usable precisely while
    /// its context is, and keeps single activity provable.
    pub fn as_unknown(&self, c: &Context) -> (r: Context)
        requires
            self.valid_handle(*c),
        ensures
            r.depth == c.depth,
            r.serial == c.serial,
            r.kind == ContextType::Unknown,
            self.valid_handle(r),
            self.is_active(r) == self.is_active(*c),
    {
        Context { depth: c.depth, serial: c.serial, kind: ContextType::Unknown }
    }

    /// Allocates a fresh term reference through the active context.  The
    /// fresh reference is unbound.
    pub fn new_term_ref(&mut self, c: &Context) -> (t: usize)
        requires
            old(self).wf(),
            old(self).is_active(*c),
            old(self).terms < usize::MAX,
        ensures
            final(self).wf(),
            t == old(self).terms,
            final(self).terms == old(self).terms + 1,
            final(self).value_of(t) is None,
            final(self).contexts@ == old(self).contexts@,
            final(self).trail@ == old(self).trail@,
            final(self).atoms@ == old(self).atoms@,
            final(self).functors@ == old(self).functors@,
            final(self).modules@ == old(self).modules@,
            final(self).predicates@ == old(self).predicates@,
            final(self).engine == old(self).engine,
            final(self).next_serial == old(self).next_serial,
            final(self).is_active(*c),
    {
        let t = self.terms;
        self.terms = self.terms + 1;
        proof {
            assert forall|i: int| 0 <= i < self.contexts@.len() implies #[trigger] self.rec_ok(
                i,
            ) by {
                assert(old(self).rec_ok(i));
            }
            assert forall|i: int| 0 <= i < self.contexts@.len() implies #[trigger] self.prefix_ok(
                i,
            ) by {
                assert(old(self).prefix_ok(i));
            }
            assert forall|j: int|
                0 <= j < self.trail@.len() implies (#[trigger] self.trail@[j]).term
                < self.terms by {}
            lemma_lookup_absent(self.trail@, t);
        }
        t
    }

    /// Checked variant of [`Session::new_term_ref`]: acquiring a term
    /// reference from a context that is not the active one is a programmer
    /// error, reported as `None` so that a host without the static proof
    /// can abort.  It succeeds exactly on the active context.
    pub fn try_new_term_ref(&mut self, c: &Context) -> (r: Option<usize>)
        requires
            old(self).wf(),
            old(self).terms < usize::MAX,
        ensures
            final(self).wf(),
            r is Some <==> old(self).is_active(*c),
            r is Some ==> r == Some(old(self).terms) && final(self).terms == old(self).terms + 1
                && final(self).trail@ == old(self).trail@ && final(self).contexts@ == old(
            self,
            ).contexts@ && final(self).next_serial == old(self).next_serial && symbols_extend(
                *old(self),
                *final(self),
            ),
            r is None ==> *final(self) == *old(self),
    {
        if self.check_active(c) {
            Some(self.new_term_ref(c))
        } else {
            None
        }
    }

    /// Adopts a term reference the engine already holds (for instance one
    /// handed to a callback) under the active context's discipline.
    pub fn wrap_term_ref(&self, c: &Context, t: usize) -> (r: usize)
        requires
            self.wf(),
            self.is_active(*c),
            t < self.terms,
        ensures
            r == t,
    {
        t
    }

    /// Records that the engine bound term reference `t` to `v` while the
    /// context `c` was active: one new trail entry, every other reference
    /// unchanged.
    pub fn bind_term(&mut self, c: &Context, t: usize, v: TermValue)
        requires
            old(self).wf(),
            old(self).is_active(*c),
            t < old(self).terms,
        ensures
            final(self).wf(),
            final(self).trail@ == old(self).trail@.push((Binding { term: t, value: v })),
            final(self).value_of(t) == Some(v),
            forall|u: usize| u != t ==> final(self).value_of(u) == old(self).value_of(u),
            final(self).contexts@ == old(self).contexts@,
            final(self).terms == old(self).terms,
            final(self).atoms@ == old(self).atoms@,
            final(self).functors@ == old(self).functors@,
            final(self).modules@ == old(self).modules@,
            final(self).predicates@ == old(self).predicates@,
            final(self).engine == old(self).engine,
            final(self).next_serial == old(self).next_serial,
            final(self).is_active(*c),
    {
        let ghost b = Binding { term: t, value: v };
        self.trail.push(Binding { term: t, value: v });
        proof {
            assert forall|i: int| 0 <= i < self.contexts@.len() implies #[trigger] self.rec_ok(
                i,
            ) by {
                assert(old(self).rec_ok(i));
            }
            assert forall|i: int| 0 <= i < self.contexts@.len() implies #[trigger] self.prefix_ok(
                i,
            ) by {
                assert(old(self).rec_ok(i));
                assert(old(self).prefix_ok(i));
                assert forall|j: int|
                    0 <= j < self.contexts@[i].trail_mark implies (#[trigger] self.trail@[j]).term
                    < self.contexts@[i].term_mark by {
                    assert(self.trail@[j] == old(self).trail@[j]);
                }
            }
            assert forall|j: int|
                0 <= j < self.trail@.len() implies (#[trigger] self.trail@[j]).term
                < self.terms by {
                if j < old(self).trail@.len() {
                    assert(old(self).trail@[j].term < old(self).terms);
                }
            }
            lemma_lookup_push(old(self).trail@, b, t);
            assert forall|u: usize| u != t implies final(self).value_of(u) == old(self).value_of(
                u,
            ) by {
                lemma_lookup_push(old(self).trail@, b, u);
            }
        }
    }

    /// Opens a child frame from the active context: the engine allocates a
    /// new frame, the caller's context is deactivated, and the child frame
    /// becomes the one active context, marking the points to which a later
    /// discard or rewind will free term references and unwind bindings.
    pub fn open_frame(&mut self, c: &Context) -> (f: Context)
        requires
            old(self).wf(),
            old(self).is_active(*c),
            old(self).next_serial < u64::MAX,
        ensures
            final(self).wf(),
            final(self).is_active(f),
            f.kind == ContextType::Frame,
            f.depth == old(self).contexts@.len(),
            !final(self).is_active(*c),
            final(self).valid_handle(*c),
            final(self).contexts@ == old(self).contexts@.push(final(self).top()),
            final(self).top().kind == ContextType::Frame,
            final(self).top().term_mark == old(self).terms,
            final(self).top().trail_mark == old(self).trail@.len(),
            final(self).terms == old(self).terms,
            final(self).trail@ == old(self).trail@,
            final(self).atoms@ == old(self).atoms@,
            final(self).functors@ == old(self).functors@,
            final(self).modules@ == old(self).modules@,
            final(self).predicates@ == old(self).predicates@,
            final(self).engine == old(self).engine,
            final(self).next_serial == old(self).next_serial + 1,
    {
        let rec = ContextRecord {
            kind: ContextType::Frame,
            term_mark: self.terms,
            trail_mark: self.trail.len(),
            serial: self.next_serial,
            target: None,
        };
        let f = Context {
            depth: self.contexts.len(),
            serial: self.next_serial,
            kind: ContextType::Frame,
        };
        self.contexts.push(rec);
        self.next_serial = self.next_serial + 1;
        proof {
            let n = old(self).contexts@.len() as int;
            assert forall|i: int| 0 <= i < self.contexts@.len() implies #[trigger] self.rec_ok(
                i,
            ) by {
                if i < n {
                    assert(old(self).rec_ok(i));
                    assert(self.contexts@[i] == old(self).contexts@[i]);
                    if i > 0 {
                        assert(self.contexts@[i - 1] == old(self).contexts@[i - 1]);
                    }
                }
            }
            assert forall|i: int| 0 <= i < self.contexts@.len() implies #[trigger] self.prefix_ok(
                i,
            ) by {
                if i < n {
                    assert(old(self).prefix_ok(i));
                    assert(self.contexts@[i] == old(self).contexts@[i]);
                } else {
                    assert forall|j: int|
                        0 <= j < self.contexts@[i].trail_mark implies (#[trigger] self.trail@[
                    j]).term < self.contexts@[i].term_mark by {}
                }
            }
            assert forall|i: int, k: int|
                0 <= i <= k < self.contexts@.len() implies #[trigger] marks_le(
                self.contexts@[i],
                self.contexts@[k],
            ) by {
                if k < n {
                    assert(marks_le(old(self).contexts@[i], old(self).contexts@[k]));
                } else if i < n {
                    assert(old(self).rec_ok(i));
                }
            }
        }
        f
    }

    /// The stack is strictly nested, so the active context is never the
    /// root while a frame or query handle for it exists: popping it leaves
    /// a nonempty stack.
    proof fn lemma_top_not_root(self, c: Context)
        requires
            self.wf(),
            self.is_active(c),
            c.kind == ContextType::Frame || c.kind == ContextType::Query,
        ensures
            self.contexts@.len() >= 2,
            self.top() == self.contexts@[self.contexts@.len() - 1],
    {
        assert(self.rec_ok(0));
        assert(self.rec_ok(self.contexts@.len() - 1));
    }

    /// Common reasoning for every operation that pops the active context
    /// and truncates the trail to its marks, or rewinds to them in place:
    /// the remaining records still satisfy the invariant over the truncated
    /// state.
    proof fn lemma_unwind_wf(pre: Session, post: Session)
        requires
            pre.wf(),
            post.contexts@ == pre.contexts@.drop_last() || post.contexts@ == pre.contexts@,
            post.contexts@.len() >= 1,
            post.terms == pre.top().term_mark,
            post.trail@ == pre.trail@.take(pre.top().trail_mark as int),
            post.next_serial == pre.next_serial,
        ensures
            post.wf(),
    {
        let n = pre.contexts@.len() as int;
        assert(pre.rec_ok(n - 1));
        assert forall|i: int| 0 <= i < post.contexts@.len() implies #[trigger] post.rec_ok(i) by {
            assert(pre.rec_ok(i));
            assert(post.contexts@[i] == pre.contexts@[i]);
            assert(marks_le(pre.contexts@[i], pre.contexts@[n - 1]));
            if i > 0 {
                assert(post.contexts@[i - 1] == pre.contexts@[i - 1]);
            }
        }
        assert forall|i: int| 0 <= i < post.contexts@.len() implies #[trigger] post.prefix_ok(
            i,
        ) by {
            assert(pre.rec_ok(i));
            assert(pre.prefix_ok(i));
            assert(marks_le(pre.contexts@[i], pre.contexts@[n - 1]));
            assert forall|j: int|
                0 <= j < post.contexts@[i].trail_mark implies (#[trigger] post.trail@[j]).term
                < post.contexts@[i].term_mark by {
                assert(post.trail@[j] == pre.trail@[j]);
            }
        }
        assert forall|i: int, k: int|
            0 <= i <= k < post.contexts@.len() implies #[trigger] marks_le(
            post.contexts@[i],
            post.contexts@[k],
        ) by {
            assert(marks_le(pre.contexts@[i], pre.contexts@[k]));
        }
        assert(pre.prefix_ok(n - 1));
        assert forall|j: int|
            0 <= j < post.trail@.len() implies (#[trigger] post.trail@[j]).term < post.terms by {
            assert(post.trail@[j] == pre.trail@[j]);
        }
    }

    /// Closes the active frame: the engine frees the frame's slot, which
    /// deterministically invalidates every term reference allocated after
    /// the frame opened, but commits all bindings made since then — every
    /// surviving reference keeps the value it had.  With no intervening
    /// allocations, the parent gets its state back exactly as if the frame
    /// had never been opened.
    pub fn close_frame(&mut self, f: Context)
        requires
            old(self).wf(),
            old(self).is_active(f),
            f.kind == ContextType::Frame,
        ensures
            final(self).wf(),
            final(self).contexts@ == old(self).contexts@.drop_last(),
            final(self).terms == old(self).top().term_mark,
            final(self).trail@ == keep_below(old(self).trail@, old(self).top().term_mark),
            forall|t: usize|
                t < old(self).top().term_mark ==> final(self).value_of(t) == old(self).value_of(t),
            old(self).top().term_mark == old(self).terms ==> final(self).trail@ == old(
                self,
            ).trail@,
            final(self).atoms@ == old(self).atoms@,
            final(self).functors@ == old(self).functors@,
            final(self).modules@ == old(self).modules@,
            final(self).predicates@ == old(self).predicates@,
            final(self).engine == old(self).engine,
            final(self).next_serial == old(self).next_serial,
    {
        proof {
            old(self).lemma_top_not_root(f);
        }
        let bound = self.contexts[self.contexts.len() - 1].term_mark;
        let ghost orig = self.trail@;
        proof {
            assert(orig.take(0) =~= Seq::<Binding>::empty());
            assert(orig.skip(0) =~= orig);
            assert(Seq::<Binding>::empty() + keep_below(orig, bound) =~= keep_below(orig, bound));
        }
        let mut idx: usize = 0;
        while idx < self.trail.len()
            invariant
                idx <= self.trail@.len(),
                keep_below(orig, bound) == self.trail@.take(idx as int) + keep_below(
                    self.trail@.skip(idx as int),
                    bound,
                ),
                forall|j: int| 0 <= j < idx ==> (#[trigger] self.trail@[j]).term < bound,
                self.contexts@ == old(self).contexts@,
                self.terms == old(self).terms,
                self.atoms@ == old(self).atoms@,
                self.functors@ == old(self).functors@,
                self.modules@ == old(self).modules@,
                self.predicates@ == old(self).predicates@,
                self.engine == old(self).engine,
                self.next_serial == old(self).next_serial,
            decreases self.trail@.len() - idx,
        {
            let ghost pre_trail = self.trail@;
            let ghost e = self.trail@[idx as int];
            proof {
                assert(pre_trail.skip(idx as int) =~= seq![e] + pre_trail.skip(idx as int + 1));
                lemma_keep_below_concat(seq![e], pre_trail.skip(idx as int + 1), bound);
                assert(seq![e].drop_last() =~= Seq::<Binding>::empty());
                assert(keep_below(Seq::<Binding>::empty(), bound) == Seq::<Binding>::empty());
                assert(seq![e].last() == e);
            }
            if self.trail[idx].term < bound {
                proof {
                    assert(keep_below(seq![e], bound) =~= seq![e]);
                    assert(pre_trail.take(idx as int) + (seq![e] + keep_below(
                        pre_trail.skip(idx as int + 1),
                        bound,
                    )) =~= pre_trail.take(idx as int + 1) + keep_below(
                        pre_trail.skip(idx as int + 1),
                        bound,
                    ));
                }
                idx = idx + 1;
            } else {
                proof {
                    assert(keep_below(seq![e], bound) =~= Seq::<Binding>::empty());
                }
                let _dropped = self.trail.remove(idx);
                proof {
                    assert(self.trail@ =~= pre_trail.take(idx as int) + pre_trail.skip(
                        idx as int + 1,
                    ));
                    assert(self.trail@.take(idx as int) =~= pre_trail.take(idx as int));
                    assert(self.trail@.skip(idx as int) =~= pre_trail.skip(idx as int + 1));
                    assert(pre_trail.take(idx as int) + (Seq::<Binding>::empty() + keep_below(
                        pre_trail.skip(idx as int + 1),
                        bound,
                    )) =~= self.trail@.take(idx as int) + keep_below(
                        self.trail@.skip(idx as int),
                        bound,
                    ));
                }
            }
        }
        proof {
            assert(self.trail@.take(idx as int) =~= self.trail@);
            assert(self.trail@.skip(idx as int) =~= Seq::<Binding>::empty());
            assert(keep_below(Seq::<Binding>::empty(), bound) =~= Seq::<Binding>::empty());
            assert(self.trail@ + Seq::<Binding>::empty() =~= self.trail@);
            assert(self.trail@ == keep_below(orig, bound));
        }
        self.terms = bound;
        let _ = self.contexts.pop();
        proof {
            let pre = *old(self);
            let n = pre.contexts@.len() as int;
            assert(self.contexts@ =~= pre.contexts@.drop_last());
            lemma_keep_below_bound(orig, bound);
            assert forall|i: int| 0 <= i < self.contexts@.len() implies #[trigger] self.rec_ok(
                i,
            ) by {
                assert(pre.rec_ok(i));
                assert(self.contexts@[i] == pre.contexts@[i]);
                assert(marks_le(pre.contexts@[i], pre.contexts@[n - 1]));
                assert(pre.prefix_ok(i));
                assert forall|j: int|
                    0 <= j < pre.contexts@[i].trail_mark implies (#[trigger] orig[j]).term
                    < bound by {
                    assert(orig[j].term < pre.contexts@[i].term_mark);
                }
                lemma_keep_below_prefix(orig, bound, pre.contexts@[i].trail_mark as int);
                if i > 0 {
                    assert(self.contexts@[i - 1] == pre.contexts@[i - 1]);
                }
            }
            assert forall|i: int| 0 <= i < self.contexts@.len() implies #[trigger] self.prefix_ok(
                i,
            ) by {
                assert(pre.rec_ok(i));
                assert(pre.prefix_ok(i));
                assert(self.contexts@[i] == pre.contexts@[i]);
                assert(marks_le(pre.contexts@[i], pre.contexts@[n - 1]));
                assert forall|j: int|
                    0 <= j < pre.contexts@[i].trail_mark implies (#[trigger] orig[j]).term
                    < bound by {
                    assert(orig[j].term < pre.contexts@[i].term_mark);
                }
                lemma_keep_below_prefix(orig, bound, pre.contexts@[i].trail_mark as int);
                assert forall|j: int|
                    0 <= j < self.contexts@[i].trail_mark implies (#[trigger] self.trail@[j]).term
                    < self.contexts@[i].term_mark by {
                    assert(self.trail@[j] == orig[j]);
                }
            }
            assert forall|i: int, k: int|
                0 <= i <= k < self.contexts@.len() implies #[trigger] marks_le(
                self.contexts@[i],
                self.contexts@[k],
            ) by {
                assert(marks_le(pre.contexts@[i], pre.contexts@[k]));
            }
            assert forall|t: usize| t < pre.top().term_mark implies final(self).value_of(t) == old(
                self,
            ).value_of(t) by {
                lemma_keep_below_lookup(orig, bound, t);
            }
            if pre.top().term_mark == pre.terms {
                lemma_keep_below_all(orig, bound);
            }
        }
    }

    /// The state change every discard-style conclusion performs, shared by
    /// [`Session::discard_frame`], [`Session::discard`] and the drop-time
    /// fallback [`Session::drop_query`]: the active context is popped, the
    /// term references allocated since it opened are freed, and the
    /// bindings made since it opened are unwound, as if the calling goal
    /// had failed at this point.
    pub open spec fn discard_transition(pre: Session, post: Session) -> bool {
        &&& post.contexts@ == pre.contexts@.drop_last()
        &&& post.terms == pre.top().term_mark
        &&& post.trail@ == pre.trail@.take(pre.top().trail_mark as int)
        &&& post.atoms@ == pre.atoms@
        &&& post.functors@ == pre.functors@
        &&& post.modules@ == pre.modules@
        &&& post.predicates@ == pre.predicates@
        &&& post.engine == pre.engine
        &&& post.next_serial == pre.next_serial
    }

    fn pop_unwind(&mut self)
        requires
            old(self).wf(),
            old(self).contexts@.len() >= 2,
        ensures
            final(self).wf(),
            Session::discard_transition(*old(self), *final(self)),
    {
        let rec = self.contexts[self.contexts.len() - 1];
        proof {
            assert(old(self).rec_ok(old(self).contexts@.len() - 1));
        }
        self.trail.truncate(rec.trail_mark);
        self.terms = rec.term_mark;
        let _ = self.contexts.pop();
        proof {
            assert(self.contexts@ =~= old(self).contexts@.drop_last());
            Session::lemma_unwind_wf(*old(self), *self);
        }
    }

    /// Discards the active frame: in addition to freeing the frame's slot
    /// as a close does, the engine unwinds every variable binding made
    /// while the frame was open, as if the calling goal had failed here.
    pub fn discard_frame(&mut self, f: Context)
        requires
            old(self).wf(),
            old(self).is_active(f),
            f.kind == ContextType::Frame,
        ensures
            final(self).wf(),
            Session::discard_transition(*old(self), *final(self)),
    {
        proof {
            old(self).lemma_top_not_root(f);
        }
        self.pop_unwind()
    }

    /// Rewinds the active frame: resets the term-reference allocation
    /// pointer back to the frame's opening point and unwinds the bindings
    /// made since, without closing the frame, so that a retry loop can
    /// reuse reference slots instead of leaking them across iterations.
    pub fn rewind_frame(&mut self, f: &Context)
        requires
            old(self).wf(),
            old(self).is_active(*f),
            f.kind == ContextType::Frame,
        ensures
            final(self).wf(),
            final(self).is_active(*f),
            final(self).contexts@ == old(self).contexts@,
            final(self).terms == old(self).top().term_mark,
            final(self).trail@ == old(self).trail@.take(old(self).top().trail_mark as int),
            final(self).atoms@ == old(self).atoms@,
            final(self).functors@ == old(self).functors@,
            final(self).modules@ == old(self).modules@,
            final(self).predicates@ == old(self).predicates@,
            final(self).engine == old(self).engine,
            final(self).next_serial == old(self).next_serial,
    {
        let rec = self.contexts[self.contexts.len() - 1];
        proof {
            assert(old(self).rec_ok(old(self).contexts@.len() - 1));
        }
        self.trail.truncate(rec.trail_mark);
        self.terms = rec.term_mark;
        proof {
            Session::lemma_unwind_wf(*old(self), *self);
        }
    }

    /// Concludes the active query by cutting: the remaining choice points
    /// are pruned and every binding the query has produced stays intact —
    /// the value of every term reference is exactly what it was before the
    /// cut.
    pub fn cut(&mut self, q: Context)
        requires
            old(self).wf(),
            old(self).is_active(q),
            q.kind == ContextType::Query,
        ensures
            final(self).wf(),
            final(self).contexts@ == old(self).contexts@.drop_last(),
            final(self).terms == old(self).terms,
            final(self).trail@ == old(self).trail@,
            forall|t: usize| final(self).value_of(t) == old(self).value_of(t),
            final(self).atoms@ == old(self).atoms@,
            final(self).functors@ == old(self).functors@,
            final(self).modules@ == old(self).modules@,
            final(self).predicates@ == old(self).predicates@,
            final(self).engine == old(self).engine,
            final(self).next_serial == old(self).next_serial,
    {
        proof {
            old(self).lemma_top_not_root(q);
        }
        let _ = self.contexts.pop();
        proof {
            let pre = *old(self);
            let n = pre.contexts@.len() as int;
            assert(self.contexts@ =~= pre.contexts@.drop_last());
            assert forall|i: int| 0 <= i < self.contexts@.len() implies #[trigger] self.rec_ok(
                i,
            ) by {
                assert(pre.rec_ok(i));
                assert(self.contexts@[i] == pre.contexts@[i]);
                if i > 0 {
                    assert(self.contexts@[i - 1] == pre.contexts@[i - 1]);
                }
            }
            assert forall|i: int| 0 <= i < self.contexts@.len() implies #[trigger] self.prefix_ok(
                i,
            ) by {
                assert(pre.prefix_ok(i));
                assert(self.contexts@[i] == pre.contexts@[i]);
            }
            assert forall|i: int, k: int|
                0 <= i <= k < self.contexts@.len() implies #[trigger] marks_le(
                self.contexts@[i],
                self.contexts@[k],
            ) by {
                assert(marks_le(pre.contexts@[i], pre.contexts@[k]));
            }
        }
    }

    /// Concludes the active query by discarding: every binding made during
    /// the query is unwound, and the query is closed.
    pub fn discard(&mut self, q: Context)
        requires
            old(self).wf(),
            old(self).is_active(q),
            q.kind == ContextType::Query,
        ensures
            final(self).wf(),
            Session::discard_transition(*old(self), *final(self)),
    {
        proof {
            old(self).lemma_top_not_root(q);
        }
        self.pop_unwind()
    }

    /// The drop-time fallback for a query that was never explicitly
    /// concluded: it performs exactly the discard transition, no more and
    /// no less.  A fault the engine raises while closing has no channel
    /// out of a destructor, so a caller that needs fault visibility must
    /// call [`Session::discard`] or [`Session::cut`] explicitly.
    pub fn drop_query(&mut self, q: Context)
        requires
            old(self).wf(),
            old(self).is_active(q),
            q.kind == ContextType::Query,
        ensures
            final(self).wf(),
            Session::discard_transition(*old(self), *final(self)),
    {
        self.discard(q)
    }

    /// Advances the active query to its next solution.  The engine first
    /// backtracks to the query's opening point — un-making the previous
    /// solution's bindings — and then, when the outcome it reported is a
    /// success, establishes the bindings of the new solution, which the
    /// host hands over as `binds`.  On failure or exception no bindings
    /// survive the backtracking.  The query stays open in every case:
    /// concluding it is the caller's duty, by cut or discard.
    pub fn next_solution(&mut self, q: &Context, outcome: QueryResult, binds: Vec<Binding>) -> (r:
        QueryResult)
        requires
            old(self).wf(),
            old(self).is_active(*q),
            q.kind == ContextType::Query,
            forall|j: int| 0 <= j < binds@.len() ==> (#[trigger] binds@[j]).term < old(self).terms,
        ensures
            final(self).wf(),
            r == outcome,
            final(self).is_active(*q),
            final(self).contexts@ == old(self).contexts@,
            final(self).terms == old(self).terms,
            (outcome == QueryResult::Success || outcome == QueryResult::SuccessLast)
                ==> final(self).trail@ == old(self).trail@.take(old(self).top().trail_mark as int)
                + binds@,
            (outcome == QueryResult::Failure || outcome == QueryResult::Exception)
                ==> final(self).trail@ == old(self).trail@.take(old(self).top().trail_mark as int),
            final(self).atoms@ == old(self).atoms@,
            final(self).functors@ == old(self).functors@,
            final(self).modules@ == old(self).modules@,
            final(self).predicates@ == old(self).predicates@,
            final(self).engine == old(self).engine,
            final(self).next_serial == old(self).next_serial,
    {
        let rec = self.contexts[self.contexts.len() - 1];
        proof {
            assert(old(self).rec_ok(old(self).contexts@.len() - 1));
        }
        self.trail.truncate(rec.trail_mark);
        let mut sol = binds;
        match outcome {
            QueryResult::Success | QueryResult::SuccessLast => {
                self.trail.append(&mut sol);
            },
            _ => {},
        }
        proof {
            let pre = *old(self);
            let n = pre.contexts@.len() as int;
            let mark = rec.trail_mark as int;
            assert forall|i: int| 0 <= i < self.contexts@.len() implies #[trigger] self.rec_ok(
                i,
            ) by {
                assert(pre.rec_ok(i));
                assert(marks_le(pre.contexts@[i], pre.contexts@[n - 1]));
                if i > 0 {
                    assert(self.contexts@[i - 1] == pre.contexts@[i - 1]);
                }
            }
            assert forall|i: int| 0 <= i < self.contexts@.len() implies #[trigger] self.prefix_ok(
                i,
            ) by {
                assert(pre.rec_ok(i));
                assert(pre.prefix_ok(i));
                assert(marks_le(pre.contexts@[i], pre.contexts@[n - 1]));
                assert forall|j: int|
                    0 <= j < self.contexts@[i].trail_mark implies (#[trigger] self.trail@[j]).term
                    < self.contexts@[i].term_mark by {
                    assert(self.trail@[j] == pre.trail@[j]);
                }
            }
            assert forall|j: int|
                0 <= j < self.trail@.len() implies (#[trigger] self.trail@[j]).term
                < self.terms by {
                if j < mark {
                    assert(self.trail@[j] == pre.trail@[j]);
                    assert(pre.trail@[j].term < pre.terms);
                } else {
                    assert(self.trail@[j] == binds@[j - mark]);
                }
            }
        }
        outcome
    }

    /// The value term reference `t` currently holds, read back from the
    /// trail: the latest binding for `t`, or `None` if `t` is unbound.
    pub fn term_value(&self, t: usize) -> (r: Option<&TermValue>)
        requires
            self.wf(),
            t < self.terms,
        ensures
            match r {
                Some(v) => self.value_of(t) == Some(*v),
                None => self.value_of(t) is None,
            },
    {
        let ghost whole = self.trail@;
        let mut j = self.trail.len();
        proof {
            assert(whole.take(j as int) =~= whole);
        }
        while j > 0
            invariant
                j <= self.trail@.len(),
                self.trail@ == whole,
                lookup(whole.take(j as int), t) == lookup(whole, t),
            decreases j,
        {
            let ghost prev = j as int;
            j = j - 1;
            if self.trail[j].term == t {
                proof {
                    assert(whole.take(prev).last() == whole[j as int]);
                    assert(whole.take(prev).drop_last() =~= whole.take(j as int));
                }
                return Some(&self.trail[j].value);
            }
            proof {
                assert(whole.take(prev).last() == whole[j as int]);
                assert(whole.take(prev).drop_last() =~= whole.take(j as int));
            }
        }
        proof {
            assert(whole.take(0) =~= Seq::<Binding>::empty());
        }
        None
    }

    /// Changing only the symbol logs leaves the stack invariant untouched.
    proof fn lemma_same_stack_wf(pre: Session, post: Session)
        requires
            pre.wf(),
            post.contexts@ == pre.contexts@,
            post.terms == pre.terms,
            post.trail@ == pre.trail@,
            post.next_serial == pre.next_serial,
        ensures
            post.wf(),
    {
        assert forall|i: int| 0 <= i < post.contexts@.len() implies #[trigger] post.rec_ok(i) by {
            assert(pre.rec_ok(i));
        }
        assert forall|i: int| 0 <= i < post.contexts@.len() implies #[trigger] post.prefix_ok(
            i,
        ) by {
            assert(pre.prefix_ok(i));
        }
        assert forall|i: int, k: int|
            0 <= i <= k < post.contexts@.len() implies #[trigger] marks_le(
            post.contexts@[i],
            post.contexts@[k],
        ) by {
            assert(marks_le(pre.contexts@[i], pre.contexts@[k]));
        }
        assert forall|j: int|
            0 <= j < post.trail@.len() implies (#[trigger] post.trail@[j]).term < post.terms by {
            assert(pre.trail@[j].term < pre.terms);
        }
    }

    /// Interns an atom by name: if an atom with this name was already
    /// allocated, its handle is returned and the log is unchanged;
    /// otherwise a new entry is appended.  Two interning calls with the
    /// same name therefore provably return the same handle, as the
    /// engine's global symbol tables do.  Holding the session is proof
    /// enough of a live activation: no active context is demanded.
    pub fn new_atom(&mut self, name: String) -> (a: usize)
        requires
            old(self).wf(),
        ensures
            final(self).wf(),
            a < final(self).atoms@.len(),
            final(self).atoms@[a as int]@ == name@,
            forall|j: int| 0 <= j < a ==> final(self).atoms@[j]@ != name@,
            (exists|j: int| 0 <= j < old(self).atoms@.len() && old(self).atoms@[j]@ == name@)
                ==> final(self).atoms@ == old(self).atoms@,
            !(exists|j: int| 0 <= j < old(self).atoms@.len() && old(self).atoms@[j]@ == name@)
                ==> final(self).atoms@ == old(self).atoms@.push(name) && a == old(
            self,
            ).atoms@.len(),
            final(self).contexts@ == old(self).contexts@,
            final(self).terms == old(self).terms,
            final(self).trail@ == old(self).trail@,
            final(self).functors@ == old(self).functors@,
            final(self).modules@ == old(self).modules@,
            final(self).predicates@ == old(self).predicates@,
            final(self).engine == old(self).engine,
            final(self).next_serial == old(self).next_serial,
    {
        let n = self.atoms.len();
        let mut i: usize = 0;
        while i < n
            invariant
                i <= n,
                n == self.atoms@.len(),
                *self == *old(self),
                self.wf(),
                forall|j: int| 0 <= j < i ==> self.atoms@[j]@ != name@,
            decreases n - i,
        {
            if self.atoms[i] == name {
                proof {
                    assert(old(self).atoms@[i as int]@ == name@);
                }
                return i;
            }
            i = i + 1;
        }
        self.atoms.push(name);
        proof {
            Session::lemma_same_stack_wf(*old(self), *self);
        }
        n
    }

    /// Creates or looks up the functor for an atom and an arity: equal
    /// inputs return equal handles.  An arity above the engine's fixed
    /// maximum is a programmer-error fault, so it is ruled out here; a
    /// caller without the static proof uses [`Session::try_new_functor`].
    pub fn new_functor(&mut self, name_atom: usize, arity: u16) -> (f: usize)
        requires
            old(self).wf(),
            name_atom < old(self).atoms@.len(),
            arity as usize <= MAX_ARITY,
        ensures
            final(self).wf(),
            f < final(self).functors@.len(),
            final(self).functors@[f as int] == (FunctorRecord { name_atom, arity }),
            forall|j: int|
                0 <= j < f ==> final(self).functors@[j] != (FunctorRecord { name_atom, arity }),
            (exists|j: int|
                0 <= j < old(self).functors@.len() && old(self).functors@[j] == (FunctorRecord {
                    name_atom,
                    arity,
                })) ==> final(self).functors@ == old(self).functors@,
            !(exists|j: int|
                0 <= j < old(self).functors@.len() && old(self).functors@[j] == (FunctorRecord {
                    name_atom,
                    arity,
                })) ==> final(self).functors@ == old(self).functors@.push(
                (FunctorRecord { name_atom, arity }),
            ) && f == old(self).functors@.len(),
            final(self).contexts@ == old(self).contexts@,
            final(self).terms == old(self).terms,
            final(self).trail@ == old(self).trail@,
            final(self).atoms@ == old(self).atoms@,
            final(self).modules@ == old(self).modules@,
            final(self).predicates@ == old(self).predicates@,
            final(self).engine == old(self).engine,
            final(self).next_serial == old(self).next_serial,
    {
        let rec = FunctorRecord { name_atom, arity };
        let n = self.functors.len();
        let mut i: usize = 0;
        while i < n
            invariant
                i <= n,
                n == self.functors@.len(),
                *self == *old(self),
                self.wf(),
                rec == (FunctorRecord { name_atom, arity }),
                forall|j: int| 0 <= j < i ==> self.functors@[j] != rec,
            decreases n - i,
        {
            if self.functors[i] == rec {
                return i;
            }
            i = i + 1;
        }
        self.functors.push(rec);
        proof {
            Session::lemma_same_stack_wf(*old(self), *self);
        }
        n
    }

    /// Checked variant of [`Session::new_functor`]: requesting an arity
    /// above the fixed maximum, or a name that was never allocated, is
    /// reported as `None` so that a host without the static proof can
    /// abort.
    pub fn try_new_functor(&mut self, name_atom: usize, arity: u16) -> (r: Option<usize>)
        requires
            old(self).wf(),
        ensures
            final(self).wf(),
            r is Some <==> name_atom < old(self).atoms@.len() && arity as usize <= MAX_ARITY,
            r matches Some(f) ==> f < final(self).functors@.len() && final(self).functors@[
                f as int] == (FunctorRecord { name_atom, arity }) && (forall|j: int|
                0 <= j < f ==> final(self).functors@[j] != (FunctorRecord { name_atom, arity })),
            r is Some ==> final(self).contexts@ == old(self).contexts@ && final(self).terms == old(
            self,
            ).terms && final(self).trail@ == old(self).trail@ && final(self).atoms@ == old(
            self,
            ).atoms@ && final(self).modules@ == old(self).modules@ && final(self).predicates@
                == old(self).predicates@ && final(self).next_serial == old(self).next_serial,
            r is None ==> *final(self) == *old(self),
    {
        if name_atom < self.atoms.len() && (arity as usize) <= MAX_ARITY {
            Some(self.new_functor(name_atom, arity))
        } else {
            None
        }
    }

    /// Creates or looks up the module named by an atom: equal names return
    /// equal handles.
    pub fn new_module(&mut self, name_atom: usize) -> (m: usize)
        requires
            old(self).wf(),
            name_atom < old(self).atoms@.len(),
        ensures
            final(self).wf(),
            m < final(self).modules@.len(),
            final(self).modules@[m as int] == (ModuleRecord { name_atom }),
            forall|j: int| 0 <= j < m ==> final(self).modules@[j] != (ModuleRecord { name_atom }),
            (exists|j: int|
                0 <= j < old(self).modules@.len() && old(self).modules@[j] == (ModuleRecord {
                    name_atom,
                })) ==> final(self).modules@ == old(self).modules@,
            !(exists|j: int|
                0 <= j < old(self).modules@.len() && old(self).modules@[j] == (ModuleRecord {
                    name_atom,
                })) ==> final(self).modules@ == old(self).modules@.push(
                (ModuleRecord { name_atom }),
            ) && m == old(self).modules@.len(),
            final(self).contexts@ == old(self).contexts@,
            final(self).terms == old(self).terms,
            final(self).trail@ == old(self).trail@,
            final(self).atoms@ == old(self).atoms@,
            final(self).functors@ == old(self).functors@,
            final(self).predicates@ == old(self).predicates@,
            final(self).engine == old(self).engine,
            final(self).next_serial == old(self).next_serial,
    {
        let rec = ModuleRecord { name_atom };
        let n = self.modules.len();
        let mut i: usize = 0;
        while i < n
            invariant
                i <= n,
                n == self.modules@.len(),
                *self == *old(self),
                self.wf(),
                rec == (ModuleRecord { name_atom }),
                forall|j: int| 0 <= j < i ==> self.modules@[j] != rec,
            decreases n - i,
        {
            if self.modules[i] == rec {
                return i;
            }
            i = i + 1;
        }
        self.modules.push(rec);
        proof {
            Session::lemma_same_stack_wf(*old(self), *self);
        }
        n
    }

    /// Creates or looks up the predicate for a functor and a module: equal
    /// inputs return equal handles.
    pub fn new_predicate(&mut self, functor: usize, module: usize) -> (p: usize)
        requires
            old(self).wf(),
            functor < old(self).functors@.len(),
            module < old(self).modules@.len(),
        ensures
            final(self).wf(),
            p < final(self).predicates@.len(),
            final(self).predicates@[p as int] == (PredicateRecord { functor, module }),
            forall|j: int|
                0 <= j < p ==> final(self).predicates@[j] != (PredicateRecord { functor, module }),
            (exists|j: int|
                0 <= j < old(self).predicates@.len() && old(self).predicates@[j]
                    == (PredicateRecord { functor, module })) ==> final(self).predicates@ == old(
            self,
            ).predicates@,
            !(exists|j: int|
                0 <= j < old(self).predicates@.len() && old(self).predicates@[j]
                    == (PredicateRecord { functor, module })) ==> final(self).predicates@ == old(
            self,
            ).predicates@.push((PredicateRecord { functor, module })) && p == old(
            self,
            ).predicates@.len(),
            final(self).contexts@ == old(self).contexts@,
            final(self).terms == old(self).terms,
            final(self).trail@ == old(self).trail@,
            final(self).atoms@ == old(self).atoms@,
            final(self).functors@ == old(self).functors@,
            final(self).modules@ == old(self).modules@,
            final(self).engine == old(self).engine,
            final(self).next_serial == old(self).next_serial,
    {
        let rec = PredicateRecord { functor, module };
        let n = self.predicates.len();
        let mut i: usize = 0;
        while i < n
            invariant
                i <= n,
                n == self.predicates@.len(),
                *self == *old(self),
                self.wf(),
                rec == (PredicateRecord { functor, module }),
                forall|j: int| 0 <= j < i ==> self.predicates@[j] != rec,
            decreases n - i,
        {
            if self.predicates[i] == rec {
                return i;
            }
            i = i + 1;
        }
        self.predicates.push(rec);
        proof {
            Session::lemma_same_stack_wf(*old(self), *self);
        }
        n
    }

    /// Opens a query on the given predicate from the active context, which
    /// must be of a queryable kind.  One fresh term reference is allocated
    /// per argument and unified with the corresponding caller-supplied
    /// reference — the fresh references are unbound, so this unification
    /// only binds them as aliases and can never fail — and the query
    /// becomes the one active context, deactivating the caller's, with its
    /// unwind marks taken after the argument block so that concluding the
    /// query leaves the block itself allocated.
    pub fn open_query(
        &mut self,
        c: &Context,
        module: Option<usize>,
        predicate: usize,
        args: &Vec<usize>,
    ) -> (q: Context)
        requires
            old(self).wf(),
            old(self).is_active(*c),
            queryable(c.kind),
            predicate < old(self).predicates@.len(),
            (module matches Some(mi) ==> mi < old(self).modules@.len()),
            forall|i: int| 0 <= i < args@.len() ==> #[trigger] args@[i] < old(self).terms,
            old(self).terms + args@.len() <= usize::MAX,
            old(self).next_serial < u64::MAX,
        ensures
            final(self).wf(),
            final(self).is_active(q),
            q.kind == ContextType::Query,
            q.depth == old(self).contexts@.len(),
            !final(self).is_active(*c),
            final(self).valid_handle(*c),
            final(self).contexts@ == old(self).contexts@.push(final(self).top()),
            final(self).top().kind == ContextType::Query,
            final(self).top().target == Some((QueryTarget { module, predicate })),
            final(self).top().term_mark == final(self).terms,
            final(self).top().trail_mark == final(self).trail@.len(),
            final(self).terms == old(self).terms + args@.len(),
            final(self).trail@.len() == old(self).trail@.len() + args@.len(),
            final(self).trail@ == old(self).trail@ + Seq::new(
                args@.len(),
                |i: int| (Binding { term: (old(self).terms + i) as usize, value: TermValue::Ref(args@[i]) }),
            ),
            forall|t: usize| t < old(self).terms ==> final(self).value_of(t) == old(self).value_of(t),
            final(self).atoms@ == old(self).atoms@,
            final(self).functors@ == old(self).functors@,
            final(self).modules@ == old(self).modules@,
            final(self).predicates@ == old(self).predicates@,
            final(self).engine == old(self).engine,
            final(self).next_serial == old(self).next_serial + 1,
    {
        let ghost aliases = Seq::new(
            args@.len(),
            |i: int| (Binding { term: (old(self).terms + i) as usize, value: TermValue::Ref(args@[i]) }),
        );
        let n = args.len();
        let base = self.terms;
        self.terms = self.terms + n;
        let mut i: usize = 0;
        proof {
            assert(self.trail@ =~= old(self).trail@ + aliases.take(0));
        }
        while i < n
            invariant
                i <= n,
                n == args@.len(),
                base == old(self).terms,
                aliases == Seq::new(
                    args@.len(),
                    |k: int| (Binding { term: (base + k) as usize, value: TermValue::Ref(args@[k]) }),
                ),
                base + n <= usize::MAX,
                self.terms == base + n,
                self.trail@ == old(self).trail@ + aliases.take(i as int),
                self.contexts@ == old(self).contexts@,
                self.atoms@ == old(self).atoms@,
                self.functors@ == old(self).functors@,
                self.modules@ == old(self).modules@,
                self.predicates@ == old(self).predicates@,
                self.engine == old(self).engine,
                self.next_serial == old(self).next_serial,
            decreases n - i,
        {
            let ghost pre_trail = self.trail@;
            self.trail.push(Binding { term: base + i, value: TermValue::Ref(args[i]) });
            proof {
                assert(aliases.take(i as int + 1) =~= aliases.take(i as int).push(
                    aliases[i as int],
                ));
                assert(self.trail@ =~= old(self).trail@ + aliases.take(i as int + 1));
            }
            i = i + 1;
        }
        proof {
            assert(aliases.take(n as int) =~= aliases);
        }
        let rec = ContextRecord {
            kind: ContextType::Query,
            term_mark: self.terms,
            trail_mark: self.trail.len(),
            serial: self.next_serial,
            target: Some(QueryTarget { module, predicate }),
        };
        let q = Context {
            depth: self.contexts.len(),
            serial: self.next_serial,
            kind: ContextType::Query,
        };
        self.contexts.push(rec);
        self.next_serial = self.next_serial + 1;
        proof {
            let pre = *old(self);
            let m = pre.contexts@.len() as int;
            assert forall|i2: int| 0 <= i2 < self.contexts@.len() implies #[trigger] self.rec_ok(
                i2,
            ) by {
                if i2 < m {
                    assert(pre.rec_ok(i2));
                    assert(self.contexts@[i2] == pre.contexts@[i2]);
                    if i2 > 0 {
                        assert(self.contexts@[i2 - 1] == pre.contexts@[i2 - 1]);
                    }
                } else {
                    assert(self.contexts@[i2 - 1] == pre.contexts@[m - 1]);
                    assert(pre.is_active(*c));
                    assert(pre.contexts@[m - 1].kind == c.kind);
                }
            }
            assert forall|i2: int| 0 <= i2 < self.contexts@.len() implies #[trigger] self.prefix_ok(
                i2,
            ) by {
                if i2 < m {
                    assert(pre.rec_ok(i2));
                    assert(pre.prefix_ok(i2));
                    assert(self.contexts@[i2] == pre.contexts@[i2]);
                    assert forall|j: int|
                        0 <= j < self.contexts@[i2].trail_mark implies (#[trigger] self.trail@[
                    j]).term < self.contexts@[i2].term_mark by {
                        assert(self.trail@[j] == pre.trail@[j]);
                    }
                } else {
                    assert forall|j: int|
                        0 <= j < self.contexts@[i2].trail_mark implies (#[trigger] self.trail@[
                    j]).term < self.contexts@[i2].term_mark by {
                        if j < pre.trail@.len() {
                            assert(self.trail@[j] == pre.trail@[j]);
                            assert(pre.trail@[j].term < pre.terms);
                        } else {
                            assert(self.trail@[j] == aliases[j - pre.trail@.len()]);
                        }
                    }
                }
            }
            assert forall|i2: int, k: int|
                0 <= i2 <= k < self.contexts@.len() implies #[trigger] marks_le(
                self.contexts@[i2],
                self.contexts@[k],
            ) by {
                if k < m {
                    assert(marks_le(pre.contexts@[i2], pre.contexts@[k]));
                } else if i2 < m {
                    assert(pre.rec_ok(i2));
                }
            }
            assert forall|j: int|
                0 <= j < self.trail@.len() implies (#[trigger] self.trail@[j]).term
                < self.terms by {
                if j < pre.trail@.len() {
                    assert(self.trail@[j] == pre.trail@[j]);
                    assert(pre.trail@[j].term < pre.terms);
                } else {
                    assert(self.trail@[j] == aliases[j - pre.trail@.len()]);
                }
            }
            assert forall|t: usize| t < pre.terms implies final(self).value_of(t) == old(
                self,
            ).value_of(t) by {
                assert forall|j: int| 0 <= j < aliases.len() implies (#[trigger] aliases[j]).term
                    != t by {}
                lemma_lookup_concat_absent(pre.trail@, aliases, t);
            }
        }
        q
    }

    /// Checked variant of [`Session::open_query`]: opening a query from an
    /// inactive context or from a context whose kind is not queryable is a
    /// programmer error, and a stale predicate, module or argument
    /// reference would break handle locality; each is reported as `None`
    /// so that a host without the static proof can abort.
    pub fn try_open_query(
        &mut self,
        c: &Context,
        module: Option<usize>,
        predicate: usize,
        args: &Vec<usize>,
    ) -> (r: Option<Context>)
        requires
            old(self).wf(),
            old(self).terms + args@.len() <= usize::MAX,
            old(self).next_serial < u64::MAX,
        ensures
            final(self).wf(),
            r is Some <==> old(self).is_active(*c) && queryable(c.kind)
                && predicate < old(self).predicates@.len()
                && (module matches Some(mi) ==> mi < old(self).modules@.len())
                && (forall|i: int| 0 <= i < args@.len() ==> #[trigger] args@[i] < old(self).terms),
            r matches Some(q) ==> final(self).is_active(q) && q.kind == ContextType::Query
                && final(self).contexts@ == old(self).contexts@.push(final(self).top())
                && final(self).top().target == Some((QueryTarget { module, predicate }))
                && final(self).terms == old(self).terms + args@.len() && final(self).next_serial
                == old(self).next_serial + 1,
            r is None ==> *final(self) == *old(self),
    {
        let module_ok = match module {
            Some(mi) => mi < self.modules.len(),
            None => true,
        };
        let mut args_ok = true;
        let mut i: usize = 0;
        while i < args.len()
            invariant
                i <= args@.len(),
                args_ok == (forall|k: int| 0 <= k < i ==> #[trigger] args@[k] < self.terms),
            decreases args@.len() - i,
        {
            if args[i] >= self.terms {
                args_ok = false;
            }
            i = i + 1;
        }
        if self.check_active(c) && kind_is_queryable(c.kind) && predicate < self.predicates.len()
            && module_ok && args_ok {
            Some(self.open_query(c, module, predicate, args))
        } else {
            None
        }
    }

    /// Parses a textual term by running the engine's fixed three-argument
    /// parsing predicate on the text, a fresh output reference, and an
    /// empty options value.  The host performs the single solution step
    /// and hands its outcome over: the bound output reference is returned
    /// only if the goal succeeded deterministically, and the query is
    /// concluded with a cut whatever the outcome — so a successful parse
    /// keeps the output reference bound to the term the engine produced.
    ///
    /// Three fresh references are made before the argument block: the
    /// output reference (the first, the one returned), then the text
    /// argument and the options argument, which stay bound to the text
    /// and to the empty-list atom after the call, as the contract states.
    pub fn term_from_string(
        &mut self,
        c: &Context,
        text: String,
        outcome: QueryResult,
        parsed: TermValue,
    ) -> (r: Option<usize>)
        requires
            old(self).wf(),
            old(self).is_active(*c),
            queryable(c.kind),
            old(self).terms + 6 <= usize::MAX,
            old(self).next_serial < u64::MAX,
        ensures
            final(self).wf(),
            final(self).is_active(*c),
            r == (if outcome == QueryResult::SuccessLast {
                Some(old(self).terms)
            } else {
                None::<usize>
            }),
            (outcome == QueryResult::Success || outcome == QueryResult::SuccessLast) ==> final(self).value_of(old(self).terms) == Some(parsed),
            (outcome == QueryResult::Failure || outcome == QueryResult::Exception) ==> final(self).value_of(old(self).terms) is None,
            exists|p: int| is_parse_predicate(*final(self), p),
            final(self).value_of(((old(self).terms + 1) as usize)) == Some(
                TermValue::Text(text),
            ),
            (final(self).value_of(((old(self).terms + 2) as usize)) matches Some(v)
                && v matches TermValue::Atom(nil) && nil < final(self).atoms@.len()
                && final(self).atoms@[nil as int]@ == "[]"@),
            final(self).contexts@ == old(self).contexts@,
            final(self).terms == old(self).terms + 6,
            symbols_extend(*old(self), *final(self)),
            final(self).engine == old(self).engine,
            final(self).next_serial == old(self).next_serial + 1,
    {
        let term = self.new_term_ref(c);
        let atom_read = self.new_atom(String::from_str("read_term_from_atom"));
        let functor_read = self.new_functor(atom_read, 3);
        let atom_user = self.new_atom(String::from_str("user"));
        let module = self.new_module(atom_user);
        let predicate = self.new_predicate(functor_read, module);
        let arg1 = self.new_term_ref(c);
        let arg3 = self.new_term_ref(c);
        self.bind_term(c, arg1, TermValue::Text(text));
        let atom_nil = self.new_atom(String::from_str("[]"));
        self.bind_term(c, arg3, TermValue::Atom(atom_nil));
        let mut args: Vec<usize> = Vec::new();
        args.push(arg1);
        args.push(term);
        args.push(arg3);
        let ghost mid = *self;
        let q = self.open_query(c, None, predicate, &args);
        let sol = match outcome {
            QueryResult::Success | QueryResult::SuccessLast => {
                let mut sol: Vec<Binding> = Vec::new();
                sol.push(Binding { term, value: parsed });
                sol
            },
            _ => Vec::new(),
        };
        let ghost sol_view = sol@;
        let ghost opened = *self;
        let outcome2 = self.next_solution(&q, outcome, sol);
        proof {
            let mark = opened.top().trail_mark as int;
            assert(opened.trail@.take(mark) =~= opened.trail@);
            match outcome {
                QueryResult::Success | QueryResult::SuccessLast => {
                    assert(self.trail@ =~= opened.trail@.push(
                        (Binding { term, value: parsed }),
                    ));
                    lemma_lookup_push(opened.trail@, (Binding { term, value: parsed }), term);
                    lemma_lookup_push(opened.trail@, (Binding { term, value: parsed }), arg1);
                    lemma_lookup_push(opened.trail@, (Binding { term, value: parsed }), arg3);
                },
                _ => {
                    assert(self.trail@ =~= opened.trail@);
                    assert forall|j: int|
                        0 <= j < opened.trail@.len() implies (#[trigger] opened.trail@[j]).term
                        != term by {
                        if j < mid.trail@.len() {
                            assert(opened.trail@[j] == mid.trail@[j]);
                            if j < old(self).trail@.len() {
                                assert(mid.trail@[j] == old(self).trail@[j]);
                                assert(old(self).trail@[j].term < old(self).terms);
                            } else {
                                assert(mid.trail@[j].term == arg1 || mid.trail@[j].term == arg3);
                            }
                        } else {
                            assert(opened.trail@[j].term >= mid.terms);
                        }
                    }
                    lemma_lookup_absent(opened.trail@, term);
                },
            }
            assert(mid.value_of(arg1) == Some(TermValue::Text(text)));
            assert(opened.value_of(arg1) == Some(TermValue::Text(text)));
            assert(self.value_of(arg1) == Some(TermValue::Text(text)));
            assert(self.value_of(arg3) == Some(TermValue::Atom(atom_nil)));
        }
        self.cut(q);
        proof {
            assert(final(self).contexts@ =~= old(self).contexts@);
            assert(is_parse_predicate(*final(self), predicate as int));
        }
        if outcome2 == QueryResult::SuccessLast {
            Some(term)
        } else {
            None
        }
    }

    /// Wraps an already-constructed goal term in the engine's
    /// single-argument call predicate and opens it as a query, exposing
    /// the goal's full backtracking rather than collapsing it to its first
    /// solution.
    pub fn open_call(&mut self, c: &Context, t: usize) -> (q: Context)
        requires
            old(self).wf(),
            old(self).is_active(*c),
            queryable(c.kind),
            t < old(self).terms,
            old(self).terms + 1 <= usize::MAX,
            old(self).next_serial < u64::MAX,
        ensures
            final(self).wf(),
            final(self).is_active(q),
            q.kind == ContextType::Query,
            !final(self).is_active(*c),
            final(self).valid_handle(*c),
            final(self).contexts@ == old(self).contexts@.push(final(self).top()),
            final(self).top().kind == ContextType::Query,
            (final(self).top().target matches Some(tgt) && tgt.module is None
                && is_call_predicate(*final(self), tgt.predicate as int)),
            final(self).terms == old(self).terms + 1,
            final(self).value_of(old(self).terms) == Some(TermValue::Ref(t)),
            forall|u: usize| u < old(self).terms ==> final(self).value_of(u) == old(self).value_of(u),
            symbols_extend(*old(self), *final(self)),
            final(self).trail@ == old(self).trail@.push(
                (Binding { term: old(self).terms, value: TermValue::Ref(t) }),
            ),
            final(self).engine == old(self).engine,
            final(self).next_serial == old(self).next_serial + 1,
    {
        let atom_call = self.new_atom(String::from_str("call"));
        let functor_call = self.new_functor(atom_call, 1);
        let atom_user = self.new_atom(String::from_str("user"));
        let module = self.new_module(atom_user);
        let predicate = self.new_predicate(functor_call, module);
        let ghost mid = *self;
        let mut args: Vec<usize> = Vec::new();
        args.push(t);
        let q = self.open_query(c, None, predicate, &args);
        proof {
            let b = Binding { term: old(self).terms, value: TermValue::Ref(t) };
            assert(args@ =~= seq![t]);
            assert(self.trail@ =~= mid.trail@.push(b));
            lemma_lookup_push(mid.trail@, b, old(self).terms);
            assert(is_call_predicate(*self, predicate as int));
        }
        q
    }
}

/// Runtime check of [`queryable`]: whether a context of this kind may open
/// queries.
pub fn kind_is_queryable(k: ContextType) -> (b: bool)
    ensures
        b == queryable(k),
{
    k == ContextType::ActivatedEngine || k == ContextType::Frame
}

/// Opens a session around the engine currently active on the calling
/// thread, without any parent context: the escape hatch for code reached
/// via engine-initiated callbacks, where no context value exists yet.
///
/// The caller must guarantee on their own authority that an engine really
/// is active on this thread and that no other context claims ownership of
/// its reactivation; nothing here can check either.  A null engine
/// identifier means no engine is active at all, the one misuse that is
/// detectable, so it is excluded outright.  The root this makes is not
/// queryable: open a frame from it first.
pub fn unmanaged_engine_context(engine: u64) -> (r: (Session, Context))
    requires
        engine != 0,
    ensures
        r.0.wf(),
        r.0.engine == engine,
        r.0.contexts@.len() == 1,
        r.0.top().kind == ContextType::UnmanagedContext,
        r.0.terms == 0,
        r.0.trail@.len() == 0,
        r.0.atoms@.len() == 0,
        r.0.functors@.len() == 0,
        r.0.modules@.len() == 0,
        r.0.predicates@.len() == 0,
        r.0.next_serial == 1,
        r.0.is_active(r.1),
        r.1.kind == ContextType::UnmanagedContext,
{
    Session::unmanaged(engine)
}

/// Among all the contexts derived from one engine, exactly one is active at
/// any instant: any two active handles name the same context — the top of
/// the stack — and agree in every field once neither is a type-erased
/// alias.
pub proof fn lemma_one_active(s: Session, c1: Context, c2: Context)
    requires
        s.wf(),
        s.is_active(c1),
        s.is_active(c2),
    ensures
        c1.depth == c2.depth,
        c1.serial == c2.serial,
        c1.kind != ContextType::Unknown && c2.kind != ContextType::Unknown ==> c1 == c2,
{
}

/// Discarding erases what the concluded context did: a term reference that
/// was bound only while the discarded context was open — every binding it
/// has lies at or after the context's trail mark — reports no value after
/// the discard transition, however it was bound before the conclusion.
pub proof fn lemma_discard_erases_new_bindings(pre: Session, post: Session, t: usize)
    requires
        pre.wf(),
        Session::discard_transition(pre, post),
        forall|j: int| 0 <= j < pre.top().trail_mark ==> (#[trigger] pre.trail@[j]).term != t,
    ensures
        post.value_of(t) is None,
{
    assert(pre.rec_ok(pre.contexts@.len() - 1));
    lemma_unwind_erases(pre.trail@, pre.top().trail_mark as int, t);
}

/// Unwinding erases the inner bindings: after a discard transition, every
/// term reference that was allocated while the discarded context was open
/// reports no value — and is, indeed, no longer allocated at all.
pub proof fn lemma_discard_unbinds_inner(pre: Session, post: Session, t: usize)
    requires
        pre.wf(),
        Session::discard_transition(pre, post),
        t >= pre.top().term_mark,
    ensures
        post.value_of(t) is None,
        t >= post.terms,
{
    let n = pre.contexts@.len() as int;
    assert(pre.rec_ok(n - 1));
    assert(pre.prefix_ok(n - 1));
    lemma_unwind_erases(pre.trail@, pre.top().trail_mark as int, t);
}

} // verus!
