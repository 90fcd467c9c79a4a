//! Term-reference bindings and the binding trail.
//!
//! A term reference is an index into the engine's foreign stack of term
//! slots; the session models the slots that are currently allocated by a
//! plain counter, and the bindings made to them by a chronological trail.
//! The value a reference currently holds is the value of the latest trail
//! entry for it; unwinding a frame or query truncates the trail back to the
//! mark taken when that context was opened.

use vstd::prelude::*;

verus! {

/// The datum a term reference is bound to, as the session models it.
///
/// Term structure beyond this (unification, standard order, text
/// representation) belongs to the engine; the session only stores what the
/// host reported so that it can be unwound or kept faithfully.
#[derive(Debug, PartialEq, Eq)]
pub enum TermValue {
    /// An integer datum.
    Integer(i64),
    /// An interned atom, by its index in the session's atom log.
    Atom(usize),
    /// A textual datum handed over from the host.
    Text(String),
    /// A compound term: a functor (by its index in the session's functor
    /// log) applied to argument values.
    Compound(usize, Vec<TermValue>),
    /// An alias of another term reference, as produced when a fresh query
    /// argument slot is unified with a caller-supplied reference.
    Ref(usize),
}

/// One entry of the binding trail: term reference `term` was bound to
/// `value`.
#[derive(Debug, PartialEq, Eq)]
pub struct Binding {
    pub term: usize,
    pub value: TermValue,
}

/// The value the trail `tr` currently gives to term reference `t`: the value
/// of the latest entry for `t`, or `None` if `t` is unbound.
pub open spec fn lookup(tr: Seq<Binding>, t: usize) -> Option<TermValue>
    decreases tr.len(),
{
    if tr.len() == 0 {
        None
    } else if tr.last().term == t {
        Some(tr.last().value)
    } else {
        lookup(tr.drop_last(), t)
    }
}

/// A trail that never mentions `t` gives `t` no value.
pub proof fn lemma_lookup_absent(tr: Seq<Binding>, t: usize)
    requires
        forall|j: int| 0 <= j < tr.len() ==> (#[trigger] tr[j]).term != t,
    ensures
        lookup(tr, t) is None,
    decreases tr.len(),
{
    if tr.len() > 0 {
        assert(tr.last().term != t);
        lemma_lookup_absent(tr.drop_last(), t);
    }
}

/// Unwinding to `mark` erases every binding made at or after `mark`: a term
/// reference whose bindings were all made after the mark was taken reports
/// no value once the trail is truncated back to the mark.
pub proof fn lemma_unwind_erases(tr: Seq<Binding>, mark: int, t: usize)
    requires
        0 <= mark <= tr.len(),
        forall|j: int| 0 <= j < mark ==> (#[trigger] tr[j]).term != t,
    ensures
        lookup(tr.take(mark), t) is None,
{
    lemma_lookup_absent(tr.take(mark), t);
}

/// Appending one binding shadows the bound reference and leaves every other
/// reference's value unchanged.
pub proof fn lemma_lookup_push(tr: Seq<Binding>, b: Binding, t: usize)
    ensures
        b.term == t ==> lookup(tr.push(b), t) == Some(b.value),
        b.term != t ==> lookup(tr.push(b), t) == lookup(tr, t),
{
    assert(tr.push(b).last() == b);
    assert(tr.push(b).drop_last() =~= tr);
}

/// Appending entries that never mention `t` leaves `t`'s value unchanged.
pub proof fn lemma_lookup_concat_absent(a: Seq<Binding>, b: Seq<Binding>, t: usize)
    requires
        forall|j: int| 0 <= j < b.len() ==> (#[trigger] b[j]).term != t,
    ensures
        lookup(a + b, t) == lookup(a, t),
    decreases b.len(),
{
    if b.len() == 0 {
        assert(a + b =~= a);
    } else {
        assert(a + b =~= (a + b.drop_last()).push(b.last()));
        lemma_lookup_push(a + b.drop_last(), b.last(), t);
        lemma_lookup_concat_absent(a, b.drop_last(), t);
    }
}

/// The trail entries that survive freeing every term reference at or above
/// `bound`: closing a frame commits the bindings made to surviving
/// references and drops those made to the references it frees.
pub open spec fn keep_below(tr: Seq<Binding>, bound: usize) -> Seq<Binding>
    decreases tr.len(),
{
    if tr.len() == 0 {
        Seq::empty()
    } else if tr.last().term < bound {
        keep_below(tr.drop_last(), bound).push(tr.last())
    } else {
        keep_below(tr.drop_last(), bound)
    }
}

/// A trail that only mentions references below `bound` is kept whole.
pub proof fn lemma_keep_below_all(tr: Seq<Binding>, bound: usize)
    requires
        forall|j: int| 0 <= j < tr.len() ==> (#[trigger] tr[j]).term < bound,
    ensures
        keep_below(tr, bound) == tr,
    decreases tr.len(),
{
    if tr.len() == 0 {
        assert(keep_below(tr, bound) =~= tr);
    } else {
        lemma_keep_below_all(tr.drop_last(), bound);
        assert(tr.last().term < bound);
        assert(keep_below(tr, bound) =~= tr);
    }
}

/// Every surviving entry mentions a reference below `bound`.
pub proof fn lemma_keep_below_bound(tr: Seq<Binding>, bound: usize)
    ensures
        forall|j: int|
            0 <= j < keep_below(tr, bound).len() ==> (#[trigger] keep_below(tr, bound)[j]).term
                < bound,
    decreases tr.len(),
{
    if tr.len() > 0 {
        lemma_keep_below_bound(tr.drop_last(), bound);
    }
}

/// Committing preserves the value of every reference that survives: a
/// reference below `bound` reads the same value from the committed trail as
/// from the full one.
pub proof fn lemma_keep_below_lookup(tr: Seq<Binding>, bound: usize, t: usize)
    requires
        t < bound,
    ensures
        lookup(keep_below(tr, bound), t) == lookup(tr, t),
    decreases tr.len(),
{
    if tr.len() > 0 {
        if tr.last().term < bound {
            lemma_lookup_push(keep_below(tr.drop_last(), bound), tr.last(), t);
        }
        lemma_keep_below_lookup(tr.drop_last(), bound, t);
    }
}

/// Committing distributes over concatenation of trails.
pub proof fn lemma_keep_below_concat(a: Seq<Binding>, b: Seq<Binding>, bound: usize)
    ensures
        keep_below(a + b, bound) == keep_below(a, bound) + keep_below(b, bound),
    decreases b.len(),
{
    if b.len() == 0 {
        assert(a + b =~= a);
        assert(keep_below(b, bound) =~= Seq::<Binding>::empty());
        assert(keep_below(a, bound) + keep_below(b, bound) =~= keep_below(a, bound));
    } else {
        assert((a + b).drop_last() =~= a + b.drop_last());
        assert((a + b).last() == b.last());
        lemma_keep_below_concat(a, b.drop_last(), bound);
        if b.last().term < bound {
            assert(keep_below(a, bound) + keep_below(b.drop_last(), bound).push(b.last()) =~= (
            keep_below(a, bound) + keep_below(b.drop_last(), bound)).push(b.last()));
        }
    }
}

/// Entries below a mark whose references all lie below `bound` are kept, in
/// place: the committed trail starts with exactly those entries.
pub proof fn lemma_keep_below_prefix(tr: Seq<Binding>, bound: usize, m: int)
    requires
        0 <= m <= tr.len(),
        forall|j: int| 0 <= j < m ==> (#[trigger] tr[j]).term < bound,
    ensures
        keep_below(tr, bound).len() >= m,
        forall|j: int| 0 <= j < m ==> #[trigger] keep_below(tr, bound)[j] == tr[j],
{
    assert(tr =~= tr.take(m) + tr.skip(m));
    lemma_keep_below_concat(tr.take(m), tr.skip(m), bound);
    lemma_keep_below_all(tr.take(m), bound);
    assert forall|j: int| 0 <= j < m implies #[trigger] keep_below(tr, bound)[j] == tr[j] by {
        assert(keep_below(tr, bound)[j] == tr.take(m)[j]);
    }
}

} // verus!
