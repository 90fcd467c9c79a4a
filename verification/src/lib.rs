//! A verified safety layer for a single-threaded, stack-disciplined logic
//! engine reached through a narrow C-style entry-point API.
//!
//! The engine hands out opaque handles (term references, frame identifiers,
//! query identifiers) whose validity depends on strict nesting and on exactly
//! one context being active at a time.  This crate models that protocol as an
//! explicit stack of open contexts kept in a [`context::Session`] value: each
//! open operation pushes a context, each close/discard pops it, and the
//! verifier proves that exactly one context (the top of the stack) is active
//! at any instant, that contexts are released in the reverse of the order
//! they were opened, and that term-reference bindings are committed or
//! unwound exactly as the frame and query lifecycles demand.
//!
//! The engine itself (unification, search, symbol interning) is a
//! collaborator that the host reaches over an unsafe foreign interface; its
//! answers enter the session as plain values (outcome codes and the bindings
//! a solution produced), and every verified function states exactly how the
//! modelled engine state changes for each possible answer.

pub mod context;
pub mod term;
