//! Activation protocol and frame lifecycle, driven as a host would drive
//! them.

use swipl::context::{ContextType, Session};
use swipl::term::TermValue;

#[test]
fn get_term_ref_on_fresh_engine() {
    let (mut session, context) = Session::new(1);
    let _term = session.new_term_ref(&context);
}

#[test]
fn get_term_ref_on_frame() {
    let (mut session, context1) = Session::new(1);
    let _term1 = session.new_term_ref(&context1);

    let context2 = session.open_frame(&context1);
    let _term2 = session.new_term_ref(&context2);
    session.close_frame(context2);
    let _term3 = session.new_term_ref(&context1);
}

#[test]
#[should_panic]
fn get_term_ref_from_inactive_context_panics() {
    let (mut session, context1) = Session::new(1);
    let _context2 = session.open_frame(&context1);

    let term = session.try_new_term_ref(&context1);
    term.unwrap();
}

#[test]
fn exactly_one_context_is_active() {
    let (mut session, root) = Session::new(7);
    assert!(session.check_active(&root));

    let frame = session.open_frame(&root);
    assert!(!session.check_active(&root));
    assert!(session.check_active(&frame));

    let inner = session.open_frame(&frame);
    assert!(!session.check_active(&root));
    assert!(!session.check_active(&frame));
    assert!(session.check_active(&inner));

    session.close_frame(inner);
    assert!(session.check_active(&frame));
    session.close_frame(frame);
    assert!(session.check_active(&root));
}

#[test]
fn stale_handle_never_revalidates() {
    let (mut session, root) = Session::new(1);
    let frame = session.open_frame(&root);
    session.close_frame(frame);
    // a new frame reuses the stale handle's depth, but not its stamp
    let frame2 = session.open_frame(&root);
    assert!(!session.check_active(&frame));
    assert!(session.check_active(&frame2));
    assert_eq!(session.try_new_term_ref(&frame), None);
    session.close_frame(frame2);
}

#[test]
fn open_then_close_frame_is_neutral() {
    let (mut session, root) = Session::new(1);
    let before = session.new_term_ref(&root);
    assert_eq!(before, 0);

    let frame = session.open_frame(&root);
    session.close_frame(frame);

    // the parent's next acquisition is as if the frame never existed
    let after = session.new_term_ref(&root);
    assert_eq!(after, 1);
}

#[test]
fn close_frame_commits_bindings() {
    let (mut session, root) = Session::new(1);
    let outer = session.new_term_ref(&root);

    let frame = session.open_frame(&root);
    session.bind_term(&frame, outer, TermValue::Integer(5));
    session.close_frame(frame);

    assert_eq!(session.term_value(outer), Some(&TermValue::Integer(5)));
}

#[test]
fn discard_frame_unwinds_bindings() {
    let (mut session, root) = Session::new(1);
    let outer = session.new_term_ref(&root);

    let frame = session.open_frame(&root);
    session.bind_term(&frame, outer, TermValue::Integer(5));
    session.discard_frame(frame);

    // the variable was bound only within the discarded frame
    assert_eq!(session.term_value(outer), None);
}

#[test]
fn rewind_frame_resets_allocation_point() {
    let (mut session, root) = Session::new(1);
    let outer = session.new_term_ref(&root);

    let frame = session.open_frame(&root);
    let scratch = session.new_term_ref(&frame);
    session.bind_term(&frame, scratch, TermValue::Integer(1));
    session.bind_term(&frame, outer, TermValue::Integer(2));
    session.rewind_frame(&frame);

    // reference slots are reusable and the attempt's bindings are gone
    let scratch2 = session.new_term_ref(&frame);
    assert_eq!(scratch2, scratch);
    assert_eq!(session.term_value(outer), None);
    session.close_frame(frame);
}

#[test]
fn unmanaged_engine_context_roots_a_session() {
    let (mut session, root) = swipl::context::unmanaged_engine_context(42);
    assert_eq!(session.engine_ptr(), 42);
    assert_eq!(root.kind, ContextType::UnmanagedContext);
    let frame = session.open_frame(&root);
    let _term = session.new_term_ref(&frame);
    session.close_frame(frame);
}

#[test]
fn unknown_alias_shares_activation() {
    let (mut session, root) = Session::new(1);
    let erased = session.as_unknown(&root);
    assert_eq!(erased.kind, ContextType::Unknown);
    assert!(session.check_active(&erased));
    let _term = session.new_term_ref(&erased);

    let frame = session.open_frame(&root);
    assert!(!session.check_active(&erased));
    session.close_frame(frame);
    assert!(session.check_active(&erased));
}

#[test]
fn functor_arity_above_maximum_faults() {
    let (mut session, _root) = Session::new(1);
    let atom = session.new_atom("big".to_string());
    assert_eq!(session.try_new_functor(atom, 1025), None);
    assert!(session.try_new_functor(atom, 1024).is_some());
}
