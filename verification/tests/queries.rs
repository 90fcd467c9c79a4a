//! Query lifecycle: solutions, cut, discard, and the convenience
//! operations, with the engine's answers scripted as the host would hand
//! them over.

use swipl::context::{decode_solution_code, QueryResult, Session};
use swipl::term::{Binding, TermValue};

fn arithmetic_query(session: &mut Session, context: &swipl::context::Context) -> (usize, usize, usize) {
    let atom_is = session.new_atom("is".to_string());
    let functor_is = session.new_functor(atom_is, 2);
    let atom_plus = session.new_atom("+".to_string());
    let functor_plus = session.new_functor(atom_plus, 2);
    let atom_user = session.new_atom("user".to_string());
    let module = session.new_module(atom_user);
    let predicate = session.new_predicate(functor_is, module);

    let term1 = session.new_term_ref(context);
    let term2 = session.new_term_ref(context);
    session.bind_term(
        context,
        term2,
        TermValue::Compound(
            functor_plus,
            vec![TermValue::Integer(40), TermValue::Integer(2)],
        ),
    );
    (predicate, term1, term2)
}

#[test]
fn query_det() {
    let (mut session, context) = Session::new(1);
    let (predicate, term1, term2) = arithmetic_query(&mut session, &context);

    let query = session.open_query(&context, None, predicate, &vec![term1, term2]);
    let next = session.next_solution(
        &query,
        QueryResult::SuccessLast,
        vec![Binding { term: term1, value: TermValue::Integer(42) }],
    );

    assert_eq!(QueryResult::SuccessLast, next);
    assert_eq!(session.term_value(term1), Some(&TermValue::Integer(42)));

    let next = session.next_solution(&query, QueryResult::Failure, Vec::new());
    assert_eq!(QueryResult::Failure, next);
    session.drop_query(query);
}

#[test]
fn query_auto_discard() {
    let (mut session, context) = Session::new(1);
    let (predicate, term1, term2) = arithmetic_query(&mut session, &context);

    {
        let query = session.open_query(&context, None, predicate, &vec![term1, term2]);
        let next = session.next_solution(
            &query,
            QueryResult::SuccessLast,
            vec![Binding { term: term1, value: TermValue::Integer(42) }],
        );

        assert_eq!(QueryResult::SuccessLast, next);
        assert_eq!(session.term_value(term1), Some(&TermValue::Integer(42)));

        // leaving the block without explicit conclusion: the drop-time
        // fallback performs exactly a discard
        session.drop_query(query);
    }

    assert_eq!(session.term_value(term1), None);
}

#[test]
fn query_manual_discard() {
    let (mut session, context) = Session::new(1);
    let (predicate, term1, term2) = arithmetic_query(&mut session, &context);

    {
        let query = session.open_query(&context, None, predicate, &vec![term1, term2]);
        let next = session.next_solution(
            &query,
            QueryResult::SuccessLast,
            vec![Binding { term: term1, value: TermValue::Integer(42) }],
        );

        assert_eq!(QueryResult::SuccessLast, next);
        assert_eq!(session.term_value(term1), Some(&TermValue::Integer(42)));
        session.discard(query);
    }

    assert_eq!(session.term_value(term1), None);
}

#[test]
fn query_cut() {
    let (mut session, context) = Session::new(1);
    let (predicate, term1, term2) = arithmetic_query(&mut session, &context);

    {
        let query = session.open_query(&context, None, predicate, &vec![term1, term2]);
        let next = session.next_solution(
            &query,
            QueryResult::SuccessLast,
            vec![Binding { term: term1, value: TermValue::Integer(42) }],
        );

        assert_eq!(QueryResult::SuccessLast, next);
        assert_eq!(session.term_value(term1), Some(&TermValue::Integer(42)));
        session.cut(query);
    }

    // a cut query leaves data intact
    assert_eq!(session.term_value(term1), Some(&TermValue::Integer(42)));
}

#[test]
fn term_from_string_works() {
    let (mut session, context) = Session::new(1);

    // script the parse the engine would produce, interning the symbols the
    // parsed term mentions
    let atom_foo = session.new_atom("foo".to_string());
    let functor_foo_parsed = session.new_functor(atom_foo, 1);
    let atom_bar = session.new_atom("bar".to_string());
    let functor_bar_parsed = session.new_functor(atom_bar, 2);
    let atom_baz = session.new_atom("baz".to_string());
    let atom_quux = session.new_atom("quux".to_string());

    let inner = TermValue::Compound(
        functor_bar_parsed,
        vec![TermValue::Atom(atom_baz), TermValue::Atom(atom_quux)],
    );
    let parsed = TermValue::Compound(functor_foo_parsed, vec![inner]);

    let term = session
        .term_from_string(
            &context,
            "foo(bar(baz,quux))".to_string(),
            QueryResult::SuccessLast,
            parsed,
        )
        .unwrap();

    // as the original does, create the functors only now and compare: the
    // symbol tables intern, so these are the same handles the parsed term
    // carries
    let atom_foo_again = session.new_atom("foo".to_string());
    let functor_foo = session.new_functor(atom_foo_again, 1);
    let atom_bar_again = session.new_atom("bar".to_string());
    let functor_bar = session.new_functor(atom_bar_again, 2);

    match session.term_value(term) {
        Some(TermValue::Compound(functor, args)) => {
            assert_eq!(*functor, functor_foo);
            assert_eq!(
                args[0],
                TermValue::Compound(
                    functor_bar,
                    vec![TermValue::Atom(atom_baz), TermValue::Atom(atom_quux)],
                )
            );
        }
        other => panic!("expected a compound term, got {:?}", other),
    }
}

#[test]
fn symbol_allocation_interns() {
    let (mut session, _context) = Session::new(1);
    let a1 = session.new_atom("likes".to_string());
    let a2 = session.new_atom("likes".to_string());
    assert_eq!(a1, a2);

    let f1 = session.new_functor(a1, 2);
    let f2 = session.new_functor(a2, 2);
    assert_eq!(f1, f2);
    // a different arity is a different functor
    let f3 = session.new_functor(a1, 3);
    assert_ne!(f1, f3);

    let atom_user = session.new_atom("user".to_string());
    let m1 = session.new_module(atom_user);
    let m2 = session.new_module(atom_user);
    assert_eq!(m1, m2);

    let p1 = session.new_predicate(f1, m1);
    let p2 = session.new_predicate(f2, m2);
    assert_eq!(p1, p2);
}

#[test]
fn term_from_string_failure_yields_none() {
    let (mut session, context) = Session::new(1);
    let result = session.term_from_string(
        &context,
        "not a term".to_string(),
        QueryResult::Failure,
        TermValue::Integer(0),
    );
    assert_eq!(result, None);
}

#[test]
fn term_from_string_nondeterministic_parse_yields_none() {
    let (mut session, context) = Session::new(1);
    let result = session.term_from_string(
        &context,
        "ambiguous".to_string(),
        QueryResult::Success,
        TermValue::Integer(0),
    );
    assert_eq!(result, None);
}

#[test]
fn open_call_nondet() {
    let (mut session, context) = Session::new(1);

    let atom_member = session.new_atom("member".to_string());
    let functor_member = session.new_functor(atom_member, 2);
    let atom_cons = session.new_atom(".".to_string());
    let functor_cons = session.new_functor(atom_cons, 2);
    let atom_nil = session.new_atom("[]".to_string());
    let atom_a = session.new_atom("a".to_string());
    let atom_b = session.new_atom("b".to_string());
    let atom_c = session.new_atom("c".to_string());

    let term_x = session.new_term_ref(&context);
    let list = TermValue::Compound(
        functor_cons,
        vec![
            TermValue::Atom(atom_a),
            TermValue::Compound(
                functor_cons,
                vec![
                    TermValue::Atom(atom_b),
                    TermValue::Compound(
                        functor_cons,
                        vec![TermValue::Atom(atom_c), TermValue::Atom(atom_nil)],
                    ),
                ],
            ),
        ],
    );
    let goal_value = TermValue::Compound(functor_member, vec![TermValue::Ref(term_x), list]);

    let goal = session
        .term_from_string(
            &context,
            "member(X, [a,b,c])".to_string(),
            QueryResult::SuccessLast,
            goal_value,
        )
        .unwrap();

    let query = session.open_call(&context, goal);
    assert_eq!(
        QueryResult::Success,
        session.next_solution(
            &query,
            QueryResult::Success,
            vec![Binding { term: term_x, value: TermValue::Atom(atom_a) }],
        )
    );
    assert_eq!(session.term_value(term_x), Some(&TermValue::Atom(atom_a)));

    assert_eq!(
        QueryResult::Success,
        session.next_solution(
            &query,
            QueryResult::Success,
            vec![Binding { term: term_x, value: TermValue::Atom(atom_b) }],
        )
    );
    assert_eq!(session.term_value(term_x), Some(&TermValue::Atom(atom_b)));

    assert_eq!(
        QueryResult::SuccessLast,
        session.next_solution(
            &query,
            QueryResult::SuccessLast,
            vec![Binding { term: term_x, value: TermValue::Atom(atom_c) }],
        )
    );
    assert_eq!(session.term_value(term_x), Some(&TermValue::Atom(atom_c)));

    assert_eq!(
        QueryResult::Failure,
        session.next_solution(&query, QueryResult::Failure, Vec::new())
    );
    session.drop_query(query);
}

#[test]
fn exception_outcome_keeps_query_open() {
    let (mut session, context) = Session::new(1);
    let (predicate, term1, term2) = arithmetic_query(&mut session, &context);

    let query = session.open_query(&context, None, predicate, &vec![term1, term2]);
    let next = session.next_solution(&query, QueryResult::Exception, Vec::new());
    assert_eq!(QueryResult::Exception, next);

    // the caller must still conclude the query after an exception
    assert!(session.check_active(&query));
    session.discard(query);
    assert!(session.check_active(&context));
}

#[test]
fn query_from_non_queryable_context_faults() {
    let (mut session, root) = swipl::context::unmanaged_engine_context(1);
    let atom = session.new_atom("true".to_string());
    let functor = session.new_functor(atom, 0);
    let atom_user = session.new_atom("user".to_string());
    let module = session.new_module(atom_user);
    let predicate = session.new_predicate(functor, module);

    // the unmanaged escape-hatch root is not queryable
    assert!(session.try_open_query(&root, None, predicate, &Vec::new()).is_none());

    // a frame opened from it is
    let frame = session.open_frame(&root);
    let query = session.try_open_query(&frame, None, predicate, &Vec::new()).unwrap();

    // and a query may not open another query
    assert!(session.try_open_query(&query, None, predicate, &Vec::new()).is_none());
    session.discard(query);
    session.close_frame(frame);
}

#[test]
fn solution_codes_decode() {
    assert_eq!(decode_solution_code(-1), Some(QueryResult::Exception));
    assert_eq!(decode_solution_code(0), Some(QueryResult::Failure));
    assert_eq!(decode_solution_code(1), Some(QueryResult::Success));
    assert_eq!(decode_solution_code(2), Some(QueryResult::SuccessLast));
    assert_eq!(decode_solution_code(3), None);
    assert_eq!(decode_solution_code(-2), None);
}

#[test]
fn wrap_term_ref_adopts_existing_reference() {
    let (mut session, context) = Session::new(1);
    let term = session.new_term_ref(&context);
    let wrapped = session.wrap_term_ref(&context, term);
    assert_eq!(wrapped, term);
}
