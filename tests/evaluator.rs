use scope_eval::evaluator::{BorrowState, EvalError, ScopeEvaluator};
use scope_eval::value::Value;

fn text(s: &str) -> Value {
    Value::Str(s.to_string())
}

#[test]
fn move_out_then_read_fails() {
    let mut ev = ScopeEvaluator::new();
    ev.bind("s", text("hello"), false);
    assert_eq!(ev.move_out("s"), Ok(text("hello")));
    assert_eq!(ev.read("s"), Err(EvalError::UseAfterMove));
    assert_eq!(ev.is_moved("s"), Some(true));
}

#[test]
fn borrow_mut_after_release_succeeds() {
    let mut ev = ScopeEvaluator::new();
    ev.bind("s", text("hello"), true);
    let r = ev.borrow("s").unwrap();
    assert_eq!(ev.borrow_mut("s"), Err(EvalError::BorrowConflict));
    assert_eq!(ev.end_borrow(r), Ok(()));
    assert!(ev.borrow_mut("s").is_ok());
    assert_eq!(ev.borrow_state("s"), Some(BorrowState::Exclusive));
}

#[test]
fn reference_dangles_after_scope_exit() {
    let mut ev = ScopeEvaluator::new();
    ev.enter_scope();
    ev.bind("x", Value::Int(5), false);
    let r = ev.borrow("x").unwrap();
    assert_eq!(ev.read_ref(&r), Ok(Value::Int(5)));
    let dropped = ev.exit_scope();
    assert_eq!(dropped, vec!["x".to_string()]);
    assert_eq!(ev.read_ref(&r), Err(EvalError::DanglingReference));
    assert_eq!(ev.end_borrow(r), Err(EvalError::DanglingReference));
}

#[test]
fn stale_reference_stays_dangling_after_new_borrows() {
    let mut ev = ScopeEvaluator::new();
    ev.enter_scope();
    ev.bind("x", Value::Int(5), false);
    let r = ev.borrow("x").unwrap();
    ev.exit_scope();
    ev.enter_scope();
    ev.bind("x", Value::Int(6), false);
    let r2 = ev.borrow("x").unwrap();
    assert_eq!(ev.read_ref(&r2), Ok(Value::Int(6)));
    assert_eq!(ev.read_ref(&r), Err(EvalError::DanglingReference));
}

#[test]
fn shared_and_exclusive_never_together() {
    let mut ev = ScopeEvaluator::new();
    ev.bind("a", Value::Int(1), true);
    let r1 = ev.borrow("a").unwrap();
    let r2 = ev.borrow("a").unwrap();
    assert_eq!(ev.borrow_state("a"), Some(BorrowState::Shared(2)));
    assert_eq!(ev.borrow_mut("a"), Err(EvalError::BorrowConflict));
    assert_eq!(ev.borrow_state("a"), Some(BorrowState::Shared(2)));
    ev.end_borrow(r1).unwrap();
    assert_eq!(ev.borrow_state("a"), Some(BorrowState::Shared(1)));
    ev.end_borrow(r2).unwrap();
    assert_eq!(ev.borrow_state("a"), Some(BorrowState::Free));
    let m = ev.borrow_mut("a").unwrap();
    assert_eq!(ev.borrow("a"), Err(EvalError::BorrowConflict));
    assert_eq!(ev.borrow_state("a"), Some(BorrowState::Exclusive));
    ev.end_borrow_mut(m).unwrap();
    assert_eq!(ev.borrow_state("a"), Some(BorrowState::Free));
}

#[test]
fn second_bind_shadows_and_exit_restores() {
    let mut ev = ScopeEvaluator::new();
    ev.bind("x", Value::Int(1), false);
    ev.enter_scope();
    ev.bind("x", Value::Int(2), false);
    ev.bind("x", text("three"), false);
    assert_eq!(ev.read("x"), Ok(text("three")));
    let dropped = ev.exit_scope();
    assert_eq!(dropped, vec!["x".to_string(), "x".to_string()]);
    assert_eq!(ev.read("x"), Ok(Value::Int(1)));
}

#[test]
fn shadowing_in_same_scope_keeps_old_slot() {
    let mut ev = ScopeEvaluator::new();
    let first = ev.bind("x", Value::Int(5), false);
    let second = ev.bind("x", Value::Int(6), false);
    assert_eq!(first, 0);
    assert_eq!(second, 1);
    assert_eq!(ev.read("x"), Ok(Value::Int(6)));
}

#[test]
fn move_of_copy_value_keeps_name_readable() {
    let mut ev = ScopeEvaluator::new();
    ev.bind("n", Value::Int(7), false);
    assert_eq!(ev.move_out("n"), Ok(Value::Int(7)));
    assert_eq!(ev.is_moved("n"), Some(false));
    assert_eq!(ev.read("n"), Ok(Value::Int(7)));
    let pair = Value::Tuple(vec![Value::Int(1), Value::Bool(true)]);
    ev.bind("p", pair.duplicate(), false);
    assert_eq!(ev.move_out("p"), Ok(pair.duplicate()));
    assert_eq!(ev.read("p"), Ok(pair));
}

#[test]
fn move_of_tuple_with_string_moves() {
    let mut ev = ScopeEvaluator::new();
    let pair = Value::Tuple(vec![Value::Int(1), text("s")]);
    ev.bind("p", pair.duplicate(), false);
    assert_eq!(ev.move_out("p"), Ok(pair));
    assert_eq!(ev.read("p"), Err(EvalError::UseAfterMove));
    assert_eq!(ev.borrow("p"), Err(EvalError::UseAfterMove));
    assert_eq!(ev.borrow_mut("p"), Err(EvalError::UseAfterMove));
    assert_eq!(ev.move_out("p"), Err(EvalError::UseAfterMove));
}

#[test]
fn assign_to_immutable_fails() {
    let mut ev = ScopeEvaluator::new();
    ev.bind("x", Value::Int(5), false);
    assert_eq!(ev.assign("x", Value::Int(6)), Err(EvalError::ImmutableBinding));
    ev.bind("s", text("a"), false);
    assert_eq!(ev.assign("s", Value::Array(vec![])), Err(EvalError::ImmutableBinding));
    assert_eq!(ev.read("x"), Ok(Value::Int(5)));
}

#[test]
fn assign_clears_moved_and_respects_borrows() {
    let mut ev = ScopeEvaluator::new();
    ev.bind("s", text("a"), true);
    ev.move_out("s").unwrap();
    assert_eq!(ev.assign("s", text("b")), Ok(()));
    assert_eq!(ev.read("s"), Ok(text("b")));
    let r = ev.borrow("s").unwrap();
    assert_eq!(ev.assign("s", text("c")), Err(EvalError::BorrowConflict));
    ev.end_borrow(r).unwrap();
    assert_eq!(ev.assign("s", text("c")), Ok(()));
}

#[test]
fn cannot_move_borrowed() {
    let mut ev = ScopeEvaluator::new();
    ev.bind("s", text("a"), true);
    let r = ev.borrow("s").unwrap();
    assert_eq!(ev.move_out("s"), Err(EvalError::CannotMoveBorrowed));
    ev.end_borrow(r).unwrap();
    assert_eq!(ev.move_out("s"), Ok(text("a")));
}

#[test]
fn unbound_name_everywhere() {
    let mut ev = ScopeEvaluator::new();
    assert_eq!(ev.read("q"), Err(EvalError::UnboundName));
    assert_eq!(ev.move_out("q"), Err(EvalError::UnboundName));
    assert_eq!(ev.borrow("q"), Err(EvalError::UnboundName));
    assert_eq!(ev.borrow_mut("q"), Err(EvalError::UnboundName));
    assert_eq!(ev.assign("q", Value::Int(1)), Err(EvalError::UnboundName));
    assert_eq!(ev.borrow_state("q"), None);
}

#[test]
fn exit_scope_releases_borrows_of_outer_slots() {
    let mut ev = ScopeEvaluator::new();
    ev.bind("s", text("hello"), true);
    ev.enter_scope();
    let _r1 = ev.borrow("s").unwrap();
    let _r2 = ev.borrow("s").unwrap();
    assert_eq!(ev.borrow_state("s"), Some(BorrowState::Shared(2)));
    assert_eq!(ev.depth(), 2);
    let dropped = ev.exit_scope();
    assert!(dropped.is_empty());
    assert_eq!(ev.depth(), 1);
    assert_eq!(ev.borrow_state("s"), Some(BorrowState::Free));
    assert!(ev.borrow_mut("s").is_ok());
}

#[test]
fn exit_scope_drops_in_reverse_binding_order() {
    let mut ev = ScopeEvaluator::new();
    ev.enter_scope();
    ev.bind("a", Value::Int(1), false);
    ev.bind("b", Value::Char('b'), false);
    ev.bind("c", Value::Float(0), false);
    let dropped = ev.exit_scope();
    assert_eq!(dropped, vec!["c".to_string(), "b".to_string(), "a".to_string()]);
    assert_eq!(ev.read("a"), Err(EvalError::UnboundName));
}

#[test]
fn write_through_exclusive_borrow() {
    let mut ev = ScopeEvaluator::new();
    ev.bind("s", text("hello"), true);
    let m = ev.borrow_mut("s").unwrap();
    assert_eq!(ev.read_mut(&m), Ok(text("hello")));
    assert_eq!(ev.write_mut(&m, text("hello, world")), Ok(()));
    ev.end_borrow_mut(m).unwrap();
    assert_eq!(ev.read("s"), Ok(text("hello, world")));
    assert_eq!(ev.read_mut(&m), Err(EvalError::DanglingReference));
    assert_eq!(ev.write_mut(&m, text("x")), Err(EvalError::DanglingReference));
    assert_eq!(ev.end_borrow_mut(m), Err(EvalError::DanglingReference));
}

#[test]
fn released_borrow_cannot_be_released_again() {
    let mut ev = ScopeEvaluator::new();
    ev.bind("s", text("hello"), false);
    let r = ev.borrow("s").unwrap();
    assert_eq!(ev.end_borrow(r), Ok(()));
    assert_eq!(ev.end_borrow(r), Err(EvalError::DanglingReference));
    assert_eq!(ev.read_ref(&r), Err(EvalError::DanglingReference));
}

#[test]
fn value_copy_classification() {
    assert!(Value::Int(1).is_copy());
    assert!(Value::Float(0).is_copy());
    assert!(Value::Bool(true).is_copy());
    assert!(Value::Char('c').is_copy());
    assert!(!text("s").is_copy());
    assert!(Value::Array(vec![Value::Int(1), Value::Int(2)]).is_copy());
    assert!(!Value::Array(vec![Value::Int(1), text("s")]).is_copy());
    assert!(Value::Tuple(vec![]).is_copy());
    let nested = Value::Tuple(vec![Value::Array(vec![text("x")])]);
    assert!(!nested.is_copy());
    assert_eq!(nested.duplicate(), nested);
}
