use lispr::lisp::env::{Binding, Environment, GLOBAL};
use lispr::lisp::modules::{comparison, math};
use lispr::lisp::types::{Builtin, RLError, RLType};

fn number(n: f32) -> RLType {
    RLType::Number(n.to_bits())
}

fn bind(key: &str, expr: RLType) -> Binding {
    Binding { key: key.to_string(), expr }
}

#[test]
fn a_new_store_has_an_empty_global_frame() {
    let store = Environment::new();
    assert!(store.contains(GLOBAL));
    assert!(!store.contains(1));
    assert_eq!(store.lookup(GLOBAL, "x"), Err(RLError::Unbound("x".to_string())));
    assert_eq!(store.lookup(GLOBAL, "+"), Err(RLError::Unbound("+".to_string())));
}

#[test]
fn insert_then_lookup() {
    let mut store = Environment::new();
    store.insert(GLOBAL, "x".to_string(), number(5.0));
    assert_eq!(store.lookup(GLOBAL, "x"), Ok(number(5.0)));
    assert_eq!(store.lookup(GLOBAL, "y"), Err(RLError::Unbound("y".to_string())));
}

#[test]
fn insert_overwrites_in_the_same_frame() {
    let mut store = Environment::new();
    store.insert(GLOBAL, "x".to_string(), number(5.0));
    store.insert(GLOBAL, "y".to_string(), RLType::True);
    store.insert(GLOBAL, "x".to_string(), number(6.0));
    assert_eq!(store.lookup(GLOBAL, "x"), Ok(number(6.0)));
    assert_eq!(store.lookup(GLOBAL, "y"), Ok(RLType::True));
}

#[test]
fn lookup_goes_outward() {
    let mut store = Environment::new();
    store.insert(GLOBAL, "x".to_string(), number(1.0));
    let inner = store.new_with_outer(GLOBAL);
    let innermost = store.new_with_outer(inner);
    assert_eq!(inner, 1);
    assert_eq!(innermost, 2);
    assert!(store.contains(innermost));
    assert_eq!(store.lookup(innermost, "x"), Ok(number(1.0)));
    store.insert(inner, "y".to_string(), number(2.0));
    assert_eq!(store.lookup(innermost, "y"), Ok(number(2.0)));
    assert_eq!(store.lookup(GLOBAL, "y"), Err(RLError::Unbound("y".to_string())));
}

#[test]
fn insert_shadows_and_never_alters_an_outer_frame() {
    let mut store = Environment::new();
    store.insert(GLOBAL, "x".to_string(), number(1.0));
    let inner = store.new_with_outer(GLOBAL);
    store.insert(inner, "x".to_string(), number(2.0));
    assert_eq!(store.lookup(inner, "x"), Ok(number(2.0)));
    assert_eq!(store.lookup(GLOBAL, "x"), Ok(number(1.0)));
    store.insert(GLOBAL, "x".to_string(), number(3.0));
    assert_eq!(store.lookup(inner, "x"), Ok(number(2.0)));
    assert_eq!(store.lookup(GLOBAL, "x"), Ok(number(3.0)));
}

#[test]
fn sibling_frames_share_their_outer_frame() {
    let mut store = Environment::new();
    let left = store.new_with_outer(GLOBAL);
    let right = store.new_with_outer(GLOBAL);
    store.insert(left, "x".to_string(), number(1.0));
    assert_eq!(store.lookup(right, "x"), Err(RLError::Unbound("x".to_string())));
    store.insert(GLOBAL, "shared".to_string(), number(9.0));
    assert_eq!(store.lookup(left, "shared"), Ok(number(9.0)));
    assert_eq!(store.lookup(right, "shared"), Ok(number(9.0)));
}

#[test]
fn new_with_bindings_binds_in_order() {
    let mut store = Environment::new();
    store.insert(GLOBAL, "a".to_string(), number(0.0));
    let frame = store.new_with_bindings(
        GLOBAL,
        vec![
            bind("a", number(1.0)),
            bind("b", number(2.0)),
            bind("a", number(3.0)),
        ],
    );
    assert_eq!(frame, 1);
    assert_eq!(store.lookup(frame, "a"), Ok(number(3.0)));
    assert_eq!(store.lookup(frame, "b"), Ok(number(2.0)));
    assert_eq!(store.lookup(GLOBAL, "a"), Ok(number(0.0)));
    let empty = store.new_with_bindings(frame, vec![]);
    assert_eq!(empty, 2);
    assert_eq!(store.lookup(empty, "b"), Ok(number(2.0)));
}

#[test]
fn the_default_store_binds_pi_and_the_procedures() {
    let store = Environment::default();
    assert!(store.contains(GLOBAL));
    assert!(!store.contains(1));
    assert_eq!(store.lookup(GLOBAL, "pi"), Ok(RLType::Number(0x4049_0fdb)));
    assert_eq!(store.lookup(GLOBAL, "pi"), Ok(number(std::f32::consts::PI)));
    assert_eq!(store.lookup(GLOBAL, "+"), Ok(RLType::Proc(Builtin::Add)));
    assert_eq!(store.lookup(GLOBAL, "-"), Ok(RLType::Proc(Builtin::Sub)));
    assert_eq!(store.lookup(GLOBAL, "*"), Ok(RLType::Proc(Builtin::Mul)));
    assert_eq!(store.lookup(GLOBAL, "/"), Ok(RLType::Proc(Builtin::Div)));
    assert_eq!(store.lookup(GLOBAL, ">"), Ok(RLType::Proc(Builtin::Gt)));
    assert_eq!(store.lookup(GLOBAL, ">="), Ok(RLType::Proc(Builtin::Gte)));
    assert_eq!(store.lookup(GLOBAL, "<"), Ok(RLType::Proc(Builtin::Lt)));
    assert_eq!(store.lookup(GLOBAL, "<="), Ok(RLType::Proc(Builtin::Lte)));
    assert_eq!(store.lookup(GLOBAL, "="), Ok(RLType::Proc(Builtin::Eq)));
    assert_eq!(
        store.lookup(GLOBAL, "quote"),
        Err(RLError::Unbound("quote".to_string()))
    );
}

#[test]
fn the_modules_bind_their_procedures_in_the_frame_given() {
    let mut store = Environment::new();
    let frame = store.new_with_outer(GLOBAL);
    math::add_module(&mut store, frame);
    assert_eq!(store.lookup(frame, "+"), Ok(RLType::Proc(Builtin::Add)));
    assert_eq!(store.lookup(frame, "/"), Ok(RLType::Proc(Builtin::Div)));
    assert_eq!(store.lookup(GLOBAL, "+"), Err(RLError::Unbound("+".to_string())));
    assert_eq!(store.lookup(frame, "<"), Err(RLError::Unbound("<".to_string())));
    comparison::add_module(&mut store, frame);
    assert_eq!(store.lookup(frame, "<"), Ok(RLType::Proc(Builtin::Lt)));
    assert_eq!(store.lookup(frame, "="), Ok(RLType::Proc(Builtin::Eq)));
    assert_eq!(store.lookup(GLOBAL, "<"), Err(RLError::Unbound("<".to_string())));
}

#[test]
fn names_are_compared_character_by_character() {
    let mut store = Environment::new();
    store.insert(GLOBAL, "é".to_string(), number(1.0));
    store.insert(GLOBAL, "e".to_string(), number(2.0));
    store.insert(GLOBAL, "".to_string(), number(3.0));
    assert_eq!(store.lookup(GLOBAL, "é"), Ok(number(1.0)));
    assert_eq!(store.lookup(GLOBAL, "e"), Ok(number(2.0)));
    assert_eq!(store.lookup(GLOBAL, ""), Ok(number(3.0)));
    assert_eq!(store.lookup(GLOBAL, "E"), Err(RLError::Unbound("E".to_string())));
}
