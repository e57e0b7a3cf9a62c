use lox::environment::{
    add_block_scoping, assign_env, define_env, get_env, remove_block_scoping, State,
};
use lox::error::RuntimeError;
use lox::expr::Literal;

fn number(n: f64) -> Literal {
    Literal::Number(n.to_bits())
}

fn text(s: &str) -> Literal {
    Literal::String(s.to_string())
}

fn is_number(value: Result<Literal, RuntimeError>, n: f64) -> bool {
    matches!(value, Ok(Literal::Number(bits)) if bits == n.to_bits())
}

fn is_text(value: Result<Literal, RuntimeError>, s: &str) -> bool {
    matches!(value, Ok(Literal::String(t)) if t == s)
}

fn is_undefined(value: Result<Literal, RuntimeError>, name: &str) -> bool {
    matches!(value, Err(RuntimeError::UndefinedVariable(n)) if n == name)
}

#[test]
fn define_then_get() {
    let mut env = State::new(None);
    env.define("a".to_string(), number(1.0));
    assert!(is_number(env.get("a".to_string()), 1.0));
}

#[test]
fn redeclaration_overwrites() {
    let mut env = State::new(None);
    env.define("a".to_string(), number(1.0));
    env.define("a".to_string(), text("two"));
    assert!(is_text(env.get("a".to_string()), "two"));
}

#[test]
fn get_of_unknown_name_fails() {
    let env = State::new(None);
    assert!(is_undefined(env.get("a".to_string()), "a"));
}

#[test]
fn assign_updates_the_innermost_scope_that_binds() {
    let mut env = State::new(None);
    env.define("a".to_string(), number(1.0));
    add_block_scoping(&mut env);
    env.define("b".to_string(), number(2.0));
    assert!(env.assign("a".to_string(), number(10.0)).is_ok());
    assert!(env.assign("b".to_string(), number(20.0)).is_ok());
    assert!(is_number(env.get("a".to_string()), 10.0));
    assert!(is_number(env.get("b".to_string()), 20.0));
    assert!(remove_block_scoping(&mut env).is_ok());
    assert!(is_number(env.get("a".to_string()), 10.0));
    assert!(is_undefined(env.get("b".to_string()), "b"));
}

#[test]
fn assign_does_not_declare() {
    let mut env = State::new(None);
    let r = env.assign("x".to_string(), number(1.0));
    assert!(matches!(r, Err(RuntimeError::UndefinedVariable(n)) if n == "x"));
    assert!(is_undefined(env.get("x".to_string()), "x"));
}

#[test]
fn inner_declaration_shadows_and_outer_reemerges() {
    let mut env = State::new(None);
    env.define("a".to_string(), text("outer"));
    add_block_scoping(&mut env);
    env.define("a".to_string(), text("inner"));
    assert!(is_text(env.get("a".to_string()), "inner"));
    assert!(env.assign("a".to_string(), text("changed")).is_ok());
    assert!(is_text(env.get("a".to_string()), "changed"));
    assert!(remove_block_scoping(&mut env).is_ok());
    assert!(is_text(env.get("a".to_string()), "outer"));
}

#[test]
fn lookup_walks_outwards() {
    let mut env = State::new(None);
    env.define("a".to_string(), number(1.0));
    add_block_scoping(&mut env);
    add_block_scoping(&mut env);
    assert!(is_number(env.get("a".to_string()), 1.0));
    assert!(remove_block_scoping(&mut env).is_ok());
    assert!(remove_block_scoping(&mut env).is_ok());
    assert!(is_number(env.get("a".to_string()), 1.0));
}

#[test]
fn global_scope_cannot_be_left() {
    let mut env = State::new(None);
    env.define("a".to_string(), number(1.0));
    assert!(matches!(remove_block_scoping(&mut env), Err(RuntimeError::NoEnclosingScope)));
    assert!(is_number(env.get("a".to_string()), 1.0));
    assert!(matches!(State::new(None).get_parent(), Err(RuntimeError::NoEnclosingScope)));
}

#[test]
fn get_parent_gives_the_enclosing_scope() {
    let mut outer = State::new(None);
    outer.define("a".to_string(), number(1.0));
    let mut inner = State::new(Some(Box::new(outer)));
    inner.define("b".to_string(), number(2.0));
    let parent = inner.get_parent();
    assert!(parent.is_ok());
    let parent = parent.ok().unwrap();
    assert!(is_number(parent.get("a".to_string()), 1.0));
    assert!(is_undefined(parent.get("b".to_string()), "b"));
}

#[test]
fn free_functions_act_on_the_given_environment() {
    let mut env = State::new(None);
    define_env(&mut env, "a".to_string(), number(1.0));
    assert!(assign_env(&mut env, "a".to_string(), number(2.0)).is_ok());
    assert!(is_number(get_env(&env, "a".to_string()), 2.0));
    assert!(assign_env(&mut env, "b".to_string(), number(2.0)).is_err());
    assert!(is_undefined(get_env(&env, "b".to_string()), "b"));
}
