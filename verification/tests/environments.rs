use lox::environment::{Environment, EnvironmentTree, UndefinedVariable};

#[test]
fn define_then_get_reads_the_value() {
    let mut env: Environment<i32> = Environment::new();
    assert_eq!(env.get("x"), None);
    env.define("x", 1);
    env.define("y", 2);
    assert_eq!(env.get("x"), Some(1));
    assert_eq!(env.get("y"), Some(2));
    env.define("x", 3);
    assert_eq!(env.get("x"), Some(3));
}

#[test]
fn assign_changes_defined_variables_only() {
    let mut env: Environment<i32> = Environment::new();
    assert_eq!(env.assign("x", 1), Err(UndefinedVariable));
    assert_eq!(env.get("x"), None);
    env.define("x", 1);
    assert_eq!(env.assign("x", 5), Ok(5));
    assert_eq!(env.get("x"), Some(5));
}

#[test]
fn tree_reads_through_enclosing_environments() {
    let mut tree: EnvironmentTree<i32> = EnvironmentTree::new();
    let global = tree.open(None);
    let inner = tree.open(Some(global));
    let innermost = tree.open(Some(inner));
    tree.define(global, "a", 1);
    tree.define(inner, "a", 2);
    assert_eq!(tree.get_at(innermost, "a", 0), None);
    assert_eq!(tree.get_at(innermost, "a", 1), Some(2));
    assert_eq!(tree.get_at(innermost, "a", 2), Some(1));
    assert_eq!(tree.get_at(innermost, "a", 3), None);
    assert_eq!(tree.enclosing(innermost), Some(inner));
    assert_eq!(tree.enclosing(global), None);
}

#[test]
fn tree_assigns_at_a_distance() {
    let mut tree: EnvironmentTree<i32> = EnvironmentTree::new();
    let global = tree.open(None);
    let inner = tree.open(Some(global));
    tree.define(global, "a", 1);
    assert_eq!(tree.assign_at(inner, "a", 7, 1), Ok(7));
    assert_eq!(tree.get_at(global, "a", 0), Some(7));
    assert_eq!(tree.assign_at(inner, "a", 8, 0), Err(UndefinedVariable));
    assert_eq!(tree.assign_at(inner, "a", 8, 2), Err(UndefinedVariable));
    assert_eq!(tree.get_at(inner, "a", 1), Some(7));
}

#[test]
fn tree_reads_back_what_it_assigned_and_nothing_else_changes() {
    let mut tree: EnvironmentTree<i32> = EnvironmentTree::new();
    let global = tree.open(None);
    let inner = tree.open(Some(global));
    tree.define(global, "a", 1);
    tree.define(global, "b", 2);
    tree.define(inner, "a", 3);
    assert_eq!(tree.assign_at(inner, "a", 9, 1), Ok(9));
    assert_eq!(tree.get_at(inner, "a", 1), Some(9));
    assert_eq!(tree.get_at(inner, "a", 0), Some(3));
    assert_eq!(tree.get_at(inner, "b", 1), Some(2));
}
