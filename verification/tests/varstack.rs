use peach::ast::Ty;
use peach::bytecode::VarStack;

#[test]
fn fresh_stack_finds_nothing() {
    let vs = VarStack::new();
    assert_eq!(vs.find_var("x"), None);
    assert_eq!(vs.visible_len(), 0);
}

#[test]
fn add_var_assigns_slots_in_order() {
    let mut vs = VarStack::new();
    let a = vs.add_var(String::from("a"), Ty::U64);
    let b = vs.add_var(String::from("b"), Ty::Bool);
    assert_eq!(a, 0);
    assert_eq!(b, 1);
    assert_eq!(vs.find_var("a"), Some(0));
    assert_eq!(vs.find_var("b"), Some(1));
    assert_eq!(vs.find_var("c"), None);
}

#[test]
fn inner_declaration_shadows_outer() {
    let mut vs = VarStack::new();
    let outer = vs.add_var(String::from("x"), Ty::U64);
    let mark = vs.visible_len();
    let inner = vs.add_var(String::from("x"), Ty::U64);
    assert_eq!(vs.find_var("x"), Some(inner));
    vs.truncate_visible(mark);
    assert_eq!(vs.find_var("x"), Some(outer));
}

#[test]
fn truncation_keeps_declarations() {
    let mut vs = VarStack::new();
    vs.add_var(String::from("x"), Ty::U64);
    let mark = vs.visible_len();
    vs.add_var(String::from("y"), Ty::U64);
    vs.truncate_visible(mark);
    assert_eq!(vs.find_var("y"), None);
    // the slot itself is kept: the next declaration gets a fresh one
    let z = vs.add_var(String::from("z"), Ty::U64);
    assert_eq!(z, 2);
}
