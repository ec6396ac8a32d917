use peach::ast::{BinOp, Expr, FnItem, Item, ItemPath, Stmt, Ty, UseTree};
use peach::engine::{BytecodeEngine, Fatal};
use peach::eval::{eval_engine, Value};

fn lit(v: u64) -> Expr {
    Expr::LitU64(v)
}

fn var(n: &str) -> Expr {
    Expr::Var(String::from(n))
}

fn bin(op: BinOp, l: Expr, r: Expr) -> Expr {
    Expr::Binary(op, Box::new(l), Box::new(r))
}

fn call(segments: &[&str], args: Vec<Expr>) -> Expr {
    Expr::Call(
        ItemPath {
            leading_colon: false,
            segments: segments.iter().map(|s| String::from(*s)).collect(),
        },
        args,
    )
}

fn fn_item(name: &str, params: &[(&str, Ty)], return_ty: Ty, body: Vec<Stmt>) -> Item {
    Item::Fn(FnItem {
        name: String::from(name),
        params: params.iter().map(|(n, t)| (String::from(*n), *t)).collect(),
        return_ty,
        body,
    })
}

/// A function with the given name and no body, returning void.
fn leaf_fn(name: &str) -> Item {
    fn_item(name, &[], Ty::Void, vec![])
}

#[test]
fn resolution_idempotence() {
    let mut engine = BytecodeEngine::new();
    engine
        .load_items(vec![
            fn_item("main", &[], Ty::U64, vec![Stmt::Expr(lit(3))]),
        ])
        .unwrap();
    let first = engine.process_fn("main", 0).unwrap();
    let defs_after_first = engine.definition_count();
    let scopes_after_first = engine.scope_count();
    let second = engine.process_fn("main", 0).unwrap();
    assert_eq!(first, second);
    // the second call performed no recompilation and changed nothing
    assert_eq!(engine.definition_count(), defs_after_first);
    assert_eq!(engine.scope_count(), scopes_after_first);
    let third = engine.process_defn("main", 0).unwrap();
    assert_eq!(first, third);
}

#[test]
fn lazy_until_referenced() {
    let mut engine = BytecodeEngine::new();
    engine
        .load_items(vec![
            leaf_fn("unused"),
            fn_item("main", &[], Ty::U64, vec![Stmt::Expr(lit(1))]),
        ])
        .unwrap();
    // registration alone compiles nothing
    assert!(engine.definition_is_unresolved(0));
    assert!(engine.definition_is_unresolved(1));
    engine.process_fn("main", 0).unwrap();
    // `main` was compiled; `unused` was never referenced and stays lazy
    assert!(engine.definition_is_unresolved(0));
    assert!(!engine.definition_is_unresolved(1));
}

#[test]
fn glob_import_snapshots_names() {
    let mut engine = BytecodeEngine::new();
    engine
        .load_items(vec![
            Item::ModInline(String::from("m"), vec![leaf_fn("a")]),
            Item::Use(UseTree::Path(String::from("m"), Box::new(UseTree::Glob))),
        ])
        .unwrap();
    // `a` is visible in the root scope through the glob
    assert!(engine.process_defn("a", 0).is_ok());
    // the module scope was the first scope created after the root
    let mod_scope = 1;
    engine.prepare_item(leaf_fn("late"), mod_scope).unwrap();
    // `late` resolves inside the module ...
    assert!(engine.process_defn("late", mod_scope).is_ok());
    // ... but the glob snapshot does not gain it
    assert!(matches!(
        engine.process_defn("late", 0),
        Err(Fatal::DefinitionNotFound(_))
    ));
}

#[test]
fn use_rename_binds_under_new_name() {
    let mut engine = BytecodeEngine::new();
    engine
        .load_items(vec![
            Item::ModInline(
                String::from("m"),
                vec![fn_item("f", &[], Ty::U64, vec![Stmt::Expr(lit(7))])],
            ),
            Item::Use(UseTree::Path(
                String::from("m"),
                Box::new(UseTree::Rename(String::from("f"), String::from("g"))),
            )),
        ])
        .unwrap();
    engine.process_fn("g", 0).unwrap();
    assert_eq!(eval_engine(&engine, "g"), Some(Value::U64(7)));
    // the original name is not bound in the root scope
    assert!(matches!(
        engine.process_fn("f", 0),
        Err(Fatal::DefinitionNotFound(_))
    ));
}

#[test]
fn use_group_binds_each_member() {
    let mut engine = BytecodeEngine::new();
    engine
        .load_items(vec![
            Item::ModInline(String::from("m"), vec![leaf_fn("a"), leaf_fn("b")]),
            Item::Use(UseTree::Path(
                String::from("m"),
                Box::new(UseTree::Group(vec![
                    UseTree::Name(String::from("a")),
                    UseTree::Name(String::from("b")),
                ])),
            )),
        ])
        .unwrap();
    assert!(engine.process_defn("a", 0).is_ok());
    assert!(engine.process_defn("b", 0).is_ok());
}

#[test]
fn path_call_into_module() {
    let mut engine = BytecodeEngine::new();
    engine
        .load_items(vec![
            Item::ModInline(
                String::from("m"),
                vec![fn_item("f", &[], Ty::U64, vec![Stmt::Expr(lit(7))])],
            ),
            fn_item(
                "main",
                &[],
                Ty::U64,
                vec![Stmt::Expr(call(&["m", "f"], vec![]))],
            ),
        ])
        .unwrap();
    engine.process_fn("main", 0).unwrap();
    assert_eq!(eval_engine(&engine, "main"), Some(Value::U64(7)));
}

#[test]
fn file_module_is_loaded_on_demand() {
    let mut engine = BytecodeEngine::new();
    engine
        .load_items(vec![
            Item::ModFile(String::from("m")),
            fn_item(
                "main",
                &[],
                Ty::U64,
                vec![Stmt::Expr(call(&["m", "f"], vec![]))],
            ),
        ])
        .unwrap();
    // the module's file has not been read: resolution reports what it needs
    let (definition_id, name) = match engine.process_fn("main", 0) {
        Err(Fatal::NeedsModuleFile(id, name)) => (id, name),
        other => panic!("expected NeedsModuleFile, got {:?}", other.map(|_| ())),
    };
    assert_eq!(name, "m");
    // the driver reads and parses the file, then hands its items over
    engine
        .provide_module(
            definition_id,
            vec![fn_item("f", &[], Ty::U64, vec![Stmt::Expr(lit(9))])],
        )
        .unwrap();
    engine.process_fn("main", 0).unwrap();
    assert_eq!(eval_engine(&engine, "main"), Some(Value::U64(9)));
}

#[test]
fn missing_definition_is_reported() {
    let mut engine = BytecodeEngine::new();
    assert!(matches!(
        engine.process_fn("nope", 0),
        Err(Fatal::DefinitionNotFound(_))
    ));
}

#[test]
fn path_through_function_is_not_a_module() {
    let mut engine = BytecodeEngine::new();
    engine
        .load_items(vec![
            leaf_fn("f"),
            fn_item(
                "main",
                &[],
                Ty::U64,
                vec![Stmt::Expr(call(&["f", "g"], vec![]))],
            ),
        ])
        .unwrap();
    assert!(matches!(
        engine.process_fn("main", 0),
        Err(Fatal::NotAModule(_))
    ));
}

#[test]
fn module_is_not_a_function() {
    let mut engine = BytecodeEngine::new();
    engine
        .load_items(vec![Item::ModInline(String::from("m"), vec![])])
        .unwrap();
    assert!(matches!(
        engine.process_fn("m", 0),
        Err(Fatal::NotAFunction(_))
    ));
}

#[test]
fn let_with_wrong_type_is_rejected() {
    let mut engine = BytecodeEngine::new();
    engine
        .load_items(vec![fn_item(
            "main",
            &[],
            Ty::Void,
            vec![Stmt::Let {
                name: String::from("x"),
                ty: Ty::Bool,
                init: Some(lit(5)),
            }],
        )])
        .unwrap();
    assert!(matches!(engine.process_fn("main", 0), Err(Fatal::TypeMismatch)));
}

#[test]
fn call_with_wrong_arity_is_rejected() {
    let mut engine = BytecodeEngine::new();
    engine
        .load_items(vec![
            fn_item("f", &[("x", Ty::U64)], Ty::U64, vec![Stmt::Expr(var("x"))]),
            fn_item("main", &[], Ty::U64, vec![Stmt::Expr(call(&["f"], vec![]))]),
        ])
        .unwrap();
    assert!(matches!(
        engine.process_fn("main", 0),
        Err(Fatal::ArityMismatch)
    ));
}

#[test]
fn unknown_variable_is_rejected() {
    let mut engine = BytecodeEngine::new();
    engine
        .load_items(vec![fn_item("main", &[], Ty::U64, vec![Stmt::Expr(var("y"))])])
        .unwrap();
    assert!(matches!(
        engine.process_fn("main", 0),
        Err(Fatal::VariableNotFound(_))
    ));
}

#[test]
fn item_inside_function_body_is_rejected() {
    let mut engine = BytecodeEngine::new();
    engine
        .load_items(vec![fn_item(
            "main",
            &[],
            Ty::Void,
            vec![Stmt::Item(Box::new(leaf_fn("nested")))],
        )])
        .unwrap();
    assert!(matches!(
        engine.process_fn("main", 0),
        Err(Fatal::UnsupportedStatement)
    ));
}

#[test]
fn empty_call_path_is_rejected() {
    let mut engine = BytecodeEngine::new();
    engine
        .load_items(vec![fn_item(
            "main",
            &[],
            Ty::Void,
            vec![Stmt::Semi(Expr::Call(
                ItemPath { leading_colon: false, segments: vec![] },
                vec![],
            ))],
        )])
        .unwrap();
    assert!(matches!(engine.process_fn("main", 0), Err(Fatal::EmptyPath)));
}

#[test]
fn leading_colon_path_starts_at_outermost_scope() {
    let mut engine = BytecodeEngine::new();
    engine
        .load_items(vec![
            fn_item("f", &[], Ty::U64, vec![Stmt::Expr(lit(4))]),
            fn_item(
                "main",
                &[],
                Ty::U64,
                vec![Stmt::Expr(Expr::Call(
                    ItemPath {
                        leading_colon: true,
                        segments: vec![String::from("f")],
                    },
                    vec![],
                ))],
            ),
        ])
        .unwrap();
    engine.process_fn("main", 0).unwrap();
    assert_eq!(eval_engine(&engine, "main"), Some(Value::U64(4)));
}

#[test]
fn raw_statement_item_registers_lazily() {
    let mut engine = BytecodeEngine::new();
    let mut bytecode = vec![];
    let mut vs = peach::bytecode::VarStack::new();
    engine
        .process_raw_stmt(
            Stmt::Item(Box::new(fn_item(
                "f",
                &[],
                Ty::U64,
                vec![Stmt::Expr(lit(11))],
            ))),
            &mut bytecode,
            &mut vs,
        )
        .unwrap();
    assert!(bytecode.is_empty());
    assert!(engine.definition_is_unresolved(0));
    engine.process_fn("f", 0).unwrap();
    assert_eq!(eval_engine(&engine, "f"), Some(Value::U64(11)));
}
