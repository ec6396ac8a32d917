use peach::ast::{BinOp, Expr, FnItem, Item, ItemPath, Stmt, Ty};
use peach::bytecode::{Bytecode, VarStack};
use peach::engine::BytecodeEngine;
use peach::eval::{eval_bytecode, eval_engine, Value};

fn lit(v: u64) -> Expr {
    Expr::LitU64(v)
}

fn var(n: &str) -> Expr {
    Expr::Var(String::from(n))
}

fn bin(op: BinOp, l: Expr, r: Expr) -> Expr {
    Expr::Binary(op, Box::new(l), Box::new(r))
}

fn call1(name: &str, arg: Expr) -> Expr {
    Expr::Call(
        ItemPath { leading_colon: false, segments: vec![String::from(name)] },
        vec![arg],
    )
}

fn fn_item(name: &str, params: &[(&str, Ty)], return_ty: Ty, body: Vec<Stmt>) -> Item {
    Item::Fn(FnItem {
        name: String::from(name),
        params: params.iter().map(|(n, t)| (String::from(*n), *t)).collect(),
        return_ty,
        body,
    })
}

fn let_u64(name: &str, init: Expr) -> Stmt {
    Stmt::Let { name: String::from(name), ty: Ty::U64, init: Some(init) }
}

#[test]
fn arithmetic_round_trip() {
    // 2 + 3 * 4: left-to-right compilation, right-before-left popping
    let mut engine = BytecodeEngine::new();
    let mut bytecode = vec![];
    let mut vs = VarStack::new();
    let expr = bin(
        BinOp::Add,
        lit(2),
        bin(BinOp::Mul, lit(3), lit(4)),
    );
    let ty = engine.process_raw_expr(&expr, &mut bytecode, &mut vs).unwrap();
    assert_eq!(ty, Ty::U64);
    assert_eq!(
        bytecode,
        vec![
            Bytecode::PushU64(2),
            Bytecode::PushU64(3),
            Bytecode::PushU64(4),
            Bytecode::Mul,
            Bytecode::Add,
        ]
    );
    bytecode.push(Bytecode::ReturnLastStackValue);
    assert_eq!(eval_bytecode(&engine, &bytecode, 1000), Some(Value::U64(14)));
}

#[test]
fn if_false_executes_exactly_the_else_branch() {
    let mut engine = BytecodeEngine::new();
    engine
        .load_items(vec![fn_item(
            "main",
            &[],
            Ty::U64,
            vec![Stmt::Expr(Expr::If(
                Box::new(Expr::LitBool(false)),
                vec![Stmt::Expr(lit(1))],
                vec![Stmt::Expr(lit(2))],
            ))],
        )])
        .unwrap();
    engine.process_fn("main", 0).unwrap();
    assert_eq!(eval_engine(&engine, "main"), Some(Value::U64(2)));
}

#[test]
fn if_true_executes_exactly_the_then_branch() {
    let mut engine = BytecodeEngine::new();
    engine
        .load_items(vec![fn_item(
            "main",
            &[],
            Ty::U64,
            vec![Stmt::Expr(Expr::If(
                Box::new(Expr::LitBool(true)),
                vec![Stmt::Expr(lit(1))],
                vec![Stmt::Expr(lit(2))],
            ))],
        )])
        .unwrap();
    engine.process_fn("main", 0).unwrap();
    assert_eq!(eval_engine(&engine, "main"), Some(Value::U64(1)));
}

#[test]
fn while_loop_runs_its_body_three_times() {
    // let i = 0; while i < 3 { i = i + 1; }; i
    let mut engine = BytecodeEngine::new();
    engine
        .load_items(vec![fn_item(
            "main",
            &[],
            Ty::U64,
            vec![
                let_u64("i", lit(0)),
                Stmt::Semi(Expr::While(
                    Box::new(bin(BinOp::Lt, var("i"), lit(3))),
                    vec![Stmt::Semi(Expr::Assign(
                        String::from("i"),
                        Box::new(bin(BinOp::Add, var("i"), lit(1))),
                    ))],
                )),
                Stmt::Expr(var("i")),
            ],
        )])
        .unwrap();
    engine.process_fn("main", 0).unwrap();
    assert_eq!(eval_engine(&engine, "main"), Some(Value::U64(3)));
}

#[test]
fn recursive_factorial() {
    // fact(n) = if n < 2 { 1 } else { n * fact(n - 1) }
    let fact_body = vec![Stmt::Expr(Expr::If(
        Box::new(bin(BinOp::Lt, var("n"), lit(2))),
        vec![Stmt::Expr(lit(1))],
        vec![Stmt::Expr(bin(
            BinOp::Mul,
            var("n"),
            call1("fact", bin(BinOp::Sub, var("n"), lit(1))),
        ))],
    ))];
    let mut engine = BytecodeEngine::new();
    engine
        .load_items(vec![
            fn_item("fact", &[("n", Ty::U64)], Ty::U64, fact_body),
            fn_item(
                "main",
                &[],
                Ty::U64,
                vec![
                    let_u64("a", lit(2)),
                    let_u64("b", call1("fact", lit(5))),
                    Stmt::Expr(bin(BinOp::Add, var("a"), var("b"))),
                ],
            ),
        ])
        .unwrap();
    engine.process_fn("main", 0).unwrap();
    // fact(5) == 120, and the call corrupted no caller slot: a is still 2
    assert_eq!(eval_engine(&engine, "main"), Some(Value::U64(122)));
}

#[test]
fn block_scoped_shadowing_at_runtime() {
    // let x = 1; let y = { let x = 2; x }; x * 10 + y == 12
    let mut engine = BytecodeEngine::new();
    engine
        .load_items(vec![fn_item(
            "main",
            &[],
            Ty::U64,
            vec![
                let_u64("x", lit(1)),
                let_u64(
                    "y",
                    Expr::Block(vec![let_u64("x", lit(2)), Stmt::Expr(var("x"))]),
                ),
                Stmt::Expr(bin(
                    BinOp::Add,
                    bin(BinOp::Mul, var("x"), lit(10)),
                    var("y"),
                )),
            ],
        )])
        .unwrap();
    engine.process_fn("main", 0).unwrap();
    assert_eq!(eval_engine(&engine, "main"), Some(Value::U64(12)));
}

#[test]
fn explicit_return_short_circuits() {
    // return 5; 9 — the trailing expression is never reached
    let mut engine = BytecodeEngine::new();
    engine
        .load_items(vec![fn_item(
            "main",
            &[],
            Ty::U64,
            vec![Stmt::Return(Some(lit(5))), Stmt::Expr(lit(9))],
        )])
        .unwrap();
    engine.process_fn("main", 0).unwrap();
    assert_eq!(eval_engine(&engine, "main"), Some(Value::U64(5)));
}

#[test]
fn void_function_returns_void() {
    let mut engine = BytecodeEngine::new();
    engine
        .load_items(vec![fn_item("main", &[], Ty::Void, vec![Stmt::Semi(lit(1))])])
        .unwrap();
    engine.process_fn("main", 0).unwrap();
    assert_eq!(eval_engine(&engine, "main"), Some(Value::Void));
}

#[test]
fn return_from_empty_stack_is_the_error_value() {
    let engine = BytecodeEngine::new();
    let bytecode = vec![Bytecode::ReturnLastStackValue];
    assert_eq!(eval_bytecode(&engine, &bytecode, 1000), Some(Value::Error));
}

#[test]
fn division_by_zero_aborts() {
    let engine = BytecodeEngine::new();
    let bytecode = vec![
        Bytecode::PushU64(1),
        Bytecode::PushU64(0),
        Bytecode::Div,
        Bytecode::ReturnLastStackValue,
    ];
    assert_eq!(eval_bytecode(&engine, &bytecode, 1000), None);
}

#[test]
fn adding_a_boolean_aborts() {
    let engine = BytecodeEngine::new();
    let bytecode = vec![
        Bytecode::PushBool(true),
        Bytecode::PushU64(1),
        Bytecode::Add,
        Bytecode::ReturnLastStackValue,
    ];
    assert_eq!(eval_bytecode(&engine, &bytecode, 1000), None);
}

#[test]
fn addition_overflow_aborts() {
    let engine = BytecodeEngine::new();
    let bytecode = vec![
        Bytecode::PushU64(u64::MAX),
        Bytecode::PushU64(1),
        Bytecode::Add,
        Bytecode::ReturnLastStackValue,
    ];
    assert_eq!(eval_bytecode(&engine, &bytecode, 1000), None);
}

#[test]
fn narrow_literal_widens_to_the_integer_value() {
    let engine = BytecodeEngine::new();
    let bytecode = vec![Bytecode::PushU32(7), Bytecode::ReturnLastStackValue];
    assert_eq!(eval_bytecode(&engine, &bytecode, 1000), Some(Value::U64(7)));
}

#[test]
fn uninitialized_declaration_assign_and_read() {
    let engine = BytecodeEngine::new();
    let bytecode = vec![
        Bytecode::VarDeclUninit(0),
        Bytecode::PushU64(9),
        Bytecode::Assign(0),
        Bytecode::Var(0),
        Bytecode::ReturnLastStackValue,
    ];
    assert_eq!(eval_bytecode(&engine, &bytecode, 1000), Some(Value::U64(9)));
}

#[test]
fn debug_print_leaves_the_stack_alone() {
    let engine = BytecodeEngine::new();
    let bytecode = vec![
        Bytecode::PushU64(3),
        Bytecode::DebugPrint,
        Bytecode::ReturnLastStackValue,
    ];
    assert_eq!(eval_bytecode(&engine, &bytecode, 1000), Some(Value::U64(3)));
}

#[test]
fn falling_off_the_end_yields_void() {
    let engine = BytecodeEngine::new();
    let bytecode = vec![Bytecode::PushU64(1)];
    assert_eq!(eval_bytecode(&engine, &bytecode, 1000), Some(Value::Void));
}

#[test]
fn nonterminating_loop_runs_out_of_fuel() {
    let mut engine = BytecodeEngine::new();
    engine
        .load_items(vec![fn_item(
            "main",
            &[],
            Ty::Void,
            vec![Stmt::Semi(Expr::While(
                Box::new(Expr::LitBool(true)),
                vec![],
            ))],
        )])
        .unwrap();
    engine.process_fn("main", 0).unwrap();
    let fun = engine.get_fn("main", 0);
    // the loop never exits: within any fuel budget the evaluation aborts
    assert_eq!(eval_bytecode(&engine, &fun.bytecode, 10_000), None);
}

#[test]
fn unknown_slot_aborts() {
    let engine = BytecodeEngine::new();
    let bytecode = vec![Bytecode::Var(3), Bytecode::ReturnLastStackValue];
    assert_eq!(eval_bytecode(&engine, &bytecode, 1000), None);
}

#[test]
fn raw_expression_with_repl_variables() {
    let mut engine = BytecodeEngine::new();
    let mut bytecode = vec![];
    let mut vs = VarStack::new();
    engine
        .process_raw_stmt(let_u64("x", lit(20)), &mut bytecode, &mut vs)
        .unwrap();
    engine
        .process_raw_expr(&bin(BinOp::Add, var("x"), lit(1)), &mut bytecode, &mut vs)
        .unwrap();
    bytecode.push(Bytecode::ReturnLastStackValue);
    assert_eq!(eval_bytecode(&engine, &bytecode, 1000), Some(Value::U64(21)));
}
