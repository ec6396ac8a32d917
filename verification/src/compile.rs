//! A mathematical mirror of bytecode compilation.
//!
//! For every statement or expression that performs no call, these functions
//! say exactly which instructions compilation emits — jump offsets included
//! — what static type it computes, and how the symbol table evolves; the
//! engine's conversion functions promise to match them. A call site's
//! instruction carries a definition id chosen by on-demand resolution, which
//! is a property of the whole engine state, so calls are described by the
//! conversion functions' own contracts instead.

use vstd::prelude::*;

use crate::ast::{BinOp, Expr, FnItem, Stmt, Ty};
use crate::bytecode::{Bytecode, Fun, VarDeclV, VarStackV};

verus! {

/// The expression performs no call.
pub open spec fn no_calls_expr(e: Expr) -> bool
    decreases e,
{
    match e {
        Expr::LitU64(_) => true,
        Expr::LitBool(_) => true,
        Expr::Var(_) => true,
        Expr::Binary(_, l, r) => no_calls_expr(*l) && no_calls_expr(*r),
        Expr::Assign(_, rhs) => no_calls_expr(*rhs),
        Expr::Call(_, _) => false,
        Expr::If(c, t, f) => no_calls_expr(*c) && no_calls_stmts(t@) && no_calls_stmts(f@),
        Expr::While(c, b) => no_calls_expr(*c) && no_calls_stmts(b@),
        Expr::Block(ss) => no_calls_stmts(ss@),
    }
}

/// The statement performs no call.
pub open spec fn no_calls_stmt(s: Stmt) -> bool
    decreases s,
{
    match s {
        Stmt::Let { name: _, ty: _, init } => match init {
            Some(e) => no_calls_expr(e),
            None => true,
        },
        Stmt::Expr(e) => no_calls_expr(e),
        Stmt::Semi(e) => no_calls_expr(e),
        Stmt::Return(oe) => match oe {
            Some(e) => no_calls_expr(e),
            None => true,
        },
        Stmt::Item(_) => false,
    }
}

/// No statement of the sequence performs a call.
pub open spec fn no_calls_stmts(ss: Seq<Stmt>) -> bool
    decreases ss,
{
    if ss.len() == 0 {
        true
    } else {
        no_calls_stmt(ss[0]) && no_calls_stmts(ss.drop_first())
    }
}

/// Declare a variable: it gets the next slot and becomes the innermost
/// visible binding of its name.
pub open spec fn add_var_s(vs: VarStackV, ident: Seq<char>, ty: Ty) -> VarStackV {
    VarStackV {
        vars: vs.vars.push(VarDeclV { ident, ty }),
        visible: vs.visible.push(vs.vars.len() as usize),
    }
}

/// Leave a block: every binding made since `base` drops out of visibility;
/// the declarations are kept.
pub open spec fn restore_s(vs: VarStackV, base: VarStackV) -> VarStackV {
    VarStackV { vars: vs.vars, visible: vs.visible.take(base.visible.len() as int) }
}

/// The instruction of a binary operator, and its result type.
pub open spec fn binop_code(op: BinOp) -> (Bytecode, Ty) {
    match op {
        BinOp::Add => (Bytecode::Add, Ty::U64),
        BinOp::Sub => (Bytecode::Sub, Ty::U64),
        BinOp::Mul => (Bytecode::Mul, Ty::U64),
        BinOp::Div => (Bytecode::Div, Ty::U64),
        BinOp::Lt => (Bytecode::Lt, Ty::Bool),
    }
}

/// What compiling a call-free expression emits: the instruction sequence,
/// its static type, and the symbol table afterwards. `None` is the fatal
/// outcome: an unknown variable, operand or branch types that do not fit,
/// or a result that does not have the expected type.
pub open spec fn compile_expr_s(e: Expr, vs: VarStackV, expected: Ty) -> Option<
    (Seq<Bytecode>, Ty, VarStackV),
>
    decreases e,
{
    let raw = match e {
        Expr::LitU64(v) => Some((seq![Bytecode::PushU64(v)], Ty::U64, vs)),
        Expr::LitBool(b) => Some((seq![Bytecode::PushBool(b)], Ty::Bool, vs)),
        Expr::Var(name) => match vs.find(name@) {
            Some(id) => Some((seq![Bytecode::Var(id)], vs.vars[id as int].ty, vs)),
            None => None,
        },
        Expr::Assign(name, rhs) => match vs.find(name@) {
            Some(id) => match compile_expr_s(*rhs, vs, vs.vars[id as int].ty) {
                Some((c, _, vs1)) => Some((c.push(Bytecode::Assign(id)), Ty::Void, vs1)),
                None => None,
            },
            None => None,
        },
        Expr::Binary(op, l, r) => match compile_expr_s(*l, vs, Ty::U64) {
            Some((cl, _, vs1)) => match compile_expr_s(*r, vs1, Ty::U64) {
                Some((cr, _, vs2)) => Some(
                    (cl + cr + seq![binop_code(op).0], binop_code(op).1, vs2),
                ),
                None => None,
            },
            None => None,
        },
        Expr::Call(_, _) => None,
        Expr::If(c, tb, fb) => match compile_expr_s(*c, vs, Ty::Bool) {
            Some((cc, _, vs1)) => match compile_stmts_s(tb@, vs1, expected) {
                Some((ca, ta, vs2)) => match compile_stmts_s(fb@, restore_s(vs2, vs1), expected) {
                    Some((cb, tb2, vs3)) => if ta == tb2 && ca.len() + 2 <= usize::MAX && cb.len()
                        + 1 <= usize::MAX {
                        Some(
                            (
                                cc + seq![Bytecode::If((ca.len() + 2) as usize, ta)] + ca
                                    + seq![Bytecode::Else((cb.len() + 1) as usize, ta)] + cb
                                    + seq![Bytecode::EndIf(ta)],
                                ta,
                                restore_s(vs3, vs1),
                            ),
                        )
                    } else {
                        None
                    },
                    None => None,
                },
                None => None,
            },
            None => None,
        },
        Expr::While(c, b) => match compile_expr_s(*c, vs, Ty::Bool) {
            Some((cc, _, vs1)) => match compile_stmts_s(b@, vs1, Ty::Unknown) {
                Some((cb, _, vs2)) => if cb.len() + 2 <= usize::MAX && cc.len() + cb.len() + 2
                    <= usize::MAX {
                    Some(
                        (
                            seq![Bytecode::BeginWhile] + cc
                                + seq![Bytecode::WhileCond((cb.len() + 2) as usize)] + cb
                                + seq![Bytecode::EndWhile((cc.len() + cb.len() + 2) as usize)],
                            Ty::Void,
                            restore_s(vs2, vs1),
                        ),
                    )
                } else {
                    None
                },
                None => None,
            },
            None => None,
        },
        Expr::Block(ss) => match compile_stmts_s(ss@, vs, expected) {
            Some((c, t, vs1)) => Some((c, t, restore_s(vs1, vs))),
            None => None,
        },
    };
    match raw {
        Some((c, t, vs1)) => if expected == Ty::Unknown || t == expected {
            Some((c, t, vs1))
        } else {
            None
        },
        None => None,
    }
}

/// What compiling a call-free statement emits. Declarations bind the
/// initializer value and allocate the next slot; the value of the statement
/// is its expression's value in value position and void otherwise.
pub open spec fn compile_stmt_s(s: Stmt, vs: VarStackV, expected: Ty) -> Option<
    (Seq<Bytecode>, Ty, VarStackV),
>
    decreases s,
{
    match s {
        Stmt::Let { name, ty, init } => match init {
            Some(e) => match compile_expr_s(e, vs, ty) {
                Some((c, it, vs1)) => if vs1.vars.len() + 1 <= usize::MAX {
                    Some(
                        (
                            c.push(Bytecode::VarDecl(vs1.vars.len() as usize)),
                            Ty::Void,
                            add_var_s(
                                vs1,
                                name@,
                                if ty == Ty::Unknown {
                                    it
                                } else {
                                    ty
                                },
                            ),
                        ),
                    )
                } else {
                    None
                },
                None => None,
            },
            None => if vs.vars.len() + 1 <= usize::MAX {
                Some(
                    (
                        seq![Bytecode::VarDeclUninit(vs.vars.len() as usize)],
                        Ty::Void,
                        add_var_s(vs, name@, ty),
                    ),
                )
            } else {
                None
            },
        },
        Stmt::Expr(e) => compile_expr_s(e, vs, expected),
        Stmt::Semi(e) => match compile_expr_s(e, vs, Ty::Unknown) {
            Some((c, _, vs1)) => Some((c, Ty::Void, vs1)),
            None => None,
        },
        Stmt::Return(oe) => match oe {
            Some(e) => match compile_expr_s(e, vs, Ty::Unknown) {
                Some((c, _, vs1)) => Some((c.push(Bytecode::ReturnLastStackValue), Ty::Void, vs1)),
                None => None,
            },
            None => Some((seq![Bytecode::ReturnVoid], Ty::Void, vs)),
        },
        Stmt::Item(_) => None,
    }
}

/// What compiling a call-free statement sequence emits: the statements in
/// order, the value of the trailing statement (void for an empty sequence),
/// and only the trailing statement sees the expected type.
pub open spec fn compile_stmts_s(ss: Seq<Stmt>, vs: VarStackV, expected: Ty) -> Option<
    (Seq<Bytecode>, Ty, VarStackV),
>
    decreases ss,
{
    if ss.len() == 0 {
        Some((Seq::empty(), Ty::Void, vs))
    } else {
        let exp0 = if ss.len() == 1 {
            expected
        } else {
            Ty::Unknown
        };
        match compile_stmt_s(ss[0], vs, exp0) {
            Some((c0, t0, vs1)) => match compile_stmts_s(ss.drop_first(), vs1, expected) {
                Some((cr, tr, vs2)) => Some(
                    (
                        c0 + cr,
                        if ss.len() == 1 {
                            t0
                        } else {
                            tr
                        },
                        vs2,
                    ),
                ),
                None => None,
            },
            None => None,
        }
    }
}

/// A call-free statement sequence stays call-free when a prefix is dropped.
pub proof fn lemma_no_calls_skip(ss: Seq<Stmt>, i: int)
    requires
        no_calls_stmts(ss),
        0 <= i <= ss.len(),
    ensures
        no_calls_stmts(ss.skip(i)),
    decreases i,
{
    if i > 0 {
        lemma_no_calls_skip(ss, i - 1);
        assert(ss.skip(i - 1).drop_first() =~= ss.skip(i));
        assert(no_calls_stmts(ss.skip(i - 1)));
    }
    assert(ss.skip(0) =~= ss);
}

/// The symbol table a function body is compiled against: the parameters,
/// declared in order, so parameter `k` owns slot `k`.
pub open spec fn params_vs(ps: Seq<(String, Ty)>) -> VarStackV
    decreases ps.len(),
{
    if ps.len() == 0 {
        VarStackV { vars: Seq::empty(), visible: Seq::empty() }
    } else {
        add_var_s(params_vs(ps.drop_last()), ps.last().0@, ps.last().1)
    }
}

/// The instruction that closes every compiled body: a value-returning
/// signature pops and returns the trailing value, any other returns void.
pub open spec fn fn_terminator(return_ty: Ty) -> Bytecode {
    if return_ty == Ty::Void || return_ty == Ty::Unknown {
        Bytecode::ReturnVoid
    } else {
        Bytecode::ReturnLastStackValue
    }
}

/// The compiled artifact is the compilation of the source item: same return
/// type; parameter `k` of the item, with its name and type, bound to slot
/// `k`; and, for a call-free body, the instruction sequence is exactly the
/// body's compilation against the parameter table, closed by the return
/// instruction the signature asks for.
pub open spec fn fun_matches_item(fun: Fun, f: FnItem) -> bool {
    &&& fun.return_ty == f.return_ty
    &&& fun.params@.len() == f.params@.len()
    &&& forall|k: int|
        0 <= k < f.params@.len() ==> {
            &&& (#[trigger] fun.params@[k]).var_id == k
            &&& fun.params@[k].ty == f.params@[k].1
            &&& fun.params@[k].name@ == f.params@[k].0@
        }
    &&& no_calls_stmts(f.body@) ==> ({
        let c = compile_stmts_s(f.body@, params_vs(f.params@), f.return_ty);
        &&& c is Some
        &&& fun.bytecode@ == c.unwrap().0.push(fn_terminator(f.return_ty))
    })
}

/// Structural size of an expression: a bound on the recursion depth its
/// compilation needs. A call site is a leaf here; the call-free fragment is
/// what the completeness contracts speak of.
pub open spec fn size_expr(e: Expr) -> nat
    decreases e,
{
    match e {
        Expr::LitU64(_) => 1,
        Expr::LitBool(_) => 1,
        Expr::Var(_) => 1,
        Expr::Binary(_, l, r) => 1 + size_expr(*l) + size_expr(*r),
        Expr::Assign(_, rhs) => 1 + size_expr(*rhs),
        Expr::Call(_, _) => 1,
        Expr::If(c, t, f) => 1 + size_expr(*c) + size_stmts(t@) + size_stmts(f@),
        Expr::While(c, b) => 1 + size_expr(*c) + size_stmts(b@),
        Expr::Block(ss) => 1 + size_stmts(ss@),
    }
}

/// Structural size of a statement.
pub open spec fn size_stmt(s: Stmt) -> nat
    decreases s,
{
    match s {
        Stmt::Let { name: _, ty: _, init } => match init {
            Some(e) => 1 + size_expr(e),
            None => 1,
        },
        Stmt::Expr(e) => 1 + size_expr(e),
        Stmt::Semi(e) => 1 + size_expr(e),
        Stmt::Return(oe) => match oe {
            Some(e) => 1 + size_expr(e),
            None => 1,
        },
        Stmt::Item(_) => 1,
    }
}

/// Structural size of a statement sequence.
pub open spec fn size_stmts(ss: Seq<Stmt>) -> nat
    decreases ss,
{
    if ss.len() == 0 {
        1
    } else {
        size_stmt(ss[0]) + size_stmts(ss.drop_first())
    }
}

/// A statement sequence's size is positive.
pub proof fn lemma_size_stmts_pos(ss: Seq<Stmt>)
    ensures
        size_stmts(ss) >= 1,
    decreases ss,
{
    if ss.len() > 0 {
        lemma_size_stmts_pos(ss.drop_first());
    }
}

/// Every statement of a sequence is strictly smaller than the sequence.
pub proof fn lemma_size_stmts_member(ss: Seq<Stmt>, i: int)
    requires
        0 <= i < ss.len(),
    ensures
        size_stmt(ss[i]) < size_stmts(ss),
    decreases ss.len(),
{
    if i > 0 {
        lemma_size_stmts_member(ss.drop_first(), i - 1);
        assert(ss.drop_first()[i - 1] == ss[i]);
    } else {
        lemma_size_stmts_pos(ss.drop_first());
    }
}

/// Skipping a prefix does not grow a sequence's size.
pub proof fn lemma_size_stmts_skip(ss: Seq<Stmt>, i: int)
    requires
        0 <= i <= ss.len(),
    ensures
        size_stmts(ss.skip(i)) <= size_stmts(ss),
    decreases i,
{
    if i > 0 {
        lemma_size_stmts_skip(ss, i - 1);
        assert(ss.skip(i - 1).drop_first() =~= ss.skip(i));
        if ss.skip(i - 1).len() > 0 {
            assert(size_stmts(ss.skip(i - 1)) == size_stmt(ss.skip(i - 1)[0]) + size_stmts(
                ss.skip(i),
            ));
        }
    } else {
        assert(ss.skip(0) =~= ss);
    }
}

} // verus!
