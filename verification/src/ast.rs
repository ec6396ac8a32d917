//! The abstract syntax consumed by the engine.
//!
//! A front end (any conforming parser) turns source text into this tree of
//! items, statements and expressions; everything past that point works on
//! these plain values.

use vstd::prelude::*;

verus! {

/// Static type attached to parameters, variables, return values and
/// control-flow-as-expression results. `Unknown` is the placeholder used
/// when no expected type is available yet (for example a free-standing
/// expression handed to the engine by an interactive caller).
#[derive(Clone, Copy, PartialEq, Eq, Structural, Debug)]
pub enum Ty {
    U64,
    Bool,
    Void,
    Unknown,
}

/// Binary operators of the source language.
#[derive(Clone, Copy, PartialEq, Eq, Structural, Debug)]
pub enum BinOp {
    Add,
    Sub,
    Mul,
    Div,
    Lt,
}

/// A possibly module-qualified reference, `a::b::c`. With `leading_colon`
/// the search starts at the outermost module scope instead of the current
/// scope.
#[derive(Clone, Debug)]
pub struct ItemPath {
    pub leading_colon: bool,
    pub segments: Vec<String>,
}

/// Expressions of the source language.
pub enum Expr {
    LitU64(u64),
    LitBool(bool),
    Binary(BinOp, Box<Expr>, Box<Expr>),
    /// A read of a local variable.
    Var(String),
    /// An assignment to a local variable; its value is void.
    Assign(String, Box<Expr>),
    /// A call of a named definition with its argument list.
    Call(ItemPath, Vec<Expr>),
    /// `if cond { .. } else { .. }`; the second block is empty when there is
    /// no `else` branch.
    If(Box<Expr>, Vec<Stmt>, Vec<Stmt>),
    /// `while cond { .. }`; its value is void.
    While(Box<Expr>, Vec<Stmt>),
    /// A braced block in expression position; its value is the value of the
    /// trailing expression statement, if any.
    Block(Vec<Stmt>),
}

/// Statements of the source language.
pub enum Stmt {
    /// `let name: ty = init;`. `ty` is `Ty::Unknown` when no type was
    /// written; `init` is `None` for an uninitialized declaration.
    Let { name: String, ty: Ty, init: Option<Expr> },
    /// A trailing expression in value position (no semicolon).
    Expr(Expr),
    /// An expression statement (with semicolon).
    Semi(Expr),
    /// `return;` or `return expr;`.
    Return(Option<Expr>),
    /// An item declared in statement position. Only interactive callers
    /// accept these; a function body may not contain one.
    Item(Box<Item>),
}

/// A function item: name, parameters, return type, body.
pub struct FnItem {
    pub name: String,
    pub params: Vec<(String, Ty)>,
    pub return_ty: Ty,
    pub body: Vec<Stmt>,
}

/// The alias tree of a `use` declaration.
pub enum UseTree {
    /// `use name;`
    Name(String),
    /// `use seg::rest;`
    Path(String, Box<UseTree>),
    /// `use {a, b, c};`
    Group(Vec<UseTree>),
    /// `use m::*;`
    Glob,
    /// `use a as b;`
    Rename(String, String),
}

/// A top-level item.
pub enum Item {
    Fn(FnItem),
    /// `mod name;` — the module body lives in its own source file, which is
    /// not read until the module is actually referenced.
    ModFile(String),
    /// `mod name { .. }` — an inline module body.
    ModInline(String, Vec<Item>),
    Use(UseTree),
}

} // verus!
