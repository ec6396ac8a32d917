//! The flat, stack-oriented instruction format, the compiled-function
//! artifact, and the shadow-aware symbol table used while one function body
//! is being compiled.

use vstd::prelude::*;

use vstd::string::StringExecFns;

use crate::ast::Ty;

verus! {

/// Compile-time-assigned integer identifying one local variable within a
/// function's runtime frame.
pub type VarId = usize;

/// An instruction-count delta embedded in a control-flow instruction,
/// computed at compile time.
pub type Offset = usize;

/// Index of a scope in the engine's scope arena.
pub type ScopeId = usize;

/// Stable index of a definition in the engine's definition table.
pub type DefinitionId = usize;

/// One instruction of the bytecode format.
///
/// Control-flow instructions carry their jump distance as an
/// instruction-count delta valid for the exact sequence they are embedded
/// in; conditional instructions also carry the static result type for the
/// case where the conditional is used as an expression.
#[derive(Clone, Copy, PartialEq, Eq, Structural, Debug)]
pub enum Bytecode {
    /// Pop the top of the operand stack and return it.
    ReturnLastStackValue,
    /// Return the void value immediately.
    ReturnVoid,
    PushU64(u64),
    PushU32(u32),
    PushBool(bool),
    Add,
    Sub,
    Mul,
    Div,
    /// Less-than comparison of two integer operands.
    Lt,
    /// Bind the value on top of the stack, where the initializer just left
    /// it, as the storage of the given variable slot.
    VarDecl(VarId),
    /// Declare a variable without an initializer.
    VarDeclUninit(VarId),
    /// Push a copy of the given variable slot's current value.
    Var(VarId),
    /// Pop a value and store it into the given variable slot.
    Assign(VarId),
    /// Call the definition with the given id as a fresh nested invocation.
    Call(DefinitionId),
    /// Jump forward by the offset when the popped condition is false.
    If(Offset, Ty),
    /// Unconditional forward jump past the else branch.
    Else(Offset, Ty),
    /// End marker of a conditional.
    EndIf(Ty),
    /// Start marker of a loop; the target of the loop's backward jump.
    BeginWhile,
    /// Jump forward by the offset (past the loop) when the popped condition
    /// is false.
    WhileCond(Offset),
    /// Jump backward by the offset, to the start of the loop.
    EndWhile(Offset),
    /// Debug output of the value on top of the stack. Rendering is a front
    /// end's concern; the evaluator leaves the stack unchanged.
    DebugPrint,
}

/// One function parameter: its name, the variable slot it is bound to, and
/// its static type.
#[derive(Clone, Debug)]
pub struct Param {
    pub name: String,
    pub var_id: VarId,
    pub ty: Ty,
}

impl Param {
    pub fn new(name: String, var_id: VarId, ty: Ty) -> (r: Param)
        ensures
            r.name == name,
            r.var_id == var_id,
            r.ty == ty,
    {
        Param { name, var_id, ty }
    }
}

/// One declared local variable (parameters included): its name and type.
#[derive(Clone, Debug)]
pub struct VarDecl {
    pub ident: String,
    pub ty: Ty,
}

/// Mathematical image of a `VarDecl`.
pub ghost struct VarDeclV {
    pub ident: Seq<char>,
    pub ty: Ty,
}

impl View for VarDecl {
    type V = VarDeclV;

    open spec fn view(&self) -> VarDeclV {
        VarDeclV { ident: self.ident@, ty: self.ty }
    }
}

impl VarDecl {
    pub fn new(ident: String, ty: Ty) -> (r: VarDecl)
        ensures
            r@ == (VarDeclV { ident: ident@, ty: ty }),
    {
        VarDecl { ident, ty }
    }
}

/// Mathematical image of a `VarStack`: every declared variable, and the
/// stack of indices into it that are currently visible.
pub ghost struct VarStackV {
    pub vars: Seq<VarDeclV>,
    pub visible: Seq<usize>,
}

impl VarStackV {
    /// Every visible index points at a declared variable.
    pub open spec fn wf(self) -> bool {
        forall|i: int| #![trigger self.visible[i]] 0 <= i < self.visible.len() ==> (self.visible[i] as int) < self.vars.len()
    }

    /// The innermost visible variable with the given name: the visibility
    /// stack is scanned from its end, so a later declaration of the same
    /// name shadows an earlier one.
    pub open spec fn find(self, ident: Seq<char>) -> Option<usize>
        decreases self.visible.len(),
    {
        if self.visible.len() == 0 {
            None
        } else if self.vars[self.visible.last() as int].ident == ident {
            Some(self.visible.last())
        } else {
            (VarStackV { vars: self.vars, visible: self.visible.drop_last() }).find(ident)
        }
    }
}

/// Shadow-aware symbol table used only while compiling one function body:
/// the ordered sequence of all declared variables, plus a separate stack of
/// the indices that are currently visible. Leaving a block truncates the
/// visibility stack; the declarations themselves are kept, since each owns a
/// runtime slot for the whole frame.
#[derive(Clone, Debug)]
pub struct VarStack {
    pub var_stack: Vec<usize>,
    pub vars: Vec<VarDecl>,
}

impl View for VarStack {
    type V = VarStackV;

    open spec fn view(&self) -> VarStackV {
        VarStackV { vars: self.vars@.map_values(|v: VarDecl| v@), visible: self.var_stack@ }
    }
}

impl VarStack {
    pub fn new() -> (r: VarStack)
        ensures
            r@.vars == Seq::<VarDeclV>::empty(),
            r@.visible == Seq::<usize>::empty(),
            r@.wf(),
    {
        VarStack { var_stack: vec![], vars: vec![] }
    }

    /// Declare a variable: it gets the next free slot and becomes the
    /// innermost visible binding of its name.
    pub fn add_var(&mut self, ident: String, ty: Ty) -> (r: usize)
        requires
            old(self)@.wf(),
        ensures
            final(self)@.vars == old(self)@.vars.push(VarDeclV { ident: ident@, ty: ty }),
            final(self)@.visible == old(self)@.visible.push(r),
            r == old(self)@.vars.len(),
            final(self)@.wf(),
    {
        self.vars.push(VarDecl::new(ident, ty));
        let pos = self.vars.len() - 1;
        self.var_stack.push(pos);
        proof {
            assert(self@.vars =~= old(self)@.vars.push(VarDeclV { ident: ident@, ty: ty }));
            assert forall|i: int| 0 <= i < self@.visible.len() implies (#[trigger] self@.visible[i] as int)
                < self@.vars.len() by {
                if i < self@.visible.len() - 1 {
                    assert(self@.visible[i] == old(self)@.visible[i]);
                }
            }
        }
        pos
    }

    /// The slot of the innermost visible variable with the given name, if
    /// any.
    pub fn find_var(&self, ident: &str) -> (r: Option<usize>)
        requires
            self@.wf(),
        ensures
            r == self@.find(ident@),
    {
        let key = String::from_str(ident);
        let mut i: usize = self.var_stack.len();
        proof {
            assert(self@.visible.take(i as int) =~= self@.visible);
        }
        while i > 0
            invariant
                self@.wf(),
                i <= self.var_stack.len(),
                key@ == ident@,
                self@.find(ident@) == (VarStackV { vars: self@.vars, visible: self@.visible.take(i as int) }).find(ident@),
            decreases i,
        {
            i = i - 1;
            let v = self.var_stack[i];
            proof {
                assert(self@.visible.take(i + 1).drop_last() =~= self@.visible.take(i as int));
                assert(self@.visible.take(i + 1).last() == self@.visible[i as int]);
            }
            if self.vars[v].ident == key {
                return Some(v);
            }
        }
        proof {
            assert(self@.visible.take(0) =~= Seq::<usize>::empty());
        }
        None
    }

    /// How many bindings are currently visible. Recorded before entering a
    /// block, so the block's declarations can be dropped on exit.
    pub fn visible_len(&self) -> (r: usize)
        ensures
            r == self@.visible.len(),
    {
        self.var_stack.len()
    }

    /// Drop every binding made since `len` was recorded; the declarations
    /// (and their slots) are kept.
    pub fn truncate_visible(&mut self, len: usize)
        requires
            len <= old(self)@.visible.len(),
        ensures
            final(self)@.vars == old(self)@.vars,
            final(self)@.visible == old(self)@.visible.take(len as int),
            old(self)@.wf() ==> final(self)@.wf(),
    {
        self.var_stack.truncate(len);
    }
}

/// A successful lookup yields the index of one of the declared variables.
pub proof fn lemma_find_valid(vs: VarStackV, ident: Seq<char>)
    requires
        vs.wf(),
        vs.find(ident) is Some,
    ensures
        (vs.find(ident).unwrap() as int) < vs.vars.len(),
    decreases vs.visible.len(),
{
    if vs.visible.len() > 0 && vs.vars[vs.visible.last() as int].ident != ident {
        let inner = VarStackV { vars: vs.vars, visible: vs.visible.drop_last() };
        assert forall|i: int| #![trigger inner.visible[i]] 0 <= i < inner.visible.len() implies (
        inner.visible[i] as int) < inner.vars.len() by {
            assert(inner.visible[i] == vs.visible[i]);
        }
        lemma_find_valid(inner, ident);
    }
}

/// Appending declarations that are not visible does not change what a name
/// resolves to.
pub proof fn lemma_find_append_vars(vs: VarStackV, extra: VarDeclV, ident: Seq<char>)
    requires
        vs.wf(),
    ensures
        (VarStackV { vars: vs.vars.push(extra), visible: vs.visible }).find(ident) == vs.find(ident),
    decreases vs.visible.len(),
{
    if vs.visible.len() > 0 {
        lemma_find_append_vars(
            VarStackV { vars: vs.vars, visible: vs.visible.drop_last() },
            extra,
            ident,
        );
    }
}

/// Block-scoped shadowing. Declaring an inner variable with an already
/// visible name makes lookups of that name find the inner one; once the
/// inner binding is dropped from visibility again (as happens when its block
/// ends), lookups find the outer one, exactly as before.
pub proof fn lemma_shadowing(vs: VarStackV, inner: VarDeclV, outer_slot: usize)
    requires
        vs.wf(),
        vs.find(inner.ident) == Some(outer_slot),
    ensures
        ({
            let pushed = VarStackV {
                vars: vs.vars.push(inner),
                visible: vs.visible.push(vs.vars.len() as usize),
            };
            &&& vs.vars.len() <= usize::MAX ==> pushed.find(inner.ident) == Some(
                vs.vars.len() as usize,
            )
            &&& (VarStackV {
                vars: vs.vars.push(inner),
                visible: pushed.visible.take(vs.visible.len() as int),
            }).find(inner.ident) == Some(outer_slot)
        }),
{
    let pushed = VarStackV {
        vars: vs.vars.push(inner),
        visible: vs.visible.push(vs.vars.len() as usize),
    };
    if vs.vars.len() <= usize::MAX {
        assert(pushed.visible.last() == vs.vars.len() as usize);
        assert(pushed.vars[pushed.visible.last() as int].ident == inner.ident);
    }
    assert(pushed.visible.take(vs.visible.len() as int) =~= vs.visible);
    lemma_find_append_vars(vs, inner, inner.ident);
}

/// A compiled function: its parameters, return type, every local variable
/// declaration (parameters included, ordered by slot id), and its
/// instruction sequence. Immutable once produced.
#[derive(Clone, Debug)]
pub struct Fun {
    pub params: Vec<Param>,
    pub return_ty: Ty,
    pub vars: Vec<VarDecl>,
    pub bytecode: Vec<Bytecode>,
}

/// A compiled module: it is nothing but its scope.
#[derive(Clone, Copy, PartialEq, Eq, Structural, Debug)]
pub struct Mod {
    pub scope_id: ScopeId,
}

impl Mod {
    pub fn new(scope_id: ScopeId) -> (r: Mod)
        ensures
            r.scope_id == scope_id,
    {
        Mod { scope_id }
    }
}

} // verus!
