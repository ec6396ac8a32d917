//! The lazy resolution and scope engine, and the bytecode compiler.
//!
//! Source items are registered into scopes without being compiled; a
//! definition is converted to bytecode only when it is first referenced,
//! and at most once. Scopes and definitions live in append-only arenas and
//! are addressed by plain integer handles.

use vstd::prelude::*;
use vstd::string::StringExecFns;

use crate::ast::{Expr, FnItem, Item, ItemPath, Stmt, Ty, UseTree};
use crate::compile::{
    add_var_s, binop_code, compile_expr_s, compile_stmt_s, compile_stmts_s, fn_terminator,
    fun_matches_item, lemma_no_calls_skip, lemma_size_stmts_member, no_calls_expr, no_calls_stmt,
    no_calls_stmts, params_vs, restore_s, size_expr, size_stmt, size_stmts,
};
use crate::bytecode::{Bytecode, DefinitionId, Fun, Mod, Param, ScopeId, VarStack};

verus! {

/// The signature of a function whose body is being compiled right now.
/// While the body is converted, a re-reference of the same definition (a
/// self-recursive or mutually-recursive call) must resolve to the existing
/// id without forcing a second compilation; the signature is all such a call
/// site needs.
pub struct FnSig {
    pub params: Vec<(String, Ty)>,
    pub return_ty: Ty,
}

/// A registered definition that has not been compiled yet.
pub enum Lazy {
    /// A function item, stored as parsed.
    Fn(FnItem),
    /// A module whose body lives in its own source file; the file has not
    /// been read yet.
    ModFile(String),
}

/// A compiled artifact.
pub enum Processed {
    Fun(Fun),
    Mod(Mod),
}

/// The state of one slot of the definition table. The transition is
/// one-directional: `Lazy` to `InProgress` to `Processed`, never backward,
/// and a `Processed` slot never changes again.
pub enum DefinitionState {
    Lazy(Lazy),
    InProgress(FnSig),
    Processed(Processed),
}

/// A fatal condition. The engine has no recoverable-error tier: any of
/// these aborts the whole operation that triggered it, and a driver is
/// expected to stop on them.
#[derive(Debug)]
pub enum Fatal {
    /// A required definition is missing or was not pre-registered.
    DefinitionNotFound(String),
    /// A path segment or `use` prefix named something that is not a module.
    NotAModule(String),
    /// A definition expected to be a function is a module.
    NotAFunction(String),
    /// The named definition is a file-backed module that has to be read
    /// first: the driver must load the file, parse it, and hand its items to
    /// `provide_module` for this definition id.
    NeedsModuleFile(DefinitionId, String),
    /// Operand or result types do not fit the operation.
    TypeMismatch,
    /// A call supplies the wrong number of arguments.
    ArityMismatch,
    /// A name in expression position is not a visible variable.
    VariableNotFound(String),
    /// An item in statement position inside a function body.
    UnsupportedStatement,
    /// A path with no segments.
    EmptyPath,
    /// One function body needs more instructions than the platform can
    /// address; unreachable in practice.
    FunctionTooLarge,
    /// The engine's recursion budget ran out; on any realistic input this
    /// is unreachable.
    OutOfFuel,
}

/// One lexical scope: an optional parent (a weak back-link, always to an
/// older scope), a flag marking module boundaries that plain lookups do not
/// ascend past, and the name-to-definition bindings made in this scope. A
/// later binding of the same name overwrites an earlier one, which lookup
/// realizes by scanning from the end.
pub struct Scope {
    pub parent: Option<ScopeId>,
    pub is_mod: bool,
    pub definitions: Vec<(String, DefinitionId)>,
}

/// What a name is bound to in one scope: the latest binding wins.
pub open spec fn scope_find(defs: Seq<(String, DefinitionId)>, name: Seq<char>) -> Option<DefinitionId>
    decreases defs.len(),
{
    if defs.len() == 0 {
        None
    } else if defs.last().0@ == name {
        Some(defs.last().1)
    } else {
        scope_find(defs.drop_last(), name)
    }
}

/// A found binding is one of the recorded bindings, so any bound on the
/// recorded definition ids bounds the result.
pub proof fn lemma_scope_find_valid(defs: Seq<(String, DefinitionId)>, name: Seq<char>, bound: int)
    requires
        forall|k: int| 0 <= k < defs.len() ==> (#[trigger] defs[k]).1 < bound,
        scope_find(defs, name) is Some,
    ensures
        scope_find(defs, name).unwrap() < bound,
    decreases defs.len(),
{
    if defs.len() > 0 && defs.last().0@ != name {
        lemma_scope_find_valid(defs.drop_last(), name, bound);
    }
}

/// A name that stands in the binding list is found by lookup (the latest
/// binding of it, in particular some binding of it).
pub proof fn lemma_scope_find_present(defs: Seq<(String, DefinitionId)>, m: int)
    requires
        0 <= m < defs.len(),
    ensures
        scope_find(defs, defs[m].0@) is Some,
    decreases defs.len(),
{
    if defs.last().0@ != defs[m].0@ {
        lemma_scope_find_present(defs.drop_last(), m);
    }
}

impl Scope {
    pub fn new(parent: Option<ScopeId>, is_mod: bool) -> (r: Scope)
        ensures
            r.parent == parent,
            r.is_mod == is_mod,
            r.definitions@ == Seq::<(String, DefinitionId)>::empty(),
    {
        Scope { parent, is_mod, definitions: Vec::new() }
    }

    /// The definition the given name is bound to in this scope alone.
    pub fn get(&self, name: &str) -> (r: Option<DefinitionId>)
        ensures
            r == scope_find(self.definitions@, name@),
    {
        let key = String::from_str(name);
        let mut i: usize = self.definitions.len();
        proof {
            assert(self.definitions@.take(i as int) =~= self.definitions@);
        }
        while i > 0
            invariant
                i <= self.definitions@.len(),
                key@ == name@,
                scope_find(self.definitions@, name@) == scope_find(
                    self.definitions@.take(i as int),
                    name@,
                ),
            decreases i,
        {
            i = i - 1;
            proof {
                assert(self.definitions@.take(i + 1).drop_last() =~= self.definitions@.take(i as int));
                assert(self.definitions@.take(i + 1).last() == self.definitions@[i as int]);
            }
            if self.definitions[i].0 == key {
                return Some(self.definitions[i].1);
            }
        }
        proof {
            assert(self.definitions@.take(0) =~= Seq::<(String, DefinitionId)>::empty());
        }
        None
    }
}

/// Walk from the scope with index `sid` upward through parent links until
/// the name is found. Module-boundary scopes are terminal: the walk never
/// ascends past one. Yields the binding's definition id and the scope it
/// was found in.
pub open spec fn chain_lookup(scopes: Seq<Scope>, name: Seq<char>, sid: int) -> Option<(DefinitionId, int)>
    decreases sid,
{
    if sid < 0 || sid >= scopes.len() {
        None
    } else {
        match scope_find(scopes[sid].definitions@, name) {
            Some(d) => Some((d, sid)),
            None => {
                if scopes[sid].is_mod {
                    None
                } else {
                    match scopes[sid].parent {
                        Some(p) => if (p as int) < sid {
                            chain_lookup(scopes, name, p as int)
                        } else {
                            None
                        },
                        None => None,
                    }
                }
            },
        }
    }
}

/// A successful chain lookup ends in a scope whose own bindings contain the
/// name, and looking up from that scope finds the same binding.
pub proof fn lemma_chain_found(scopes: Seq<Scope>, name: Seq<char>, sid: int)
    requires
        chain_lookup(scopes, name, sid) is Some,
    ensures
        ({
            let (d, f) = chain_lookup(scopes, name, sid).unwrap();
            &&& 0 <= f < scopes.len()
            &&& scope_find(scopes[f].definitions@, name) == Some(d)
            &&& chain_lookup(scopes, name, f) == Some((d, f))
        }),
    decreases sid,
{
    if 0 <= sid < scopes.len() && scope_find(scopes[sid].definitions@, name) is None {
        if !scopes[sid].is_mod {
            if let Some(p) = scopes[sid].parent {
                if (p as int) < sid {
                    lemma_chain_found(scopes, name, p as int);
                }
            }
        }
    }
}

/// The outermost ancestor of a scope: follow parent links to the root of
/// its chain. A leading path separator starts resolution here.
pub open spec fn top_scope(scopes: Seq<Scope>, sid: int) -> int
    decreases sid,
{
    if 0 <= sid < scopes.len() {
        match scopes[sid].parent {
            Some(p) => if (p as int) < sid {
                top_scope(scopes, p as int)
            } else {
                sid
            },
            None => sid,
        }
    } else {
        sid
    }
}

/// The scope a `use` declaration resolves from: the enclosing module
/// boundary — the nearest module-boundary scope on the parent chain (or the
/// chain's root, when none is marked).
pub open spec fn use_base(scopes: Seq<Scope>, sid: int) -> int
    decreases sid,
{
    if 0 <= sid < scopes.len() {
        if scopes[sid].is_mod {
            sid
        } else {
            match scopes[sid].parent {
                Some(p) => if (p as int) < sid {
                    use_base(scopes, p as int)
                } else {
                    sid
                },
                None => sid,
            }
        }
    } else {
        sid
    }
}

/// Resolution of a path's segments, from segment `si` in scope `sid`: every
/// segment but the last must name a compiled module, and the search
/// descends into that module's own scope; the last segment resolves as an
/// ordinary definition. `None` is the fatal outcome: a segment that does
/// not resolve, a non-module (or not-yet-read file module) in module
/// position.
pub open spec fn path_walk(
    scopes: Seq<Scope>,
    defs: Seq<DefinitionState>,
    segments: Seq<String>,
    si: int,
    sid: int,
) -> Option<(DefinitionId, int)>
    decreases segments.len() - si,
{
    if si < 0 || si >= segments.len() {
        None
    } else if si == segments.len() - 1 {
        chain_lookup(scopes, segments[si]@, sid)
    } else {
        match chain_lookup(scopes, segments[si]@, sid) {
            Some(p) => match defs[p.0 as int] {
                DefinitionState::Processed(Processed::Mod(m)) => path_walk(
                    scopes,
                    defs,
                    segments,
                    si + 1,
                    m.scope_id as int,
                ),
                _ => None,
            },
            None => None,
        }
    }
}

/// Evolution of one definition slot: lazy definitions may begin or finish
/// compilation but are never replaced, and a processed definition never
/// changes again.
pub open spec fn def_evolves(a: DefinitionState, b: DefinitionState) -> bool {
    match a {
        DefinitionState::Lazy(_) => (b matches DefinitionState::Lazy(_) ==> b == a),
        DefinitionState::InProgress(_) => !(b matches DefinitionState::Lazy(_)),
        DefinitionState::Processed(_) => b == a,
    }
}

/// The definition is a compiled function.
pub open spec fn def_is_fun(d: DefinitionState) -> bool {
    d matches DefinitionState::Processed(Processed::Fun(_))
}

/// The definition is a compiled module.
pub open spec fn def_is_mod(d: DefinitionState) -> bool {
    d matches DefinitionState::Processed(Processed::Mod(_))
}

/// The definition needs no further work before it can be referenced: it is
/// compiled, or its compilation is already under way further down the call
/// stack.
pub open spec fn def_is_settled(d: DefinitionState) -> bool {
    d is Processed || d is InProgress
}

/// A plainly registrable item: a function, or a file-backed module. Either
/// is stored as one lazy definition and bound in the target scope, with no
/// immediate resolution work.
pub open spec fn item_is_plain(it: Item) -> bool {
    it matches Item::Fn(_) || it matches Item::ModFile(_)
}

/// Every item of the sequence is plainly registrable.
pub open spec fn items_all_plain(items: Seq<Item>) -> bool {
    forall|k: int| 0 <= k < items.len() ==> item_is_plain(#[trigger] items[k])
}

/// The lazy definition a plainly registrable item is stored as.
pub open spec fn lazy_of(it: Item) -> DefinitionState {
    match it {
        Item::Fn(f) => DefinitionState::Lazy(Lazy::Fn(f)),
        Item::ModFile(n) => DefinitionState::Lazy(Lazy::ModFile(n)),
        _ => arbitrary(),
    }
}

/// The binding a plainly registrable item makes: its name, mapped to the
/// definition id it was stored under.
pub open spec fn plain_binding(it: Item, id: DefinitionId) -> (String, DefinitionId) {
    match it {
        Item::Fn(f) => (f.name, id),
        Item::ModFile(n) => (n, id),
        _ => arbitrary(),
    }
}

/// The lazy definitions a sequence of plainly registrable items is stored
/// as, in order.
pub open spec fn lazies_of(items: Seq<Item>) -> Seq<DefinitionState> {
    Seq::new(items.len(), |k: int| lazy_of(items[k]))
}

/// The bindings a sequence of plainly registrable items makes when their
/// definitions are stored starting at id `base`.
pub open spec fn plain_bindings(items: Seq<Item>, base: int) -> Seq<(String, DefinitionId)> {
    Seq::new(items.len(), |k: int| plain_binding(items[k], (base + k) as DefinitionId))
}

/// Monotonic growth of the engine: both arenas only grow, and every
/// pre-existing definition only evolves forward.
pub open spec fn grows(pre: BytecodeEngine, post: BytecodeEngine) -> bool {
    &&& pre.scopes@.len() <= post.scopes@.len()
    &&& pre.definitions@.len() <= post.definitions@.len()
    &&& forall|j: int|
        0 <= j < pre.definitions@.len() ==> def_evolves(
            pre.definitions@[j],
            #[trigger] post.definitions@[j],
        )
}

pub proof fn lemma_grows_trans(a: BytecodeEngine, b: BytecodeEngine, c: BytecodeEngine)
    requires
        grows(a, b),
        grows(b, c),
    ensures
        grows(a, c),
{
    assert forall|j: int| 0 <= j < a.definitions@.len() implies def_evolves(
        a.definitions@[j],
        #[trigger] c.definitions@[j],
    ) by {
        assert(def_evolves(a.definitions@[j], b.definitions@[j]));
        assert(def_evolves(b.definitions@[j], c.definitions@[j]));
    }
}

/// No scope that already existed is touched at all.
pub open spec fn scopes_preserved(pre: BytecodeEngine, post: BytecodeEngine) -> bool {
    forall|i: int| 0 <= i < pre.scopes@.len() ==> pre.scopes@[i] == #[trigger] post.scopes@[i]
}

/// Every scope that already existed is untouched, except the one with index
/// `t`, which keeps its parent and boundary flag and only gains bindings at
/// the end of its list.
pub open spec fn scopes_preserved_except(pre: BytecodeEngine, post: BytecodeEngine, t: int) -> bool {
    &&& forall|i: int|
        0 <= i < pre.scopes@.len() && i != t ==> pre.scopes@[i] == #[trigger] post.scopes@[i]
    &&& 0 <= t < pre.scopes@.len() ==> {
        &&& post.scopes@[t].parent == pre.scopes@[t].parent
        &&& post.scopes@[t].is_mod == pre.scopes@[t].is_mod
        &&& pre.scopes@[t].definitions@.is_prefix_of(post.scopes@[t].definitions@)
    }
}

/// Definitions that are being compiled right now are left alone by
/// everything except the call frame that began compiling them.
pub open spec fn inprogress_frozen(pre: BytecodeEngine, post: BytecodeEngine) -> bool {
    forall|j: int|
        0 <= j < pre.definitions@.len() && (#[trigger] pre.definitions@[j]) is InProgress
            ==> post.definitions@[j] == pre.definitions@[j]
}

/// No definition is left freshly under compilation: a slot that is
/// `InProgress` afterwards was already `InProgress` before. Compilation in
/// progress is therefore invisible outside the call frame that began it:
/// an engine without `InProgress` slots never gains one across a call.
pub open spec fn no_new_inprogress(pre: BytecodeEngine, post: BytecodeEngine) -> bool {
    forall|j: int|
        0 <= j < pre.definitions@.len() ==> ((#[trigger] post.definitions@[j]) is InProgress
            ==> pre.definitions@[j] is InProgress)
}

/// What every step of on-demand resolution and compilation guarantees about
/// the engine: it stays well formed, definitions only evolve forward, no
/// definition is added, definitions under compilation are left alone, and
/// the scope arena is not touched at all.
pub open spec fn resolution_frame(pre: BytecodeEngine, post: BytecodeEngine) -> bool {
    &&& post.wf()
    &&& grows(pre, post)
    &&& inprogress_frozen(pre, post)
    &&& no_new_inprogress(pre, post)
    &&& post.scopes@ == pre.scopes@
    &&& post.definitions@.len() == pre.definitions@.len()
}

pub proof fn lemma_resolution_frame_trans(a: BytecodeEngine, b: BytecodeEngine, c: BytecodeEngine)
    requires
        resolution_frame(a, b),
        resolution_frame(b, c),
    ensures
        resolution_frame(a, c),
{
    lemma_grows_trans(a, b, c);
    assert forall|j: int|
        0 <= j < a.definitions@.len() && (#[trigger] a.definitions@[j]) is InProgress implies c
            .definitions@[j] == a.definitions@[j] by {
        assert(b.definitions@[j] == a.definitions@[j]);
    }
    assert forall|j: int|
        0 <= j < a.definitions@.len() && (#[trigger] c.definitions@[j]) is InProgress implies a
            .definitions@[j] is InProgress by {
        assert(b.definitions@[j] is InProgress);
    }
}

/// What every step of registration guarantees: the engine stays well
/// formed, it only grows, definitions under compilation are left alone, and
/// of the scopes that already existed only the target scope `t` changes,
/// and only by gaining bindings.
pub open spec fn registration_frame(pre: BytecodeEngine, post: BytecodeEngine, t: int) -> bool {
    &&& post.wf()
    &&& grows(pre, post)
    &&& inprogress_frozen(pre, post)
    &&& no_new_inprogress(pre, post)
    &&& scopes_preserved_except(pre, post, t)
}

pub proof fn lemma_registration_frame_trans(
    a: BytecodeEngine,
    b: BytecodeEngine,
    c: BytecodeEngine,
    t: int,
)
    requires
        registration_frame(a, b, t),
        registration_frame(b, c, t),
    ensures
        registration_frame(a, c, t),
{
    lemma_grows_trans(a, b, c);
    assert forall|j: int|
        0 <= j < a.definitions@.len() && (#[trigger] a.definitions@[j]) is InProgress implies c
            .definitions@[j] == a.definitions@[j] by {
        assert(b.definitions@[j] == a.definitions@[j]);
    }
    assert forall|j: int|
        0 <= j < a.definitions@.len() && (#[trigger] c.definitions@[j]) is InProgress implies a
            .definitions@[j] is InProgress by {
        assert(b.definitions@[j] is InProgress);
    }
    assert forall|i: int|
        0 <= i < a.scopes@.len() && i != t implies a.scopes@[i] == #[trigger] c.scopes@[i] by {
        assert(a.scopes@[i] == b.scopes@[i]);
    }
    if 0 <= t < a.scopes@.len() {
        assert(a.scopes@[t].definitions@.is_prefix_of(c.scopes@[t].definitions@));
    }
}

/// A resolution step is also a registration step for any target scope.
pub proof fn lemma_resolution_is_registration(a: BytecodeEngine, b: BytecodeEngine, t: int)
    requires
        resolution_frame(a, b),
        0 <= t < a.scopes@.len(),
    ensures
        registration_frame(a, b, t),
{
    assert(a.scopes@[t].definitions@.is_prefix_of(b.scopes@[t].definitions@));
}

/// Copy a parameter list.
fn clone_params(src: &Vec<(String, Ty)>) -> (r: Vec<(String, Ty)>)
    ensures
        r@ == src@,
{
    let mut r: Vec<(String, Ty)> = Vec::new();
    let mut i: usize = 0;
    while i < src.len()
        invariant
            i <= src@.len(),
            r@ == src@.take(i as int),
        decreases src@.len() - i,
    {
        r.push((src[i].0.clone(), src[i].1));
        proof {
            assert(r@ =~= src@.take(i + 1));
        }
        i = i + 1;
    }
    proof {
        assert(src@.take(src@.len() as int) =~= src@);
    }
    r
}

/// Prefixes compose.
pub proof fn lemma_prefix_trans<A>(a: Seq<A>, b: Seq<A>, c: Seq<A>)
    requires
        a.is_prefix_of(b),
        b.is_prefix_of(c),
    ensures
        a.is_prefix_of(c),
{
    assert(a =~= c.subrange(0, a.len() as int));
}

/// The engine: the scope arena, and the definition table. Scope 0 is the
/// root; it always exists, has no parent, and is a module boundary.
pub struct BytecodeEngine {
    pub scopes: Vec<Scope>,
    pub definitions: Vec<DefinitionState>,
}

impl BytecodeEngine {
    /// Well-formedness: the root scope is as stated, parent links always
    /// point to older scopes, every binding names an existing definition,
    /// and every compiled module descriptor names an existing scope.
    pub open spec fn wf(self) -> bool {
        &&& self.scopes@.len() >= 1
        &&& self.scopes@[0].parent is None
        &&& self.scopes@[0].is_mod
        &&& forall|i: int|
            0 <= i < self.scopes@.len() ==> match (#[trigger] self.scopes@[i]).parent {
                Some(p) => (p as int) < i,
                None => true,
            }
        &&& forall|i: int, k: int|
            0 <= i < self.scopes@.len() && 0 <= k < self.scopes@[i].definitions@.len()
                ==> (#[trigger] self.scopes@[i].definitions@[k]).1 < self.definitions@.len()
        &&& forall|j: int|
            0 <= j < self.definitions@.len() ==> match #[trigger] self.definitions@[j] {
                DefinitionState::Processed(Processed::Mod(m)) => (m.scope_id as int)
                    < self.scopes@.len(),
                _ => true,
            }
    }

    /// A fresh engine: one empty root scope, no definitions.
    pub fn new() -> (r: BytecodeEngine)
        ensures
            r.wf(),
            r.scopes@.len() == 1,
            r.scopes@[0].definitions@ == Seq::<(String, DefinitionId)>::empty(),
            r.definitions@ == Seq::<DefinitionState>::empty(),
    {
        let mut scopes: Vec<Scope> = Vec::new();
        scopes.push(Scope::new(None, true));
        BytecodeEngine { scopes, definitions: Vec::new() }
    }

    /// How many definitions have been registered so far.
    pub fn definition_count(&self) -> (r: usize)
        ensures
            r == self.definitions@.len(),
    {
        self.definitions.len()
    }

    /// How many scopes exist so far.
    pub fn scope_count(&self) -> (r: usize)
        ensures
            r == self.scopes@.len(),
    {
        self.scopes.len()
    }

    /// Whether the definition with the given id is still unresolved (its
    /// body has never been needed). Ids at or past the table length yield
    /// `false`.
    pub fn definition_is_unresolved(&self, definition_id: DefinitionId) -> (r: bool)
        ensures
            r == ((definition_id as int) < self.definitions@.len()
                && self.definitions@[definition_id as int] matches DefinitionState::Lazy(_)),
    {
        if definition_id < self.definitions.len() {
            match &self.definitions[definition_id] {
                DefinitionState::Lazy(_) => true,
                _ => false,
            }
        } else {
            false
        }
    }

    /// Append a binding to a scope's list; lookup makes it shadow any older
    /// binding of the same name.
    fn insert_binding(&mut self, sid: ScopeId, name: String, id: DefinitionId)
        requires
            old(self).wf(),
            (sid as int) < old(self).scopes@.len(),
            (id as int) < old(self).definitions@.len(),
        ensures
            final(self).wf(),
            final(self).definitions@ == old(self).definitions@,
            final(self).scopes@.len() == old(self).scopes@.len(),
            forall|i: int|
                0 <= i < old(self).scopes@.len() && i != sid as int ==> old(self).scopes@[i]
                    == #[trigger] final(self).scopes@[i],
            final(self).scopes@[sid as int].parent == old(self).scopes@[sid as int].parent,
            final(self).scopes@[sid as int].is_mod == old(self).scopes@[sid as int].is_mod,
            final(self).scopes@[sid as int].definitions@ == old(self).scopes@[
                sid as int
            ].definitions@.push((name, id)),
    {
        let sc = &mut self.scopes[sid];
        sc.definitions.push((name, id));
        proof {
            assert forall|i: int, k: int|
                0 <= i < self.scopes@.len() && 0 <= k < self.scopes@[i].definitions@.len() implies (
            #[trigger] self.scopes@[i].definitions@[k]).1 < self.definitions@.len() by {
                if i == sid as int {
                    if k < self.scopes@[i].definitions@.len() - 1 {
                        assert(self.scopes@[i].definitions@[k] == old(self).scopes@[i].definitions@[k]);
                    }
                } else {
                    assert(self.scopes@[i] == old(self).scopes@[i]);
                }
            }
        }
    }

    /// Find the definition id for the given name, starting at the given
    /// scope and working up through the scope chain; the matching definition
    /// id is returned with the scope it was found in. Module-boundary
    /// scopes are terminal: lookup does not ascend past one. A miss is the
    /// fatal missing-definition condition, reported as an error value.
    pub fn get_defn(&self, defn_name: &str, starting_scope_id: ScopeId) -> (r: Result<
        (DefinitionId, ScopeId),
        Fatal,
    >)
        requires
            self.wf(),
            (starting_scope_id as int) < self.scopes@.len(),
        ensures
            match r {
                Ok((d, f)) => {
                    &&& chain_lookup(self.scopes@, defn_name@, starting_scope_id as int) == Some(
                        (d, f as int),
                    )
                    &&& (f as int) < self.scopes@.len()
                    &&& (d as int) < self.definitions@.len()
                    &&& scope_find(self.scopes@[f as int].definitions@, defn_name@) == Some(d)
                },
                Err(e) => {
                    &&& chain_lookup(self.scopes@, defn_name@, starting_scope_id as int) is None
                    &&& e matches Fatal::DefinitionNotFound(n) && n@ == defn_name@
                },
            },
    {
        let mut current: ScopeId = starting_scope_id;
        loop
            invariant
                self.wf(),
                (current as int) < self.scopes@.len(),
                chain_lookup(self.scopes@, defn_name@, starting_scope_id as int) == chain_lookup(
                    self.scopes@,
                    defn_name@,
                    current as int,
                ),
            decreases current,
        {
            if let Some(d) = self.scopes[current].get(defn_name) {
                proof {
                    lemma_scope_find_valid(
                        self.scopes@[current as int].definitions@,
                        defn_name@,
                        self.definitions@.len() as int,
                    );
                }
                return Ok((d, current));
            }
            if self.scopes[current].is_mod {
                return Err(Fatal::DefinitionNotFound(String::from_str(defn_name)));
            }
            match self.scopes[current].parent {
                Some(p) => {
                    current = p;
                },
                None => {
                    return Err(Fatal::DefinitionNotFound(String::from_str(defn_name)));
                },
            }
        }
    }

    /// The compiled function the given name resolves to, if the name
    /// resolves and its definition has been processed into a function.
    pub fn try_get_fn(&self, defn_name: &str, scope_id: ScopeId) -> (r: Option<&Fun>)
        requires
            self.wf(),
            (scope_id as int) < self.scopes@.len(),
        ensures
            match r {
                Some(f) => {
                    &&& chain_lookup(self.scopes@, defn_name@, scope_id as int) matches Some(p)
                        && self.definitions@[p.0 as int] == DefinitionState::Processed(
                        Processed::Fun(*f),
                    )
                },
                None => !(chain_lookup(self.scopes@, defn_name@, scope_id as int) matches Some(p)
                    && self.definitions@[p.0 as int] matches DefinitionState::Processed(
                    Processed::Fun(_),
                )),
            },
    {
        match self.get_defn(defn_name, scope_id) {
            Ok((d, _)) => match &self.definitions[d] {
                DefinitionState::Processed(Processed::Fun(f)) => Some(f),
                _ => None,
            },
            Err(_) => None,
        }
    }

    /// The bytecoded function for the given name. Asking for a name that
    /// does not resolve to an already compiled function is a programming
    /// error, excluded by precondition; `try_get_fn` is the total variant.
    pub fn get_fn(&self, defn_name: &str, scope_id: ScopeId) -> (r: &Fun)
        requires
            self.wf(),
            (scope_id as int) < self.scopes@.len(),
            chain_lookup(self.scopes@, defn_name@, scope_id as int) matches Some(p)
                && self.definitions@[p.0 as int] matches DefinitionState::Processed(
                Processed::Fun(_),
            ),
        ensures
            chain_lookup(self.scopes@, defn_name@, scope_id as int) matches Some(p)
                && self.definitions@[p.0 as int] == DefinitionState::Processed(Processed::Fun(*r)),
    {
        match self.try_get_fn(defn_name, scope_id) {
            Some(f) => f,
            None => {
                proof {
                    assert(false);
                }
                vstd::pervasive::unreached()
            },
        }
    }

    /// Resolve a name that must denote a module. Never mutates: inline
    /// module bodies get their scope the moment they are registered, so the
    /// only unprocessed module this can meet is a file-backed one, and
    /// reading files is the driver's work — reported by the
    /// `NeedsModuleFile` condition carrying the definition id and module
    /// name.
    pub fn process_mod(&self, mod_name: &str, scope_id: ScopeId) -> (r: Result<DefinitionId, Fatal>)
        requires
            self.wf(),
            (scope_id as int) < self.scopes@.len(),
        ensures
            match r {
                Ok(id) => {
                    &&& chain_lookup(self.scopes@, mod_name@, scope_id as int) matches Some(p)
                        && p.0 == id
                    &&& self.definitions@[id as int] matches DefinitionState::Processed(
                        Processed::Mod(_),
                    )
                    &&& (id as int) < self.definitions@.len()
                },
                Err(e) => match e {
                    Fatal::NeedsModuleFile(id, f) => {
                        &&& chain_lookup(self.scopes@, mod_name@, scope_id as int) matches Some(p)
                            && p.0 == id
                        &&& self.definitions@[id as int] matches DefinitionState::Lazy(
                            Lazy::ModFile(g),
                        ) && g@ == f@
                    },
                    Fatal::DefinitionNotFound(n) => {
                        &&& chain_lookup(self.scopes@, mod_name@, scope_id as int) is None
                        &&& n@ == mod_name@
                    },
                    Fatal::NotAModule(n) => {
                        &&& chain_lookup(self.scopes@, mod_name@, scope_id as int) matches Some(p)
                            && !(self.definitions@[p.0 as int]
                            matches DefinitionState::Processed(Processed::Mod(_))) && !(
                        self.definitions@[p.0 as int] matches DefinitionState::Lazy(
                            Lazy::ModFile(_),
                        ))
                        &&& n@ == mod_name@
                    },
                    _ => false,
                },
            },
    {
        let (id, _found) = match self.get_defn(mod_name, scope_id) {
            Ok(p) => p,
            Err(e) => {
                return Err(e);
            },
        };
        match &self.definitions[id] {
            DefinitionState::Processed(Processed::Mod(_)) => Ok(id),
            DefinitionState::Lazy(Lazy::ModFile(f)) => Err(
                Fatal::NeedsModuleFile(id, f.clone()),
            ),
            _ => Err(Fatal::NotAModule(String::from_str(mod_name))),
        }
    }
}

/// Recursion budget for one top-level engine operation. Resolution and
/// compilation recurse together (a call being compiled may force the callee
/// to be compiled first); the budget bounds that recursion depth, and no
/// realistic program comes anywhere near it.
pub const PROCESS_FUEL: u64 = 1000000;

/// Step budget for one end-to-end evaluation: evaluation reports running
/// out rather than diverging, and no terminating run on this machine can
/// take more steps than this.
pub const EVAL_FUEL: u64 = 0xffff_ffff_ffff_ffff;

impl BytecodeEngine {
    /// Resolve a name and make sure its definition is processed, converting
    /// it if this is its first reference. Resolving an already processed
    /// definition returns the same id and changes nothing.
    fn process_defn_inner(&mut self, name: &str, scope_id: ScopeId, fuel: u64) -> (r: Result<
        DefinitionId,
        Fatal,
    >)
        requires
            old(self).wf(),
            (scope_id as int) < old(self).scopes@.len(),
        ensures
            resolution_frame(*old(self), *final(self)),
            r matches Ok(id) ==> {
                &&& chain_lookup(old(self).scopes@, name@, scope_id as int) matches Some(p)
                    && p.0 == id
                &&& (id as int) < final(self).definitions@.len()
                &&& def_is_settled(final(self).definitions@[id as int])
            },
            fuel >= 1 ==> ({
                let c = chain_lookup(old(self).scopes@, name@, scope_id as int);
                (c is Some && !(old(self).definitions@[c.unwrap().0 as int] is Lazy)) ==> (
                *final(self) == *old(self) && r == Ok::<DefinitionId, Fatal>(c.unwrap().0))
            }),
            chain_lookup(old(self).scopes@, name@, scope_id as int) is None ==> r is Err
                && *final(self) == *old(self),
            fuel >= 2 ==> ({
                let c = chain_lookup(old(self).scopes@, name@, scope_id as int);
                c is Some ==> (old(self).definitions@[c.unwrap().0 as int]
                    matches DefinitionState::Lazy(Lazy::Fn(f)) ==> ((no_calls_stmts(f.body@)
                    && fuel > size_stmts(f.body@) + 3 && compile_stmts_s(
                    f.body@,
                    params_vs(f.params@),
                    f.return_ty,
                ) is Some) ==> r is Ok))
            }),
        decreases fuel,
    {
        if fuel == 0 {
            return Err(Fatal::OutOfFuel);
        }
        let (id, found) = match self.get_defn(name, scope_id) {
            Ok(p) => p,
            Err(e) => {
                return Err(e);
            },
        };
        proof {
            lemma_chain_found(self.scopes@, name@, scope_id as int);
        }
        let kind: u8 = match &self.definitions[id] {
            DefinitionState::Lazy(Lazy::Fn(_)) => 0,
            DefinitionState::Lazy(Lazy::ModFile(_)) => 1,
            _ => 2,
        };
        if kind == 0 {
            self.process_fn_inner(name, found, fuel - 1)
        } else if kind == 1 {
            self.process_mod(name, found)
        } else {
            Ok(id)
        }
    }

    /// Resolve a name to a function definition and compile it if this is its
    /// first reference. Definitions referenced by the body are processed as
    /// they are met. A definition already processed, or currently being
    /// compiled further down the stack, is returned as it is.
    fn process_fn_inner(&mut self, fn_name: &str, scope_id: ScopeId, fuel: u64) -> (r: Result<
        DefinitionId,
        Fatal,
    >)
        requires
            old(self).wf(),
            (scope_id as int) < old(self).scopes@.len(),
        ensures
            resolution_frame(*old(self), *final(self)),
            r matches Ok(id) ==> {
                &&& chain_lookup(old(self).scopes@, fn_name@, scope_id as int) matches Some(p)
                    && p.0 == id
                &&& (id as int) < final(self).definitions@.len()
                &&& (def_is_fun(final(self).definitions@[id as int]) || final(self).definitions@[
                    id as int
                ] is InProgress)
            },
            fuel >= 1 ==> ({
                let c = chain_lookup(old(self).scopes@, fn_name@, scope_id as int);
                (c is Some && !(old(self).definitions@[c.unwrap().0 as int] is Lazy) && !def_is_mod(
                    old(self).definitions@[c.unwrap().0 as int],
                )) ==> (*final(self) == *old(self) && r == Ok::<DefinitionId, Fatal>(
                    c.unwrap().0,
                ))
            }),
            fuel >= 1 ==> ({
                let c = chain_lookup(old(self).scopes@, fn_name@, scope_id as int);
                c is Some ==> (old(self).definitions@[c.unwrap().0 as int]
                    matches DefinitionState::Lazy(Lazy::Fn(f)) ==> (r is Ok ==> (
                final(self).definitions@[c.unwrap().0 as int]
                    matches DefinitionState::Processed(Processed::Fun(fun))
                    && fun_matches_item(fun, f))))
            }),
            fuel >= 1 ==> ({
                let c = chain_lookup(old(self).scopes@, fn_name@, scope_id as int);
                c is Some ==> (old(self).definitions@[c.unwrap().0 as int]
                    matches DefinitionState::Lazy(Lazy::Fn(f)) ==> ((no_calls_stmts(f.body@)
                    && fuel > size_stmts(f.body@) + 2 && compile_stmts_s(
                    f.body@,
                    params_vs(f.params@),
                    f.return_ty,
                ) is Some) ==> r is Ok))
            }),
        decreases fuel,
    {
        if fuel == 0 {
            return Err(Fatal::OutOfFuel);
        }
        let (id, found) = match self.get_defn(fn_name, scope_id) {
            Ok(p) => p,
            Err(e) => {
                return Err(e);
            },
        };
        proof {
            lemma_chain_found(self.scopes@, fn_name@, scope_id as int);
        }
        let sig: FnSig = match &self.definitions[id] {
            DefinitionState::Lazy(Lazy::Fn(f)) => FnSig {
                params: clone_params(&f.params),
                return_ty: f.return_ty,
            },
            DefinitionState::Processed(Processed::Fun(_)) => {
                return Ok(id);
            },
            DefinitionState::InProgress(_) => {
                return Ok(id);
            },
            _ => {
                return Err(Fatal::NotAFunction(String::from_str(fn_name)));
            },
        };
        let mut taken = DefinitionState::InProgress(sig);
        core::mem::swap(&mut taken, &mut self.definitions[id]);
        let f: FnItem = match taken {
            DefinitionState::Lazy(Lazy::Fn(f)) => f,
            _ => {
                proof {
                    assert(false);
                }
                vstd::pervasive::unreached()
            },
        };
        proof {
            assert forall|i: int, k: int|
                0 <= i < self.scopes@.len() && 0 <= k < self.scopes@[i].definitions@.len() implies (
            #[trigger] self.scopes@[i].definitions@[k]).1 < self.definitions@.len() by {
                assert(self.scopes@[i] == old(self).scopes@[i]);
            }
        }
        let ghost mid = *self;
        let fun = match self.convert_fn_inner(&f, found, fuel - 1) {
            Ok(fun) => fun,
            Err(e) => {
                // the conversion did not happen: put the raw item back, so
                // that a later reference (for example after the driver has
                // provided a missing module file) compiles it afresh
                proof {
                    if no_calls_stmts(f.body@) && fuel > size_stmts(f.body@) + 2
                        && compile_stmts_s(
                        f.body@,
                        params_vs(f.params@),
                        f.return_ty,
                    ) is Some {
                        assert(false);
                    }
                }
                proof {
                    assert(self.definitions@[id as int] == mid.definitions@[id as int]);
                    assert((id as int) < self.definitions@.len());
                }
                let ghost mid2 = *self;
                self.definitions[id] = DefinitionState::Lazy(Lazy::Fn(f));
                proof {
                    assert(self.definitions@[id as int] == old(self).definitions@[id as int]);
                    assert forall|i: int, k: int|
                        0 <= i < self.scopes@.len() && 0 <= k < self.scopes@[
                            i
                        ].definitions@.len() implies (#[trigger] self.scopes@[i].definitions@[k]).1
                        < self.definitions@.len() by {
                        assert(self.scopes@[i] == old(self).scopes@[i]);
                    }
                    assert forall|j: int| 0 <= j < old(self).definitions@.len() implies def_evolves(
                        old(self).definitions@[j],
                        #[trigger] self.definitions@[j],
                    ) by {
                        if j != id as int {
                            assert(self.definitions@[j] == mid2.definitions@[j]);
                            assert(def_evolves(old(self).definitions@[j], mid2.definitions@[j]));
                        }
                    }
                    assert forall|j: int|
                        0 <= j < old(self).definitions@.len() && (#[trigger] old(
                            self,
                        ).definitions@[j]) is InProgress implies self.definitions@[j] == old(
                        self,
                    ).definitions@[j] by {
                        assert(j != id as int);
                        assert(self.definitions@[j] == mid2.definitions@[j]);
                    }
                    assert forall|j: int|
                        0 <= j < old(self).definitions@.len() && (#[trigger] self.definitions@[
                            j
                        ]) is InProgress implies old(self).definitions@[j] is InProgress by {
                        if j != id as int {
                            assert(self.definitions@[j] == mid2.definitions@[j]);
                            assert(mid.definitions@[j] is InProgress);
                        } else {
                            assert(!(self.definitions@[j] is InProgress));
                        }
                    }
                }
                return Err(e);
            },
        };
        proof {
            assert(self.definitions@[id as int] == mid.definitions@[id as int]);
            assert((id as int) < self.definitions@.len());
        }
        let ghost mid2 = *self;
        self.definitions[id] = DefinitionState::Processed(Processed::Fun(fun));
        proof {
            assert forall|i: int, k: int|
                0 <= i < self.scopes@.len() && 0 <= k < self.scopes@[i].definitions@.len() implies (
            #[trigger] self.scopes@[i].definitions@[k]).1 < self.definitions@.len() by {
                assert(self.scopes@[i] == old(self).scopes@[i]);
            }
            assert forall|j: int| 0 <= j < old(self).definitions@.len() implies def_evolves(
                old(self).definitions@[j],
                #[trigger] self.definitions@[j],
            ) by {
                if j != id as int {
                    assert(self.definitions@[j] == mid2.definitions@[j]);
                    assert(def_evolves(old(self).definitions@[j], mid2.definitions@[j]));
                }
            }
            assert forall|j: int|
                0 <= j < old(self).definitions@.len() && (#[trigger] old(
                    self,
                ).definitions@[j]) is InProgress implies self.definitions@[j] == old(
                self,
            ).definitions@[j] by {
                assert(j != id as int);
                assert(self.definitions@[j] == mid2.definitions@[j]);
            }
            assert forall|j: int|
                0 <= j < old(self).definitions@.len() && (#[trigger] self.definitions@[
                    j
                ]) is InProgress implies old(self).definitions@[j] is InProgress by {
                if j != id as int {
                    assert(self.definitions@[j] == mid2.definitions@[j]);
                    assert(mid.definitions@[j] is InProgress);
                } else {
                    assert(!(self.definitions@[j] is InProgress));
                }
            }
        }
        Ok(id)
    }

    /// Process a path like `a::b::c`, looking for the definition it
    /// references. A leading separator walks to the outermost scope first;
    /// every segment but the last must resolve to a module, and the search
    /// continues in that module's own scope; the final segment is resolved
    /// (and processed) as an ordinary definition.
    fn process_path_inner(&mut self, path: &ItemPath, current_scope_id: ScopeId, fuel: u64) -> (r:
        Result<DefinitionId, Fatal>)
        requires
            old(self).wf(),
            (current_scope_id as int) < old(self).scopes@.len(),
            path.segments@.len() >= 1,
        ensures
            resolution_frame(*old(self), *final(self)),
            r matches Ok(id) ==> {
                &&& (id as int) < final(self).definitions@.len()
                &&& def_is_settled(final(self).definitions@[id as int])
            },
            (!path.leading_colon && path.segments@.len() == 1) ==> {
                let c = chain_lookup(
                    old(self).scopes@,
                    path.segments@[0]@,
                    current_scope_id as int,
                );
                &&& (r matches Ok(id) ==> c matches Some(p) && p.0 == id)
                &&& (fuel >= 2 ==> ((c is Some && !(old(self).definitions@[c.unwrap().0 as int]
                    is Lazy)) ==> (*final(self) == *old(self) && r == Ok::<DefinitionId, Fatal>(
                    c.unwrap().0,
                ))))
                &&& (fuel >= 1 && c is None) ==> r is Err
            },
            (!path.leading_colon && path.segments@.len() > 1) ==> (r is Ok ==> ({
                let c = chain_lookup(
                    old(self).scopes@,
                    path.segments@[0]@,
                    current_scope_id as int,
                );
                c is Some && def_is_mod(old(self).definitions@[c.unwrap().0 as int])
            })),
            r matches Ok(id) ==> ({
                let start = if path.leading_colon {
                    top_scope(old(self).scopes@, current_scope_id as int)
                } else {
                    current_scope_id as int
                };
                path_walk(old(self).scopes@, old(self).definitions@, path.segments@, 0, start)
                    matches Some(p) && p.0 == id
            }),
        decreases fuel,
    {
        if fuel == 0 {
            return Err(Fatal::OutOfFuel);
        }
        let mut mod_scope: ScopeId = current_scope_id;
        if path.leading_colon {
            loop
                invariant
                    self.wf(),
                    *self == *old(self),
                    (mod_scope as int) < self.scopes@.len(),
                    top_scope(self.scopes@, current_scope_id as int) == top_scope(
                        self.scopes@,
                        mod_scope as int,
                    ),
                ensures
                    self.wf(),
                    *self == *old(self),
                    (mod_scope as int) < self.scopes@.len(),
                    top_scope(self.scopes@, current_scope_id as int) == mod_scope as int,
                decreases mod_scope,
            {
                match self.scopes[mod_scope].parent {
                    Some(p) => {
                        mod_scope = p;
                    },
                    None => {
                        break;
                    },
                }
            }
        }
        let ghost start = mod_scope as int;
        proof {
            if !path.leading_colon {
                assert(start == current_scope_id as int);
            } else {
                assert(start == top_scope(old(self).scopes@, current_scope_id as int));
            }
        }
        let nseg = path.segments.len();
        let mut si: usize = 0;
        while si < nseg - 1
            invariant
                self.wf(),
                *self == *old(self),
                (mod_scope as int) < self.scopes@.len(),
                nseg == path.segments@.len(),
                1 <= nseg,
                si < nseg,
                !path.leading_colon ==> (si == 0 ==> mod_scope == current_scope_id),
                (!path.leading_colon && si > 0 && nseg > 1) ==> ({
                    let c = chain_lookup(
                        old(self).scopes@,
                        path.segments@[0]@,
                        current_scope_id as int,
                    );
                    c is Some && def_is_mod(old(self).definitions@[c.unwrap().0 as int])
                }),
                path_walk(old(self).scopes@, old(self).definitions@, path.segments@, 0, start)
                    == path_walk(
                    old(self).scopes@,
                    old(self).definitions@,
                    path.segments@,
                    si as int,
                    mod_scope as int,
                ),
            decreases nseg - 1 - si,
        {
            let ghost pre_scope = mod_scope as int;
            let id = match self.process_mod(path.segments[si].as_str(), mod_scope) {
                Ok(id) => id,
                Err(e) => {
                    return Err(e);
                },
            };
            match &self.definitions[id] {
                DefinitionState::Processed(Processed::Mod(m)) => {
                    mod_scope = m.scope_id;
                },
                _ => {
                    proof {
                        assert(false);
                    }
                    return Err(Fatal::OutOfFuel);
                },
            }
            proof {
                assert(path_walk(
                    old(self).scopes@,
                    old(self).definitions@,
                    path.segments@,
                    si as int,
                    pre_scope,
                ) == path_walk(
                    old(self).scopes@,
                    old(self).definitions@,
                    path.segments@,
                    si + 1,
                    mod_scope as int,
                ));
            }
            si = si + 1;
        }
        proof {
            assert(path_walk(
                old(self).scopes@,
                old(self).definitions@,
                path.segments@,
                (nseg - 1) as int,
                mod_scope as int,
            ) == chain_lookup(
                old(self).scopes@,
                path.segments@[nseg - 1]@,
                mod_scope as int,
            ));
        }
        self.process_defn_inner(path.segments[nseg - 1].as_str(), mod_scope, fuel - 1)
    }

    /// Process one alias of a `use` declaration, re-binding what it resolves
    /// to in the scope the declaration appeared in. Resolution starts from
    /// `current_scope_id` and forces processing of whatever is imported.
    fn process_use_tree_inner(
        &mut self,
        use_tree: &UseTree,
        original_scope_id: ScopeId,
        current_scope_id: ScopeId,
        fuel: u64,
    ) -> (r: Result<(), Fatal>)
        requires
            old(self).wf(),
            (original_scope_id as int) < old(self).scopes@.len(),
            (current_scope_id as int) < old(self).scopes@.len(),
        ensures
            registration_frame(*old(self), *final(self), original_scope_id as int),
            final(self).scopes@.len() == old(self).scopes@.len(),
            use_tree matches UseTree::Name(n) ==> r is Ok ==> ({
                let pre = old(self).scopes@[original_scope_id as int].definitions@;
                let post = final(self).scopes@[original_scope_id as int].definitions@;
                &&& post.len() == pre.len() + 1
                &&& post.last().0@ == n@
                &&& chain_lookup(old(self).scopes@, n@, current_scope_id as int) matches Some(p)
                    && post.last().1 == p.0
                &&& def_is_settled(final(self).definitions@[post.last().1 as int])
            }),
            use_tree matches UseTree::Rename(a, b) ==> r is Ok ==> ({
                let pre = old(self).scopes@[original_scope_id as int].definitions@;
                let post = final(self).scopes@[original_scope_id as int].definitions@;
                &&& post.len() == pre.len() + 1
                &&& post.last().0@ == b@
                &&& chain_lookup(old(self).scopes@, a@, current_scope_id as int) matches Some(p)
                    && post.last().1 == p.0
                &&& def_is_settled(final(self).definitions@[post.last().1 as int])
            }),
            use_tree is Glob && r is Ok ==> ({
                let pre = old(self).scopes@[original_scope_id as int].definitions@;
                let snap = old(self).scopes@[current_scope_id as int].definitions@;
                let post = final(self).scopes@[original_scope_id as int].definitions@;
                &&& post.len() == pre.len() + snap.len()
                &&& forall|m: int|
                    0 <= m < snap.len() ==> (#[trigger] post[pre.len() + m]).0@ == snap[m].0@
                &&& forall|m: int|
                    0 <= m < snap.len() ==> def_is_settled(
                        final(self).definitions@[(#[trigger] post[pre.len() + m]).1 as int],
                    )
                &&& original_scope_id != current_scope_id ==> forall|m: int|
                    0 <= m < snap.len() ==> scope_find(snap, snap[m].0@) == Some(
                        (#[trigger] post[pre.len() + m]).1,
                    )
            }),
            use_tree matches UseTree::Path(seg, _rest) ==> r is Ok ==> ({
                let c = chain_lookup(old(self).scopes@, seg@, current_scope_id as int);
                c is Some && def_is_mod(old(self).definitions@[c.unwrap().0 as int])
            }),
            fuel >= 2 ==> (use_tree matches UseTree::Name(n) ==> ({
                let c = chain_lookup(old(self).scopes@, n@, current_scope_id as int);
                (c is Some && def_is_settled(old(self).definitions@[c.unwrap().0 as int])) ==> r
                    is Ok
            })),
            fuel >= 2 ==> (use_tree matches UseTree::Rename(a, _b) ==> ({
                let c = chain_lookup(old(self).scopes@, a@, current_scope_id as int);
                (c is Some && def_is_settled(old(self).definitions@[c.unwrap().0 as int])) ==> r
                    is Ok
            })),
        decreases fuel,
    {
        if fuel == 0 {
            return Err(Fatal::OutOfFuel);
        }
        match use_tree {
            UseTree::Name(n) => {
                let id = match self.process_defn_inner(n.as_str(), current_scope_id, fuel - 1) {
                    Ok(id) => id,
                    Err(e) => {
                        proof {
                            lemma_resolution_is_registration(
                                *old(self),
                                *self,
                                original_scope_id as int,
                            );
                        }
                        return Err(e);
                    },
                };
                proof {
                    lemma_resolution_is_registration(*old(self), *self, original_scope_id as int);
                }
                self.insert_binding(original_scope_id, n.clone(), id);
                Ok(())
            },
            UseTree::Rename(a, b) => {
                let id = match self.process_defn_inner(a.as_str(), current_scope_id, fuel - 1) {
                    Ok(id) => id,
                    Err(e) => {
                        proof {
                            lemma_resolution_is_registration(
                                *old(self),
                                *self,
                                original_scope_id as int,
                            );
                        }
                        return Err(e);
                    },
                };
                proof {
                    lemma_resolution_is_registration(*old(self), *self, original_scope_id as int);
                }
                self.insert_binding(original_scope_id, b.clone(), id);
                Ok(())
            },
            UseTree::Path(seg, rest) => {
                let id = match self.process_mod(seg.as_str(), current_scope_id) {
                    Ok(id) => id,
                    Err(e) => {
                        proof {
                            lemma_resolution_is_registration(
                                *old(self),
                                *self,
                                original_scope_id as int,
                            );
                        }
                        return Err(e);
                    },
                };
                let mod_scope: ScopeId = match &self.definitions[id] {
                    DefinitionState::Processed(Processed::Mod(m)) => m.scope_id,
                    _ => {
                        proof {
                            assert(false);
                        }
                        return Err(Fatal::OutOfFuel);
                    },
                };
                self.process_use_tree_inner(rest, original_scope_id, mod_scope, fuel - 1)
            },
            UseTree::Group(trees) => {
                let n = trees.len();
                let mut k: usize = 0;
                while k < n
                    invariant
                        self.wf(),
                        registration_frame(*old(self), *self, original_scope_id as int),
                        use_tree matches UseTree::Group(_),
                        (original_scope_id as int) < self.scopes@.len(),
                        (current_scope_id as int) < self.scopes@.len(),
                        self.scopes@.len() == old(self).scopes@.len(),
                        n == trees@.len(),
                        k <= n,
                        fuel >= 1,
                    decreases n - k,
                {
                    let ghost pre = *self;
                    match self.process_use_tree_inner(
                        &trees[k],
                        original_scope_id,
                        current_scope_id,
                        fuel - 1,
                    ) {
                        Ok(()) => {},
                        Err(e) => {
                            proof {
                                lemma_registration_frame_trans(
                                    *old(self),
                                    pre,
                                    *self,
                                    original_scope_id as int,
                                );
                            }
                            return Err(e);
                        },
                    }
                    proof {
                        lemma_registration_frame_trans(
                            *old(self),
                            pre,
                            *self,
                            original_scope_id as int,
                        );
                    }
                    k = k + 1;
                }
                Ok(())
            },
            UseTree::Glob => {
                let n = self.scopes[current_scope_id].definitions.len();
                let mut names: Vec<String> = Vec::new();
                let mut k: usize = 0;
                while k < n
                    invariant
                        self.wf(),
                        *self == *old(self),
                        (current_scope_id as int) < self.scopes@.len(),
                        n == self.scopes@[current_scope_id as int].definitions@.len(),
                        names@.len() == k,
                        k <= n,
                        forall|j: int|
                            0 <= j < k ==> #[trigger] names@[j] == self.scopes@[
                                current_scope_id as int
                            ].definitions@[j].0,
                    decreases n - k,
                {
                    names.push(self.scopes[current_scope_id].definitions[k].0.clone());
                    k = k + 1;
                }
                let ghost snap = self.scopes@[current_scope_id as int].definitions@;
                let mut k: usize = 0;
                while k < n
                    invariant
                        self.wf(),
                        registration_frame(*old(self), *self, original_scope_id as int),
                        use_tree is Glob,
                        (original_scope_id as int) < self.scopes@.len(),
                        (current_scope_id as int) < self.scopes@.len(),
                        self.scopes@.len() == old(self).scopes@.len(),
                        names@.len() == n,
                        k <= n,
                        n == snap.len(),
                        fuel >= 1,
                        forall|j: int| 0 <= j < n ==> #[trigger] names@[j]@ == snap[j].0@,
                        original_scope_id != current_scope_id ==> self.scopes@[
                            current_scope_id as int
                        ].definitions@ == snap,
                        ({
                            let pre = old(self).scopes@[original_scope_id as int].definitions@;
                            let cur = self.scopes@[original_scope_id as int].definitions@;
                            &&& cur.len() == pre.len() + k
                            &&& forall|m: int|
                                0 <= m < k ==> (#[trigger] cur[pre.len() + m]).0@ == snap[m].0@
                            &&& forall|m: int|
                                0 <= m < k ==> def_is_settled(
                                    self.definitions@[(#[trigger] cur[pre.len() + m]).1 as int],
                                ) && (cur[pre.len() + m]).1 < self.definitions@.len()
                            &&& original_scope_id != current_scope_id ==> forall|m: int|
                                0 <= m < k ==> scope_find(snap, snap[m].0@) == Some(
                                    (#[trigger] cur[pre.len() + m]).1,
                                )
                        }),
                    decreases n - k,
                {
                    let ghost pre_iter = *self;
                    let id = match self.process_defn_inner(
                        names[k].as_str(),
                        current_scope_id,
                        fuel - 1,
                    ) {
                        Ok(id) => id,
                        Err(e) => {
                            proof {
                                lemma_resolution_is_registration(
                                    pre_iter,
                                    *self,
                                    original_scope_id as int,
                                );
                                lemma_registration_frame_trans(
                                    *old(self),
                                    pre_iter,
                                    *self,
                                    original_scope_id as int,
                                );
                            }
                            return Err(e);
                        },
                    };
                    proof {
                        lemma_resolution_is_registration(pre_iter, *self, original_scope_id as int);
                        lemma_registration_frame_trans(
                            *old(self),
                            pre_iter,
                            *self,
                            original_scope_id as int,
                        );
                        if original_scope_id != current_scope_id {
                            lemma_scope_find_present(snap, k as int);
                            assert(chain_lookup(
                                pre_iter.scopes@,
                                names@[k as int]@,
                                current_scope_id as int,
                            ) == Some(
                                (scope_find(snap, snap[k as int].0@).unwrap(), current_scope_id as int),
                            ));
                        }
                    }
                    let ghost pre_ins = *self;
                    self.insert_binding(original_scope_id, names[k].clone(), id);
                    proof {
                        assert(registration_frame(pre_ins, *self, original_scope_id as int));
                        lemma_registration_frame_trans(
                            *old(self),
                            pre_ins,
                            *self,
                            original_scope_id as int,
                        );
                        let pre = old(self).scopes@[original_scope_id as int].definitions@;
                        let cur = self.scopes@[original_scope_id as int].definitions@;
                        assert forall|m: int| 0 <= m < k + 1 implies def_is_settled(
                            self.definitions@[(#[trigger] cur[pre.len() + m]).1 as int],
                        ) && (cur[pre.len() + m]).1 < self.definitions@.len() by {
                            if m < k {
                                let prev = pre_iter.scopes@[original_scope_id as int].definitions@;
                                assert(cur[pre.len() + m] == prev[pre.len() + m]);
                                assert(def_evolves(
                                    pre_iter.definitions@[(cur[pre.len() + m]).1 as int],
                                    self.definitions@[(cur[pre.len() + m]).1 as int],
                                ));
                            } else {
                                assert(cur[pre.len() + m].1 == id);
                                assert(self.definitions@[id as int] == pre_ins.definitions@[
                                    id as int
                                ]);
                            }
                        }
                    }
                    k = k + 1;
                }
                Ok(())
            },
        }
    }
}

impl BytecodeEngine {
    /// Convert one function item into its compiled artifact: allocate the
    /// parameter slots (parameter `k` is always slot `k`), compile the body,
    /// and close the instruction sequence with the return instruction the
    /// signature asks for.
    fn convert_fn_inner(&mut self, f: &FnItem, scope_id: ScopeId, fuel: u64) -> (r: Result<
        Fun,
        Fatal,
    >)
        requires
            old(self).wf(),
            (scope_id as int) < old(self).scopes@.len(),
        ensures
            resolution_frame(*old(self), *final(self)),
            r matches Ok(fun) ==> fun_matches_item(fun, *f),
            (no_calls_stmts(f.body@) && fuel > size_stmts(f.body@) + 1 && compile_stmts_s(
                f.body@,
                params_vs(f.params@),
                f.return_ty,
            ) is Some) ==> r is Ok,
        decreases fuel,
    {
        if fuel == 0 {
            return Err(Fatal::OutOfFuel);
        }
        let mut vs = VarStack::new();
        let mut params: Vec<Param> = Vec::new();
        let np = f.params.len();
        let mut k: usize = 0;
        proof {
            assert(f.params@.take(0) =~= Seq::<(String, Ty)>::empty());
        }
        while k < np
            invariant
                vs@.wf(),
                np == f.params@.len(),
                k <= np,
                vs@.vars.len() == k,
                vs@ == params_vs(f.params@.take(k as int)),
                params@.len() == k,
                forall|j: int|
                    0 <= j < k ==> {
                        &&& (#[trigger] params@[j]).var_id == j
                        &&& params@[j].ty == f.params@[j].1
                        &&& params@[j].name@ == f.params@[j].0@
                    },
            decreases np - k,
        {
            let pname = f.params[k].0.clone();
            let pty = f.params[k].1;
            let var_id = vs.add_var(pname.clone(), pty);
            params.push(Param::new(pname, var_id, pty));
            proof {
                assert(f.params@.take(k + 1).drop_last() =~= f.params@.take(k as int));
                assert(f.params@.take(k + 1).last() == f.params@[k as int]);
                assert(vs@ == params_vs(f.params@.take(k + 1)));
            }
            k = k + 1;
        }
        proof {
            assert(f.params@.take(np as int) =~= f.params@);
        }
        let mut bytecode: Vec<Bytecode> = Vec::new();
        match self.convert_stmts_inner(&f.body, f.return_ty, &mut bytecode, scope_id, &mut vs, fuel - 1) {
            Ok(_) => {},
            Err(e) => {
                proof {
                    if no_calls_stmts(f.body@) && fuel > size_stmts(f.body@) + 1
                        && compile_stmts_s(
                        f.body@,
                        params_vs(f.params@),
                        f.return_ty,
                    ) is Some {
                        assert(false);
                    }
                }
                return Err(e);
            },
        }
        proof {
            assert(bytecode@.skip(0) =~= bytecode@);
        }
        if f.return_ty == Ty::Void || f.return_ty == Ty::Unknown {
            bytecode.push(Bytecode::ReturnVoid);
        } else {
            bytecode.push(Bytecode::ReturnLastStackValue);
        }
        Ok(Fun { params, return_ty: f.return_ty, vars: vs.vars, bytecode })
    }

    /// Compile a statement sequence. The value of the sequence is the value
    /// of its trailing statement when that is an expression in value
    /// position, and void otherwise; only the trailing statement sees the
    /// expected type.
    #[verifier::rlimit(100)]
    #[verifier::spinoff_prover]
    #[verifier::loop_isolation(false)]
    fn convert_stmts_inner(
        &mut self,
        stmts: &Vec<Stmt>,
        expected_ty: Ty,
        bytecode: &mut Vec<Bytecode>,
        scope_id: ScopeId,
        var_stack: &mut VarStack,
        fuel: u64,
    ) -> (r: Result<Ty, Fatal>)
        requires
            old(self).wf(),
            (scope_id as int) < old(self).scopes@.len(),
            old(var_stack)@.wf(),
        ensures
            resolution_frame(*old(self), *final(self)),
            final(var_stack)@.wf(),
            old(var_stack)@.vars.is_prefix_of(final(var_stack)@.vars),
            old(var_stack)@.visible.is_prefix_of(final(var_stack)@.visible),
            old(bytecode)@.is_prefix_of(final(bytecode)@),
            no_calls_stmts(stmts@) ==> (r matches Ok(t) ==> compile_stmts_s(
                stmts@,
                old(var_stack)@,
                expected_ty,
            ) == Some(
                (
                    final(bytecode)@.skip(old(bytecode)@.len() as int),
                    t,
                    final(var_stack)@,
                ),
            )),
            (no_calls_stmts(stmts@) && fuel > size_stmts(stmts@) && compile_stmts_s(
                stmts@,
                old(var_stack)@,
                expected_ty,
            ) is Some) ==> r is Ok,
        decreases fuel,
    {
        if fuel == 0 {
            return Err(Fatal::OutOfFuel);
        }
        let mut result: Ty = Ty::Void;
        let n = stmts.len();
        let mut i: usize = 0;
        proof {
            assert(old(bytecode)@.is_prefix_of(bytecode@));
            assert(old(var_stack)@.vars.is_prefix_of(var_stack@.vars));
            assert(old(var_stack)@.visible.is_prefix_of(var_stack@.visible));
            assert(stmts@.skip(0) =~= stmts@);
            assert(bytecode@.skip(old(bytecode)@.len() as int) =~= Seq::<Bytecode>::empty());
        }
        while i < n
            invariant
                self.wf(),
                resolution_frame(*old(self), *self),
                (scope_id as int) < self.scopes@.len(),
                var_stack@.wf(),
                old(var_stack)@.vars.is_prefix_of(var_stack@.vars),
                old(var_stack)@.visible.is_prefix_of(var_stack@.visible),
                old(bytecode)@.is_prefix_of(bytecode@),
                n == stmts@.len(),
                i <= n,
                fuel >= 1,
                no_calls_stmts(stmts@) ==> compile_stmts_s(stmts@, old(var_stack)@, expected_ty)
                    == (match compile_stmts_s(stmts@.skip(i as int), var_stack@, expected_ty) {
                    Some((c, t, w)) => Some(
                        (
                            bytecode@.skip(old(bytecode)@.len() as int) + c,
                            if i == n {
                                result
                            } else {
                                t
                            },
                            w,
                        ),
                    ),
                    None => None,
                }),
            decreases n - i,
        {
            let exp = if i + 1 == n {
                expected_ty
            } else {
                Ty::Unknown
            };
            let ghost pre = *self;
            let ghost pre_vs = var_stack@;
            let ghost pre_bc = bytecode@;
            proof {
                if no_calls_stmts(stmts@) {
                    lemma_no_calls_skip(stmts@, i as int);
                }
            }
            let r0 = self.convert_stmt_inner(&stmts[i], exp, bytecode, scope_id, var_stack, fuel - 1);
            proof {
                if no_calls_stmts(stmts@) && fuel > size_stmts(stmts@) && compile_stmts_s(
                    stmts@,
                    old(var_stack)@,
                    expected_ty,
                ) is Some {
                    lemma_no_calls_skip(stmts@, i as int);
                    lemma_size_stmts_member(stmts@, i as int);
                    assert(stmts@.skip(i as int)[0] == stmts@[i as int]);
                    assert(no_calls_stmt(stmts@[i as int]));
                    assert(compile_stmts_s(stmts@.skip(i as int), pre_vs, expected_ty) is Some);
                    assert(compile_stmt_s(stmts@[i as int], pre_vs, exp) is Some);
                    assert(r0 is Ok);
                }
            }
            match r0 {
                Ok(t) => {
                    result = t;
                },
                Err(e) => {
                    proof {
                        lemma_resolution_frame_trans(*old(self), pre, *self);
                        lemma_prefix_trans(old(var_stack)@.vars, pre_vs.vars, var_stack@.vars);
                        lemma_prefix_trans(
                            old(var_stack)@.visible,
                            pre_vs.visible,
                            var_stack@.visible,
                        );
                        lemma_prefix_trans(old(bytecode)@, pre_bc, bytecode@);
                    }
                    return Err(e);
                },
            }
            proof {
                lemma_resolution_frame_trans(*old(self), pre, *self);
                lemma_prefix_trans(old(var_stack)@.vars, pre_vs.vars, var_stack@.vars);
                lemma_prefix_trans(old(var_stack)@.visible, pre_vs.visible, var_stack@.visible);
                lemma_prefix_trans(old(bytecode)@, pre_bc, bytecode@);
                if no_calls_stmts(stmts@) {
                    assert(stmts@.skip(i as int)[0] == stmts@[i as int]);
                    assert(stmts@.skip(i as int).drop_first() =~= stmts@.skip(i + 1));
                    assert(bytecode@.skip(old(bytecode)@.len() as int) =~= bytecode@.skip(
                        old(bytecode)@.len() as int,
                    ));
                    assert(pre_bc.skip(old(bytecode)@.len() as int) + bytecode@.skip(
                        pre_bc.len() as int,
                    ) =~= bytecode@.skip(old(bytecode)@.len() as int));
                }
            }
            i = i + 1;
        }
        proof {
            if no_calls_stmts(stmts@) {
                assert(stmts@.skip(n as int) =~= Seq::<Stmt>::empty());
            }
        }
        Ok(result)
    }

    /// Compile one statement. Declarations bind the initializer value, which
    /// the declaration instruction leaves on the stack as the variable's
    /// storage; `return` is an explicit early exit. A call-free statement
    /// compiles to exactly what `compile_stmt_s` says.
    #[verifier::rlimit(100)]
    #[verifier::spinoff_prover]
    fn convert_stmt_inner(
        &mut self,
        stmt: &Stmt,
        expected_ty: Ty,
        bytecode: &mut Vec<Bytecode>,
        scope_id: ScopeId,
        var_stack: &mut VarStack,
        fuel: u64,
    ) -> (r: Result<Ty, Fatal>)
        requires
            old(self).wf(),
            (scope_id as int) < old(self).scopes@.len(),
            old(var_stack)@.wf(),
        ensures
            resolution_frame(*old(self), *final(self)),
            final(var_stack)@.wf(),
            old(var_stack)@.vars.is_prefix_of(final(var_stack)@.vars),
            old(var_stack)@.visible.is_prefix_of(final(var_stack)@.visible),
            old(bytecode)@.is_prefix_of(final(bytecode)@),
            no_calls_stmt(*stmt) ==> (r matches Ok(t) ==> compile_stmt_s(
                *stmt,
                old(var_stack)@,
                expected_ty,
            ) == Some(
                (final(bytecode)@.skip(old(bytecode)@.len() as int), t, final(var_stack)@),
            )),
            (no_calls_stmt(*stmt) && fuel > size_stmt(*stmt) && compile_stmt_s(
                *stmt,
                old(var_stack)@,
                expected_ty,
            ) is Some) ==> r is Ok,
        decreases fuel,
    {
        if fuel == 0 {
            return Err(Fatal::OutOfFuel);
        }
        match stmt {
            Stmt::Let { name, ty, init } => {
                match init {
                    Some(e) => {
                        let ity = match self.convert_expr_inner(
                            e,
                            *ty,
                            bytecode,
                            scope_id,
                            var_stack,
                            fuel - 1,
                        ) {
                            Ok(t) => t,
                            Err(err) => {
                                proof {
                                    if no_calls_stmt(*stmt) && fuel > size_stmt(*stmt)
                                        && compile_stmt_s(
                                        *stmt,
                                        old(var_stack)@,
                                        expected_ty,
                                    ) is Some {
                                        assert(compile_expr_s(*e, old(var_stack)@, *ty) is Some);
                                        assert(false);
                                    }
                                }
                                return Err(err);
                            },
                        };
                        let ghost init_delta = bytecode@.skip(old(bytecode)@.len() as int);
                        let ghost vs1 = var_stack@;
                        let vty = if *ty == Ty::Unknown {
                            ity
                        } else {
                            *ty
                        };
                        let var_id = var_stack.add_var(name.clone(), vty);
                        let _nvars: usize = var_stack.vars.len();
                        bytecode.push(Bytecode::VarDecl(var_id));
                        proof {
                            if no_calls_stmt(*stmt) {
                                assert(bytecode@.skip(old(bytecode)@.len() as int) =~= init_delta.push(
                                    Bytecode::VarDecl(var_id),
                                ));
                                assert(var_stack@ == add_var_s(vs1, name@, vty));
                                assert(vs1.vars.len() + 1 <= usize::MAX) by {
                                    vstd::std_specs::vec::axiom_spec_len(&var_stack.vars);
                                    assert(var_stack@.vars.len() == var_stack.vars@.len());
                                }
                                assert(compile_expr_s(*e, old(var_stack)@, *ty) == Some(
                                    (init_delta, ity, vs1),
                                ));
                                assert(compile_stmt_s(*stmt, old(var_stack)@, expected_ty) == Some(
                                    (
                                        bytecode@.skip(old(bytecode)@.len() as int),
                                        Ty::Void,
                                        var_stack@,
                                    ),
                                ));
                            }
                        }
                    },
                    None => {
                        let var_id = var_stack.add_var(name.clone(), *ty);
                        let _nvars: usize = var_stack.vars.len();
                        bytecode.push(Bytecode::VarDeclUninit(var_id));
                        proof {
                            assert(bytecode@.skip(old(bytecode)@.len() as int) =~= seq![
                                Bytecode::VarDeclUninit(var_id),
                            ]);
                            assert(var_stack@ == add_var_s(old(var_stack)@, name@, *ty));
                            assert(old(bytecode)@.is_prefix_of(bytecode@));
                        }
                    },
                }
                Ok(Ty::Void)
            },
            Stmt::Expr(e) => {
                let r = self.convert_expr_inner(e, expected_ty, bytecode, scope_id, var_stack, fuel - 1);
                proof {
                    if no_calls_stmt(*stmt) && fuel > size_stmt(*stmt) && compile_stmt_s(
                        *stmt,
                        old(var_stack)@,
                        expected_ty,
                    ) is Some {
                        assert(compile_expr_s(*e, old(var_stack)@, expected_ty) is Some);
                        assert(r is Ok);
                    }
                }
                r
            },
            Stmt::Semi(e) => {
                let r0 = self.convert_expr_inner(e, Ty::Unknown, bytecode, scope_id, var_stack, fuel - 1);
                proof {
                    if no_calls_stmt(*stmt) && fuel > size_stmt(*stmt) && compile_stmt_s(
                        *stmt,
                        old(var_stack)@,
                        expected_ty,
                    ) is Some {
                        assert(compile_expr_s(*e, old(var_stack)@, Ty::Unknown) is Some);
                        assert(r0 is Ok);
                    }
                }
                match r0 {
                    Ok(_) => Ok(Ty::Void),
                    Err(err) => Err(err),
                }
            },
            Stmt::Return(oe) => {
                match oe {
                    Some(e) => {
                        match self.convert_expr_inner(
                            e,
                            Ty::Unknown,
                            bytecode,
                            scope_id,
                            var_stack,
                            fuel - 1,
                        ) {
                            Ok(_) => {},
                            Err(err) => {
                                proof {
                                    if no_calls_stmt(*stmt) && fuel > size_stmt(*stmt)
                                        && compile_stmt_s(
                                        *stmt,
                                        old(var_stack)@,
                                        expected_ty,
                                    ) is Some {
                                        assert(compile_expr_s(*e, old(var_stack)@, Ty::Unknown)
                                            is Some);
                                        assert(false);
                                    }
                                }
                                return Err(err);
                            },
                        }
                        let ghost val_delta = bytecode@.skip(old(bytecode)@.len() as int);
                        bytecode.push(Bytecode::ReturnLastStackValue);
                        proof {
                            assert(bytecode@.skip(old(bytecode)@.len() as int) =~= val_delta.push(
                                Bytecode::ReturnLastStackValue,
                            ));
                            assert(old(bytecode)@.is_prefix_of(bytecode@));
                        }
                    },
                    None => {
                        bytecode.push(Bytecode::ReturnVoid);
                        proof {
                            assert(bytecode@.skip(old(bytecode)@.len() as int) =~= seq![
                                Bytecode::ReturnVoid,
                            ]);
                            assert(old(bytecode)@.is_prefix_of(bytecode@));
                        }
                    },
                }
                Ok(Ty::Void)
            },
            Stmt::Item(_) => Err(Fatal::UnsupportedStatement),
        }
    }

    /// Compile one expression onto the end of the instruction sequence and
    /// yield its static type. Expression compilation never changes which
    /// bindings are visible: a block drops its own declarations on exit.
    /// When a concrete type is expected, the expression must have it. A
    /// call-free expression compiles to exactly what `compile_expr_s` says,
    /// jump offsets included.
    #[verifier::rlimit(100)]
    #[verifier::spinoff_prover]
    fn convert_expr_inner(
        &mut self,
        expr: &Expr,
        expected_ty: Ty,
        bytecode: &mut Vec<Bytecode>,
        scope_id: ScopeId,
        var_stack: &mut VarStack,
        fuel: u64,
    ) -> (r: Result<Ty, Fatal>)
        requires
            old(self).wf(),
            (scope_id as int) < old(self).scopes@.len(),
            old(var_stack)@.wf(),
        ensures
            resolution_frame(*old(self), *final(self)),
            final(var_stack)@.wf(),
            old(var_stack)@.vars.is_prefix_of(final(var_stack)@.vars),
            final(var_stack)@.visible == old(var_stack)@.visible,
            old(bytecode)@.is_prefix_of(final(bytecode)@),
            r matches Ok(t) ==> expected_ty == Ty::Unknown || t == expected_ty,
            no_calls_expr(*expr) ==> (r matches Ok(t) ==> compile_expr_s(
                *expr,
                old(var_stack)@,
                expected_ty,
            ) == Some(
                (final(bytecode)@.skip(old(bytecode)@.len() as int), t, final(var_stack)@),
            )),
            (no_calls_expr(*expr) && fuel > size_expr(*expr) && compile_expr_s(
                *expr,
                old(var_stack)@,
                expected_ty,
            ) is Some) ==> r is Ok,
        decreases fuel,
    {
        if fuel == 0 {
            return Err(Fatal::OutOfFuel);
        }
        let ty: Ty = match expr {
            Expr::LitU64(v) => {
                bytecode.push(Bytecode::PushU64(*v));
                proof {
                    assert(bytecode@.skip(old(bytecode)@.len() as int) =~= seq![
                        Bytecode::PushU64(*v),
                    ]);
                }
                Ty::U64
            },
            Expr::LitBool(b) => {
                bytecode.push(Bytecode::PushBool(*b));
                proof {
                    assert(bytecode@.skip(old(bytecode)@.len() as int) =~= seq![
                        Bytecode::PushBool(*b),
                    ]);
                }
                Ty::Bool
            },
            Expr::Binary(op, lhs, rhs) => {
                let ghost pre = *self;
                let ghost pre_bc = bytecode@;
                match self.convert_expr_inner(lhs, Ty::U64, bytecode, scope_id, var_stack, fuel - 1) {
                    Ok(_) => {},
                    Err(e) => {
                        proof {
                            if no_calls_expr(*expr) && fuel > size_expr(*expr) && compile_expr_s(
                                *expr,
                                old(var_stack)@,
                                expected_ty,
                            ) is Some {
                                assert(compile_expr_s(**lhs, old(var_stack)@, Ty::U64) is Some);
                                assert(false);
                            }
                        }
                        return Err(e);
                    },
                }
                let ghost mid = *self;
                let ghost mid_bc = bytecode@;
                let ghost mid_vs = var_stack@;
                let ghost lhs_delta = bytecode@.skip(old(bytecode)@.len() as int);
                let r2 = self.convert_expr_inner(rhs, Ty::U64, bytecode, scope_id, var_stack, fuel - 1);
                proof {
                    lemma_resolution_frame_trans(pre, mid, *self);
                    lemma_prefix_trans(pre_bc, mid_bc, bytecode@);
                }
                match r2 {
                    Ok(_) => {},
                    Err(e) => {
                        proof {
                            if no_calls_expr(*expr) && fuel > size_expr(*expr) && compile_expr_s(
                                *expr,
                                old(var_stack)@,
                                expected_ty,
                            ) is Some {
                                assert(compile_expr_s(**rhs, mid_vs, Ty::U64) is Some);
                                assert(false);
                            }
                        }
                        return Err(e);
                    },
                }
                let ghost rhs_delta = bytecode@.skip(mid_bc.len() as int);
                let (instr, bty): (Bytecode, Ty) = match op {
                    crate::ast::BinOp::Add => (Bytecode::Add, Ty::U64),
                    crate::ast::BinOp::Sub => (Bytecode::Sub, Ty::U64),
                    crate::ast::BinOp::Mul => (Bytecode::Mul, Ty::U64),
                    crate::ast::BinOp::Div => (Bytecode::Div, Ty::U64),
                    crate::ast::BinOp::Lt => (Bytecode::Lt, Ty::Bool),
                };
                bytecode.push(instr);
                proof {
                    assert(binop_code(*op) == (instr, bty));
                    assert(bytecode@.skip(old(bytecode)@.len() as int) =~= lhs_delta + rhs_delta
                        + seq![instr]);
                }
                bty
            },
            Expr::Var(name) => {
                match var_stack.find_var(name.as_str()) {
                    Some(var_id) => {
                        proof {
                            crate::bytecode::lemma_find_valid(var_stack@, name@);
                        }
                        let t = var_stack.vars[var_id].ty;
                        bytecode.push(Bytecode::Var(var_id));
                        proof {
                            assert(bytecode@.skip(old(bytecode)@.len() as int) =~= seq![
                                Bytecode::Var(var_id),
                            ]);
                            assert(var_stack@.vars[var_id as int].ty == t);
                        }
                        t
                    },
                    None => {
                        proof {
                            if no_calls_expr(*expr) && fuel > size_expr(*expr) && compile_expr_s(
                                *expr,
                                old(var_stack)@,
                                expected_ty,
                            ) is Some {
                                assert(old(var_stack)@.find(name@) is None);
                                assert(false);
                            }
                        }
                        return Err(Fatal::VariableNotFound(name.clone()));
                    },
                }
            },
            Expr::Assign(name, rhs) => {
                match var_stack.find_var(name.as_str()) {
                    Some(var_id) => {
                        proof {
                            crate::bytecode::lemma_find_valid(var_stack@, name@);
                        }
                        let t = var_stack.vars[var_id].ty;
                        proof {
                            assert(var_stack@.vars[var_id as int].ty == t);
                        }
                        match self.convert_expr_inner(rhs, t, bytecode, scope_id, var_stack, fuel - 1) {
                            Ok(_) => {},
                            Err(e) => {
                                proof {
                                    if no_calls_expr(*expr) && fuel > size_expr(*expr) && compile_expr_s(
                                *expr,
                                old(var_stack)@,
                                expected_ty,
                            ) is Some {
                                        assert(compile_expr_s(**rhs, old(var_stack)@, t) is Some);
                                        assert(false);
                                    }
                                }
                                return Err(e);
                            },
                        }
                        let ghost rhs_delta = bytecode@.skip(old(bytecode)@.len() as int);
                        bytecode.push(Bytecode::Assign(var_id));
                        proof {
                            assert(bytecode@.skip(old(bytecode)@.len() as int) =~= rhs_delta.push(
                                Bytecode::Assign(var_id),
                            ));
                        }
                        Ty::Void
                    },
                    None => {
                        proof {
                            if no_calls_expr(*expr) && fuel > size_expr(*expr) && compile_expr_s(
                                *expr,
                                old(var_stack)@,
                                expected_ty,
                            ) is Some {
                                assert(old(var_stack)@.find(name@) is None);
                                assert(false);
                            }
                        }
                        return Err(Fatal::VariableNotFound(name.clone()));
                    },
                }
            },
            Expr::Call(path, args) => {
                if path.segments.len() == 0 {
                    return Err(Fatal::EmptyPath);
                }
                let id = match self.process_path_inner(path, scope_id, fuel - 1) {
                    Ok(id) => id,
                    Err(e) => {
                        return Err(e);
                    },
                };
                let mut param_tys: Vec<Ty> = Vec::new();
                let ret_ty: Ty;
                match &self.definitions[id] {
                    DefinitionState::Processed(Processed::Fun(fun)) => {
                        ret_ty = fun.return_ty;
                        let m = fun.params.len();
                        let mut k: usize = 0;
                        while k < m
                            invariant
                                m == fun.params@.len(),
                                k <= m,
                                param_tys@.len() == k,
                            decreases m - k,
                        {
                            param_tys.push(fun.params[k].ty);
                            k = k + 1;
                        }
                    },
                    DefinitionState::InProgress(sig) => {
                        ret_ty = sig.return_ty;
                        let m = sig.params.len();
                        let mut k: usize = 0;
                        while k < m
                            invariant
                                m == sig.params@.len(),
                                k <= m,
                                param_tys@.len() == k,
                            decreases m - k,
                        {
                            param_tys.push(sig.params[k].1);
                            k = k + 1;
                        }
                    },
                    DefinitionState::Processed(Processed::Mod(_)) => {
                        return Err(Fatal::NotAFunction(path.segments[path.segments.len() - 1].clone()));
                    },
                    DefinitionState::Lazy(_) => {
                        proof {
                            assert(false);
                        }
                        return Err(Fatal::OutOfFuel);
                    },
                }
                if args.len() != param_tys.len() {
                    return Err(Fatal::ArityMismatch);
                }
                let na = args.len();
                let mut k: usize = 0;
                while k < na
                    invariant
                        self.wf(),
                        resolution_frame(*old(self), *self),
                        (scope_id as int) < self.scopes@.len(),
                        var_stack@.wf(),
                        old(var_stack)@.vars.is_prefix_of(var_stack@.vars),
                        var_stack@.visible == old(var_stack)@.visible,
                        old(bytecode)@.is_prefix_of(bytecode@),
                        na == args@.len(),
                        na == param_tys@.len(),
                        k <= na,
                        fuel >= 1,
                        !no_calls_expr(*expr),
                        (id as int) < self.definitions@.len(),
                    decreases na - k,
                {
                    let ghost pre = *self;
                    let ghost pre_vs = var_stack@;
                    let ghost pre_bc = bytecode@;
                    match self.convert_expr_inner(
                        &args[k],
                        param_tys[k],
                        bytecode,
                        scope_id,
                        var_stack,
                        fuel - 1,
                    ) {
                        Ok(_) => {},
                        Err(e) => {
                            proof {
                                lemma_resolution_frame_trans(*old(self), pre, *self);
                                lemma_prefix_trans(old(var_stack)@.vars, pre_vs.vars, var_stack@.vars);
                                lemma_prefix_trans(old(bytecode)@, pre_bc, bytecode@);
                            }
                            return Err(e);
                        },
                    }
                    proof {
                        lemma_resolution_frame_trans(*old(self), pre, *self);
                        lemma_prefix_trans(old(var_stack)@.vars, pre_vs.vars, var_stack@.vars);
                        lemma_prefix_trans(old(bytecode)@, pre_bc, bytecode@);
                    }
                    k = k + 1;
                }
                bytecode.push(Bytecode::Call(id));
                ret_ty
            },
            Expr::If(cond, then_stmts, else_stmts) => {
                match self.convert_expr_inner(cond, Ty::Bool, bytecode, scope_id, var_stack, fuel - 1) {
                    Ok(_) => {},
                    Err(e) => {
                        proof {
                            if no_calls_expr(*expr) && fuel > size_expr(*expr) && compile_expr_s(
                                *expr,
                                old(var_stack)@,
                                expected_ty,
                            ) is Some {
                                assert(compile_expr_s(**cond, old(var_stack)@, Ty::Bool) is Some);
                                assert(false);
                            }
                        }
                        return Err(e);
                    },
                }
                let ghost cond_delta = bytecode@.skip(old(bytecode)@.len() as int);
                let save = var_stack.visible_len();
                let ghost s1 = *self;
                let ghost vs1 = var_stack@;
                let mut then_code: Vec<Bytecode> = Vec::new();
                let ta = match self.convert_stmts_inner(
                    then_stmts,
                    expected_ty,
                    &mut then_code,
                    scope_id,
                    var_stack,
                    fuel - 1,
                ) {
                    Ok(t) => t,
                    Err(e) => {
                        proof {
                            lemma_resolution_frame_trans(*old(self), s1, *self);
                            lemma_prefix_trans(old(var_stack)@.vars, vs1.vars, var_stack@.vars);
                            if no_calls_expr(*expr) && fuel > size_expr(*expr) && compile_expr_s(
                                *expr,
                                old(var_stack)@,
                                expected_ty,
                            ) is Some {
                                assert(compile_stmts_s(then_stmts@, vs1, expected_ty) is Some);
                                assert(false);
                            }
                        }
                        var_stack.truncate_visible(save);
                        proof {
                            assert(var_stack@.visible =~= vs1.visible);
                        }
                        return Err(e);
                    },
                };
                proof {
                    lemma_resolution_frame_trans(*old(self), s1, *self);
                    lemma_prefix_trans(old(var_stack)@.vars, vs1.vars, var_stack@.vars);
                    assert(Seq::<Bytecode>::empty().is_prefix_of(then_code@));
                    assert(then_code@.skip(0) =~= then_code@);
                }
                let ghost vsa = var_stack@;
                var_stack.truncate_visible(save);
                proof {
                    assert(var_stack@.visible =~= vs1.visible);
                    assert(var_stack@.vars =~= vsa.vars);
                    assert(var_stack@.visible =~= restore_s(vsa, vs1).visible);
                    assert(var_stack@ == restore_s(vsa, vs1));
                }
                let ghost s2 = *self;
                let ghost vs2 = var_stack@;
                let mut else_code: Vec<Bytecode> = Vec::new();
                let tb = match self.convert_stmts_inner(
                    else_stmts,
                    expected_ty,
                    &mut else_code,
                    scope_id,
                    var_stack,
                    fuel - 1,
                ) {
                    Ok(t) => t,
                    Err(e) => {
                        proof {
                            lemma_resolution_frame_trans(*old(self), s2, *self);
                            lemma_prefix_trans(old(var_stack)@.vars, vs2.vars, var_stack@.vars);
                            if no_calls_expr(*expr) && fuel > size_expr(*expr) && compile_expr_s(
                                *expr,
                                old(var_stack)@,
                                expected_ty,
                            ) is Some {
                                assert(compile_stmts_s(else_stmts@, vs2, expected_ty) is Some);
                                assert(false);
                            }
                        }
                        var_stack.truncate_visible(save);
                        proof {
                            assert(var_stack@.visible =~= vs2.visible);
                            assert(var_stack@.visible =~= old(var_stack)@.visible);
                        }
                        return Err(e);
                    },
                };
                proof {
                    lemma_resolution_frame_trans(*old(self), s2, *self);
                    lemma_prefix_trans(old(var_stack)@.vars, vs2.vars, var_stack@.vars);
                    assert(else_code@.skip(0) =~= else_code@);
                }
                let ghost vsb = var_stack@;
                var_stack.truncate_visible(save);
                proof {
                    assert(var_stack@.visible =~= vs2.visible);
                    assert(var_stack@.visible =~= old(var_stack)@.visible);
                    assert(var_stack@.vars =~= vsb.vars);
                    assert(var_stack@.visible =~= restore_s(vsb, vs1).visible);
                    assert(var_stack@ == restore_s(vsb, vs1));
                }
                if ta != tb {
                    proof {
                        if no_calls_expr(*expr) && fuel > size_expr(*expr) && compile_expr_s(
                                *expr,
                                old(var_stack)@,
                                expected_ty,
                            ) is Some {
                            assert(false);
                        }
                    }
                    return Err(Fatal::TypeMismatch);
                }
                if then_code.len() > usize::MAX - 2 || else_code.len() > usize::MAX - 1 {
                    proof {
                        if no_calls_expr(*expr) && fuel > size_expr(*expr) && compile_expr_s(
                                *expr,
                                old(var_stack)@,
                                expected_ty,
                            ) is Some {
                            assert(false);
                        }
                    }
                    return Err(Fatal::FunctionTooLarge);
                }
                let ghost then_delta = then_code@;
                let ghost else_delta = else_code@;
                let tlen = then_code.len();
                let elen = else_code.len();
                bytecode.push(Bytecode::If(tlen + 2, ta));
                bytecode.append(&mut then_code);
                bytecode.push(Bytecode::Else(elen + 1, ta));
                bytecode.append(&mut else_code);
                bytecode.push(Bytecode::EndIf(ta));
                proof {
                    assert(bytecode@.skip(old(bytecode)@.len() as int) =~= cond_delta + seq![
                        Bytecode::If((then_delta.len() + 2) as usize, ta),
                    ] + then_delta + seq![Bytecode::Else((else_delta.len() + 1) as usize, ta)]
                        + else_delta + seq![Bytecode::EndIf(ta)]);
                    assert(old(bytecode)@.is_prefix_of(bytecode@));
                }
                ta
            },
            Expr::While(cond, body) => {
                let ghost s0 = *self;
                let mut cond_code: Vec<Bytecode> = Vec::new();
                match self.convert_expr_inner(cond, Ty::Bool, &mut cond_code, scope_id, var_stack, fuel - 1) {
                    Ok(_) => {},
                    Err(e) => {
                        proof {
                            if no_calls_expr(*expr) && fuel > size_expr(*expr) && compile_expr_s(
                                *expr,
                                old(var_stack)@,
                                expected_ty,
                            ) is Some {
                                assert(compile_expr_s(**cond, old(var_stack)@, Ty::Bool) is Some);
                                assert(false);
                            }
                        }
                        return Err(e);
                    },
                }
                proof {
                    assert(cond_code@.skip(0) =~= cond_code@);
                }
                let ghost cond_delta = cond_code@;
                let save = var_stack.visible_len();
                let ghost s1 = *self;
                let ghost vs1 = var_stack@;
                let mut body_code: Vec<Bytecode> = Vec::new();
                match self.convert_stmts_inner(body, Ty::Unknown, &mut body_code, scope_id, var_stack, fuel - 1) {
                    Ok(_) => {},
                    Err(e) => {
                        proof {
                            lemma_resolution_frame_trans(*old(self), s1, *self);
                            lemma_prefix_trans(old(var_stack)@.vars, vs1.vars, var_stack@.vars);
                            if no_calls_expr(*expr) && fuel > size_expr(*expr) && compile_expr_s(
                                *expr,
                                old(var_stack)@,
                                expected_ty,
                            ) is Some {
                                assert(compile_stmts_s(body@, vs1, Ty::Unknown) is Some);
                                assert(false);
                            }
                        }
                        var_stack.truncate_visible(save);
                        proof {
                            assert(var_stack@.visible =~= vs1.visible);
                            assert(var_stack@.visible =~= old(var_stack)@.visible);
                        }
                        return Err(e);
                    },
                }
                proof {
                    lemma_resolution_frame_trans(*old(self), s1, *self);
                    lemma_prefix_trans(old(var_stack)@.vars, vs1.vars, var_stack@.vars);
                    assert(body_code@.skip(0) =~= body_code@);
                }
                let ghost vsb = var_stack@;
                var_stack.truncate_visible(save);
                proof {
                    assert(var_stack@.visible =~= vs1.visible);
                    assert(var_stack@.visible =~= old(var_stack)@.visible);
                    assert(var_stack@.vars =~= vsb.vars);
                    assert(var_stack@.visible =~= restore_s(vsb, vs1).visible);
                    assert(var_stack@ == restore_s(vsb, vs1));
                }
                if body_code.len() > usize::MAX - 2 || cond_code.len() > usize::MAX - 2
                    - body_code.len() {
                    proof {
                        if no_calls_expr(*expr) && fuel > size_expr(*expr) && compile_expr_s(
                                *expr,
                                old(var_stack)@,
                                expected_ty,
                            ) is Some {
                            assert(false);
                        }
                    }
                    return Err(Fatal::FunctionTooLarge);
                }
                let ghost cdelta = cond_code@;
                let ghost bdelta = body_code@;
                let clen = cond_code.len();
                let blen = body_code.len();
                bytecode.push(Bytecode::BeginWhile);
                bytecode.append(&mut cond_code);
                bytecode.push(Bytecode::WhileCond(blen + 2));
                bytecode.append(&mut body_code);
                bytecode.push(Bytecode::EndWhile(clen + blen + 2));
                proof {
                    assert(bytecode@.skip(old(bytecode)@.len() as int) =~= seq![
                        Bytecode::BeginWhile,
                    ] + cdelta + seq![Bytecode::WhileCond((bdelta.len() + 2) as usize)] + bdelta
                        + seq![Bytecode::EndWhile((cdelta.len() + bdelta.len() + 2) as usize)]);
                    assert(old(bytecode)@.is_prefix_of(bytecode@));
                }
                Ty::Void
            },
            Expr::Block(stmts) => {
                let save = var_stack.visible_len();
                let ghost vs0 = var_stack@;
                let t = match self.convert_stmts_inner(
                    stmts,
                    expected_ty,
                    bytecode,
                    scope_id,
                    var_stack,
                    fuel - 1,
                ) {
                    Ok(t) => t,
                    Err(e) => {
                        proof {
                            if no_calls_expr(*expr) && fuel > size_expr(*expr) && compile_expr_s(
                                *expr,
                                old(var_stack)@,
                                expected_ty,
                            ) is Some {
                                assert(compile_stmts_s(stmts@, vs0, expected_ty) is Some);
                                assert(false);
                            }
                        }
                        var_stack.truncate_visible(save);
                        proof {
                            assert(var_stack@.visible =~= vs0.visible);
                        }
                        return Err(e);
                    },
                };
                let ghost vs1 = var_stack@;
                var_stack.truncate_visible(save);
                proof {
                    assert(var_stack@.visible =~= vs0.visible);
                    assert(var_stack@.vars =~= vs1.vars);
                    assert(var_stack@.visible =~= restore_s(vs1, vs0).visible);
                    assert(var_stack@ == restore_s(vs1, vs0));
                }
                t
            },
        };
        if expected_ty == Ty::Unknown || ty == expected_ty {
            Ok(ty)
        } else {
            proof {
                if no_calls_expr(*expr) && fuel > size_expr(*expr) && compile_expr_s(
                                *expr,
                                old(var_stack)@,
                                expected_ty,
                            ) is Some {
                    assert(false);
                }
            }
            Err(Fatal::TypeMismatch)
        }
    }
}

impl BytecodeEngine {
    /// Register one item into a scope without compiling bodies: a function
    /// becomes a lazy definition; a file-backed module becomes a lazy
    /// definition whose file stays unread; an inline module gets its
    /// module-boundary scope immediately (so that sibling `use` declarations
    /// can resolve it) while its contents are registered into that scope
    /// through the same logic, staying lazy themselves; a `use` declaration
    /// resolves immediately, starting at the enclosing module boundary, and
    /// re-binds what it imports in this scope.
    #[verifier::loop_isolation(false)]
    fn prepare_item_inner(&mut self, item: Item, current_scope_id: ScopeId, fuel: u64) -> (r:
        Result<(), Fatal>)
        requires
            old(self).wf(),
            (current_scope_id as int) < old(self).scopes@.len(),
        ensures
            registration_frame(*old(self), *final(self), current_scope_id as int),
            fuel >= 1 ==> (item matches Item::Fn(f) ==> r is Ok && final(self).definitions@ == old(
                self,
            ).definitions@.push(DefinitionState::Lazy(Lazy::Fn(f))) && final(self).scopes@[
                current_scope_id as int
            ].definitions@ == old(self).scopes@[current_scope_id as int].definitions@.push(
                (f.name, old(self).definitions@.len() as DefinitionId),
            ) && final(self).scopes@.len() == old(self).scopes@.len()),
            fuel >= 1 ==> (item matches Item::ModFile(name) ==> r is Ok && final(self).definitions@ == old(
                self,
            ).definitions@.push(DefinitionState::Lazy(Lazy::ModFile(name))) && final(self).scopes@[
                current_scope_id as int
            ].definitions@ == old(self).scopes@[current_scope_id as int].definitions@.push(
                (name, old(self).definitions@.len() as DefinitionId),
            ) && final(self).scopes@.len() == old(self).scopes@.len()),
            fuel >= 1 ==> (item matches Item::ModInline(name, items) ==> {
                &&& final(self).scopes@.len() > old(self).scopes@.len()
                &&& final(self).scopes@[old(self).scopes@.len() as int].parent == Some(
                    current_scope_id,
                )
                &&& final(self).scopes@[old(self).scopes@.len() as int].is_mod
                &&& final(self).scopes@[current_scope_id as int].definitions@ == old(self).scopes@[
                    current_scope_id as int
                ].definitions@.push((name, old(self).definitions@.len() as DefinitionId))
                &&& final(self).definitions@[old(self).definitions@.len() as int]
                    == DefinitionState::Processed(
                    Processed::Mod(Mod { scope_id: old(self).scopes@.len() as ScopeId }),
                )
            }),
            fuel >= 1 ==> (item matches Item::Use(tree) ==> (tree matches UseTree::Name(n) ==> r
                is Ok ==> ({
                let base = use_base(old(self).scopes@, current_scope_id as int);
                let pre = old(self).scopes@[current_scope_id as int].definitions@;
                let post = final(self).scopes@[current_scope_id as int].definitions@;
                &&& post.len() == pre.len() + 1
                &&& post.last().0@ == n@
                &&& chain_lookup(old(self).scopes@, n@, base) matches Some(p) && post.last().1
                    == p.0
                &&& def_is_settled(final(self).definitions@[post.last().1 as int])
            }))),
            fuel >= 1 ==> (item matches Item::Use(tree) ==> (tree matches UseTree::Rename(a, b)
                ==> r is Ok ==> ({
                let base = use_base(old(self).scopes@, current_scope_id as int);
                let pre = old(self).scopes@[current_scope_id as int].definitions@;
                let post = final(self).scopes@[current_scope_id as int].definitions@;
                &&& post.len() == pre.len() + 1
                &&& post.last().0@ == b@
                &&& chain_lookup(old(self).scopes@, a@, base) matches Some(p) && post.last().1
                    == p.0
                &&& def_is_settled(final(self).definitions@[post.last().1 as int])
            }))),
            fuel >= 1 ==> (item matches Item::Use(tree) ==> (tree is Glob ==> r is Ok ==> ({
                let base = use_base(old(self).scopes@, current_scope_id as int);
                let pre = old(self).scopes@[current_scope_id as int].definitions@;
                let snap = old(self).scopes@[base].definitions@;
                let post = final(self).scopes@[current_scope_id as int].definitions@;
                &&& post.len() == pre.len() + snap.len()
                &&& forall|m: int|
                    0 <= m < snap.len() ==> (#[trigger] post[pre.len() + m]).0@ == snap[m].0@
                &&& forall|m: int|
                    0 <= m < snap.len() ==> def_is_settled(
                        final(self).definitions@[(#[trigger] post[pre.len() + m]).1 as int],
                    )
            }))),
            fuel >= 3 ==> (item matches Item::Use(tree) ==> (tree matches UseTree::Name(n) ==> ({
                let base = use_base(old(self).scopes@, current_scope_id as int);
                let c = chain_lookup(old(self).scopes@, n@, base);
                (c is Some && def_is_settled(old(self).definitions@[c.unwrap().0 as int])) ==> r
                    is Ok
            }))),
            fuel >= 2 ==> (item matches Item::ModInline(name, items) ==> (items_all_plain(items@)
                ==> (r is Ok && final(self).scopes@[old(self).scopes@.len() as int].definitions@
                == plain_bindings(items@, old(self).definitions@.len() as int + 1)
                && final(self).definitions@ == old(self).definitions@.push(
                DefinitionState::Processed(
                    Processed::Mod(Mod { scope_id: old(self).scopes@.len() as ScopeId }),
                ),
            ) + lazies_of(items@)))),
        decreases fuel,
    {
        if fuel == 0 {
            return Err(Fatal::OutOfFuel);
        }
        match item {
            Item::Fn(f) => {
                let fn_name = f.name.clone();
                self.definitions.push(DefinitionState::Lazy(Lazy::Fn(f)));
                let id = self.definitions.len() - 1;
                proof {
                    assert forall|i: int, k: int|
                        0 <= i < self.scopes@.len() && 0 <= k < self.scopes@[
                            i
                        ].definitions@.len() implies (#[trigger] self.scopes@[i].definitions@[k]).1
                        < self.definitions@.len() by {
                        assert(self.scopes@[i] == old(self).scopes@[i]);
                        assert(self.scopes@[i].definitions@[k].1 < old(self).definitions@.len());
                    }
                }
                self.insert_binding(current_scope_id, fn_name, id);
                Ok(())
            },
            Item::ModFile(name) => {
                let bind = name.clone();
                self.definitions.push(DefinitionState::Lazy(Lazy::ModFile(name)));
                let id = self.definitions.len() - 1;
                proof {
                    assert forall|i: int, k: int|
                        0 <= i < self.scopes@.len() && 0 <= k < self.scopes@[
                            i
                        ].definitions@.len() implies (#[trigger] self.scopes@[i].definitions@[k]).1
                        < self.definitions@.len() by {
                        assert(self.scopes@[i] == old(self).scopes@[i]);
                        assert(self.scopes@[i].definitions@[k].1 < old(self).definitions@.len());
                    }
                }
                self.insert_binding(current_scope_id, bind, id);
                Ok(())
            },
            Item::ModInline(name, mut items) => {
                self.scopes.push(Scope::new(Some(current_scope_id), true));
                let mod_scope_id = self.scopes.len() - 1;
                proof {
                    assert forall|i: int, k: int|
                        0 <= i < self.scopes@.len() && 0 <= k < self.scopes@[
                            i
                        ].definitions@.len() implies (#[trigger] self.scopes@[i].definitions@[k]).1
                        < self.definitions@.len() by {
                        if i < self.scopes@.len() - 1 {
                            assert(self.scopes@[i] == old(self).scopes@[i]);
                        }
                    }
                }
                self.definitions.push(
                    DefinitionState::Processed(Processed::Mod(Mod::new(mod_scope_id))),
                );
                let id = self.definitions.len() - 1;
                proof {
                    assert forall|i: int, k: int|
                        0 <= i < self.scopes@.len() && 0 <= k < self.scopes@[
                            i
                        ].definitions@.len() implies (#[trigger] self.scopes@[i].definitions@[k]).1
                        < self.definitions@.len() by {
                        if i < self.scopes@.len() - 1 {
                            assert(self.scopes@[i] == old(self).scopes@[i]);
                        }
                    }
                }
                self.insert_binding(current_scope_id, name, id);
                let ghost after_reg = *self;
                let ghost all = items@;
                proof {
                    assert(registration_frame(*old(self), after_reg, current_scope_id as int));
                    assert(all.skip(0) =~= all);
                    assert(self.definitions@ =~= after_reg.definitions@ + lazies_of(all.take(0)));
                    assert(self.scopes@[mod_scope_id as int].definitions@ =~= plain_bindings(
                        all.take(0),
                        after_reg.definitions@.len() as int,
                    ));
                }
                while items.len() > 0
                    invariant
                        self.wf(),
                        registration_frame(after_reg, *self, mod_scope_id as int),
                        (mod_scope_id as int) < self.scopes@.len(),
                        (mod_scope_id as int) == after_reg.scopes@.len() - 1,
                        items@.len() <= all.len(),
                        items@ == all.skip((all.len() - items@.len()) as int),
                        fuel >= 2 && items_all_plain(all) ==> ({
                            let done = (all.len() - items@.len()) as int;
                            &&& self.definitions@ == after_reg.definitions@ + lazies_of(
                                all.take(done),
                            )
                            &&& self.scopes@[mod_scope_id as int].definitions@ == plain_bindings(
                                all.take(done),
                                after_reg.definitions@.len() as int,
                            )
                        }),
                    decreases items@.len(),
                {
                    let ghost done = all.len() - items@.len();
                    let it = items.remove(0);
                    proof {
                        assert(all.skip(done as int)[0] == all[done as int]);
                        assert(all.skip(done as int).remove(0) =~= all.skip(done as int + 1));
                    }
                    let ghost pre = *self;
                    let ghost git = it;
                    match self.prepare_item_inner(it, mod_scope_id, fuel - 1) {
                        Ok(()) => {},
                        Err(e) => {
                            proof {
                                lemma_registration_frame_trans(
                                    after_reg,
                                    pre,
                                    *self,
                                    mod_scope_id as int,
                                );
                                lemma_inline_frames(
                                    *old(self),
                                    after_reg,
                                    *self,
                                    current_scope_id as int,
                                    mod_scope_id as int,
                                );
                                if fuel >= 2 && items_all_plain(all) {
                                    assert(git == all[done as int]);
                                    assert(item_is_plain(git));
                                    if git matches Item::Fn(_) {
                                        assert(false);
                                    } else {
                                        assert(git matches Item::ModFile(_));
                                        assert(false);
                                    }
                                }
                            }
                            return Err(e);
                        },
                    }
                    proof {
                        lemma_registration_frame_trans(after_reg, pre, *self, mod_scope_id as int);
                        if fuel >= 2 && items_all_plain(all) {
                            assert(git == all[done as int]);
                            assert(item_is_plain(git));
                            assert(self.definitions@ =~= after_reg.definitions@ + lazies_of(
                                all.take(done as int + 1),
                            ));
                            assert(self.scopes@[mod_scope_id as int].definitions@ =~= plain_bindings(
                                all.take(done as int + 1),
                                after_reg.definitions@.len() as int,
                            ));
                        }
                    }
                }
                proof {
                    if fuel >= 2 && items_all_plain(all) {
                        assert(all.take(all.len() as int) =~= all);
                        assert(after_reg.definitions@ =~= old(self).definitions@.push(
                            DefinitionState::Processed(
                                Processed::Mod(Mod { scope_id: old(self).scopes@.len() as ScopeId }),
                            ),
                        ));
                    }
                }
                proof {
                    lemma_inline_frames(
                        *old(self),
                        after_reg,
                        *self,
                        current_scope_id as int,
                        mod_scope_id as int,
                    );
                }
                Ok(())
            },
            Item::Use(tree) => {
                let mut temp: ScopeId = current_scope_id;
                while !self.scopes[temp].is_mod && self.scopes[temp].parent.is_some()
                    invariant
                        self.wf(),
                        *self == *old(self),
                        (temp as int) < self.scopes@.len(),
                        use_base(self.scopes@, current_scope_id as int) == use_base(
                            self.scopes@,
                            temp as int,
                        ),
                    decreases temp,
                {
                    temp = self.scopes[temp].parent.unwrap();
                }
                proof {
                    assert(temp as int == use_base(self.scopes@, current_scope_id as int));
                }
                self.process_use_tree_inner(&tree, current_scope_id, temp, fuel - 1)
            },
        }
    }

    /// Hand the engine the parsed items of a file-backed module that
    /// resolution reported as needed. The module gets a fresh, parentless
    /// module-boundary scope, its items are registered there (still lazy),
    /// and the definition becomes a compiled module.
    #[verifier::loop_isolation(false)]
    pub fn provide_module(&mut self, definition_id: DefinitionId, items: Vec<Item>) -> (r: Result<
        ScopeId,
        Fatal,
    >)
        requires
            old(self).wf(),
        ensures
            final(self).wf(),
            grows(*old(self), *final(self)),
            inprogress_frozen(*old(self), *final(self)),
            no_new_inprogress(*old(self), *final(self)),
            scopes_preserved(*old(self), *final(self)),
            r matches Ok(sid) ==> {
                &&& sid == old(self).scopes@.len()
                &&& (definition_id as int) < old(self).definitions@.len()
                &&& final(self).definitions@[definition_id as int] == DefinitionState::Processed(
                    Processed::Mod(Mod { scope_id: sid }),
                )
                &&& final(self).scopes@[sid as int].parent is None
                &&& final(self).scopes@[sid as int].is_mod
            },
            !((definition_id as int) < old(self).definitions@.len() && old(self).definitions@[
                definition_id as int
            ] matches DefinitionState::Lazy(Lazy::ModFile(_))) ==> r is Err && *final(self) == *old(
                self,
            ),
            ((definition_id as int) < old(self).definitions@.len() && (old(self).definitions@[
                definition_id as int
            ] matches DefinitionState::Lazy(Lazy::ModFile(_))) && items_all_plain(items@)) ==> (r
                is Ok && final(self).definitions@ == old(self).definitions@.update(
                definition_id as int,
                DefinitionState::Processed(
                    Processed::Mod(Mod { scope_id: old(self).scopes@.len() as ScopeId }),
                ),
            ) + lazies_of(items@) && final(self).scopes@[old(self).scopes@.len() as int].definitions@
                == plain_bindings(items@, old(self).definitions@.len() as int)),
    {
        if definition_id >= self.definitions.len() {
            return Err(Fatal::NotAModule(String::new()));
        }
        match &self.definitions[definition_id] {
            DefinitionState::Lazy(Lazy::ModFile(_)) => {},
            _ => {
                return Err(Fatal::NotAModule(String::new()));
            },
        }
        self.scopes.push(Scope::new(None, true));
        let mod_scope_id = self.scopes.len() - 1;
        proof {
            assert forall|i: int, k: int|
                0 <= i < self.scopes@.len() && 0 <= k < self.scopes@[i].definitions@.len() implies (
            #[trigger] self.scopes@[i].definitions@[k]).1 < self.definitions@.len() by {
                if i < self.scopes@.len() - 1 {
                    assert(self.scopes@[i] == old(self).scopes@[i]);
                }
            }
        }
        self.definitions[definition_id] = DefinitionState::Processed(
            Processed::Mod(Mod::new(mod_scope_id)),
        );
        proof {
            assert forall|i: int, k: int|
                0 <= i < self.scopes@.len() && 0 <= k < self.scopes@[i].definitions@.len() implies (
            #[trigger] self.scopes@[i].definitions@[k]).1 < self.definitions@.len() by {
                if i < self.scopes@.len() - 1 {
                    assert(self.scopes@[i] == old(self).scopes@[i]);
                }
            }
        }
        let ghost after_reg = *self;
        let ghost all = items@;
        let mut items = items;
        proof {
            assert(all.skip(0) =~= all);
            assert(self.definitions@ =~= after_reg.definitions@ + lazies_of(all.take(0)));
            assert(self.scopes@[mod_scope_id as int].definitions@ =~= plain_bindings(
                all.take(0),
                after_reg.definitions@.len() as int,
            ));
        }
        while items.len() > 0
            invariant
                self.wf(),
                registration_frame(after_reg, *self, mod_scope_id as int),
                (mod_scope_id as int) < self.scopes@.len(),
                items@.len() <= all.len(),
                items@ == all.skip((all.len() - items@.len()) as int),
                items_all_plain(all) ==> ({
                    let done = (all.len() - items@.len()) as int;
                    &&& self.definitions@ == after_reg.definitions@ + lazies_of(all.take(done))
                    &&& self.scopes@[mod_scope_id as int].definitions@ == plain_bindings(
                        all.take(done),
                        after_reg.definitions@.len() as int,
                    )
                }),
            decreases items@.len(),
        {
            let ghost done = all.len() - items@.len();
            let it = items.remove(0);
            proof {
                assert(all.skip(done as int)[0] == all[done as int]);
                assert(all.skip(done as int).remove(0) =~= all.skip(done as int + 1));
            }
            let ghost pre = *self;
            let ghost git = it;
            match self.prepare_item_inner(it, mod_scope_id, PROCESS_FUEL) {
                Ok(()) => {},
                Err(e) => {
                    proof {
                        lemma_registration_frame_trans(after_reg, pre, *self, mod_scope_id as int);
                        lemma_provide_frames(
                            *old(self),
                            after_reg,
                            *self,
                            mod_scope_id as int,
                            definition_id as int,
                        );
                        if items_all_plain(all) {
                            assert(git == all[done as int]);
                            assert(item_is_plain(git));
                            if git matches Item::Fn(_) {
                                assert(false);
                            } else {
                                assert(git matches Item::ModFile(_));
                                assert(false);
                            }
                        }
                    }
                    return Err(e);
                },
            }
            proof {
                lemma_registration_frame_trans(after_reg, pre, *self, mod_scope_id as int);
                if items_all_plain(all) {
                    assert(git == all[done as int]);
                    assert(item_is_plain(git));
                    assert(self.definitions@ =~= after_reg.definitions@ + lazies_of(
                        all.take(done as int + 1),
                    ));
                    assert(self.scopes@[mod_scope_id as int].definitions@ =~= plain_bindings(
                        all.take(done as int + 1),
                        after_reg.definitions@.len() as int,
                    ));
                }
            }
        }
        proof {
            if items_all_plain(all) {
                assert(all.take(all.len() as int) =~= all);
                assert(after_reg.definitions@ =~= old(self).definitions@.update(
                    definition_id as int,
                    DefinitionState::Processed(
                        Processed::Mod(Mod { scope_id: old(self).scopes@.len() as ScopeId }),
                    ),
                ));
            }
        }
        proof {
            lemma_provide_frames(
                *old(self),
                after_reg,
                *self,
                mod_scope_id as int,
                definition_id as int,
            );
        }
        Ok(mod_scope_id)
    }

    /// Register a parsed file's top-level items into the root scope, without
    /// compiling anything.
    #[verifier::loop_isolation(false)]
    pub fn load_items(&mut self, items: Vec<Item>) -> (r: Result<(), Fatal>)
        requires
            old(self).wf(),
        ensures
            registration_frame(*old(self), *final(self), 0),
            items_all_plain(items@) ==> (r is Ok && final(self).definitions@ == old(
                self,
            ).definitions@ + lazies_of(items@) && final(self).scopes@.len() == old(
                self,
            ).scopes@.len() && final(self).scopes@[0].definitions@ == old(self).scopes@[
                0
            ].definitions@ + plain_bindings(items@, old(self).definitions@.len() as int)),
    {
        let ghost all = items@;
        let mut items = items;
        proof {
            assert(all.skip(0) =~= all);
            assert(self.definitions@ =~= old(self).definitions@ + lazies_of(all.take(0)));
            assert(self.scopes@[0].definitions@ =~= old(self).scopes@[0].definitions@
                + plain_bindings(all.take(0), old(self).definitions@.len() as int));
        }
        while items.len() > 0
            invariant
                self.wf(),
                registration_frame(*old(self), *self, 0),
                items@.len() <= all.len(),
                items@ == all.skip((all.len() - items@.len()) as int),
                items_all_plain(all) ==> ({
                    let done = (all.len() - items@.len()) as int;
                    &&& self.definitions@ == old(self).definitions@ + lazies_of(all.take(done))
                    &&& self.scopes@.len() == old(self).scopes@.len()
                    &&& self.scopes@[0].definitions@ == old(self).scopes@[0].definitions@
                        + plain_bindings(all.take(done), old(self).definitions@.len() as int)
                }),
            decreases items@.len(),
        {
            let ghost done = all.len() - items@.len();
            let it = items.remove(0);
            proof {
                assert(all.skip(done as int)[0] == all[done as int]);
                assert(all.skip(done as int).remove(0) =~= all.skip(done as int + 1));
            }
            let ghost pre = *self;
            let ghost git = it;
            match self.prepare_item_inner(it, 0, PROCESS_FUEL) {
                Ok(()) => {},
                Err(e) => {
                    proof {
                        lemma_registration_frame_trans(*old(self), pre, *self, 0);
                        if items_all_plain(all) {
                            assert(git == all[done as int]);
                            assert(item_is_plain(git));
                            if git matches Item::Fn(_) {
                                assert(false);
                            } else {
                                assert(git matches Item::ModFile(_));
                                assert(false);
                            }
                        }
                    }
                    return Err(e);
                },
            }
            proof {
                lemma_registration_frame_trans(*old(self), pre, *self, 0);
                if items_all_plain(all) {
                    assert(item_is_plain(all[done as int]));
                    assert(self.definitions@ =~= old(self).definitions@ + lazies_of(
                        all.take(done as int + 1),
                    ));
                    assert(self.scopes@[0].definitions@ =~= old(self).scopes@[0].definitions@
                        + plain_bindings(
                        all.take(done as int + 1),
                        old(self).definitions@.len() as int,
                    ));
                }
            }
        }
        proof {
            if items_all_plain(all) {
                assert(all.take(all.len() as int) =~= all);
            }
        }
        Ok(())
    }

    /// Register one item into the given scope; see `load_items` for whole
    /// files. Everything stays lazy except what a `use` declaration forces.
    pub fn prepare_item(&mut self, item: Item, current_scope_id: ScopeId) -> (r: Result<(), Fatal>)
        requires
            old(self).wf(),
            (current_scope_id as int) < old(self).scopes@.len(),
        ensures
            registration_frame(*old(self), *final(self), current_scope_id as int),
            item matches Item::Fn(f) ==> r is Ok && final(self).definitions@ == old(
                self,
            ).definitions@.push(DefinitionState::Lazy(Lazy::Fn(f))) && final(self).scopes@[
                current_scope_id as int
            ].definitions@ == old(self).scopes@[current_scope_id as int].definitions@.push(
                (f.name, old(self).definitions@.len() as DefinitionId),
            ) && final(self).scopes@.len() == old(self).scopes@.len(),
            item matches Item::ModFile(name) ==> r is Ok && final(self).definitions@ == old(
                self,
            ).definitions@.push(DefinitionState::Lazy(Lazy::ModFile(name))) && final(self).scopes@[
                current_scope_id as int
            ].definitions@ == old(self).scopes@[current_scope_id as int].definitions@.push(
                (name, old(self).definitions@.len() as DefinitionId),
            ) && final(self).scopes@.len() == old(self).scopes@.len(),
            item matches Item::ModInline(name, items) ==> {
                &&& final(self).scopes@.len() > old(self).scopes@.len()
                &&& final(self).scopes@[old(self).scopes@.len() as int].parent == Some(
                    current_scope_id,
                )
                &&& final(self).scopes@[old(self).scopes@.len() as int].is_mod
                &&& final(self).scopes@[current_scope_id as int].definitions@ == old(self).scopes@[
                    current_scope_id as int
                ].definitions@.push((name, old(self).definitions@.len() as DefinitionId))
                &&& final(self).definitions@[old(self).definitions@.len() as int]
                    == DefinitionState::Processed(
                    Processed::Mod(Mod { scope_id: old(self).scopes@.len() as ScopeId }),
                )
            },
            item matches Item::ModInline(name, items) ==> (items_all_plain(items@) ==> (r is Ok
                && final(self).scopes@[old(self).scopes@.len() as int].definitions@
                == plain_bindings(items@, old(self).definitions@.len() as int + 1)
                && final(self).definitions@ == old(self).definitions@.push(
                DefinitionState::Processed(
                    Processed::Mod(Mod { scope_id: old(self).scopes@.len() as ScopeId }),
                ),
            ) + lazies_of(items@))),
            item matches Item::Use(tree) ==> (tree matches UseTree::Name(n) ==> r is Ok ==> ({
                let base = use_base(old(self).scopes@, current_scope_id as int);
                let pre = old(self).scopes@[current_scope_id as int].definitions@;
                let post = final(self).scopes@[current_scope_id as int].definitions@;
                &&& post.len() == pre.len() + 1
                &&& post.last().0@ == n@
                &&& chain_lookup(old(self).scopes@, n@, base) matches Some(p) && post.last().1
                    == p.0
                &&& def_is_settled(final(self).definitions@[post.last().1 as int])
            })),
            item matches Item::Use(tree) ==> (tree matches UseTree::Rename(a, b) ==> r is Ok
                ==> ({
                let base = use_base(old(self).scopes@, current_scope_id as int);
                let pre = old(self).scopes@[current_scope_id as int].definitions@;
                let post = final(self).scopes@[current_scope_id as int].definitions@;
                &&& post.len() == pre.len() + 1
                &&& post.last().0@ == b@
                &&& chain_lookup(old(self).scopes@, a@, base) matches Some(p) && post.last().1
                    == p.0
                &&& def_is_settled(final(self).definitions@[post.last().1 as int])
            })),
            item matches Item::Use(tree) ==> (tree is Glob ==> r is Ok ==> ({
                let base = use_base(old(self).scopes@, current_scope_id as int);
                let pre = old(self).scopes@[current_scope_id as int].definitions@;
                let snap = old(self).scopes@[base].definitions@;
                let post = final(self).scopes@[current_scope_id as int].definitions@;
                &&& post.len() == pre.len() + snap.len()
                &&& forall|m: int|
                    0 <= m < snap.len() ==> (#[trigger] post[pre.len() + m]).0@ == snap[m].0@
                &&& forall|m: int|
                    0 <= m < snap.len() ==> def_is_settled(
                        final(self).definitions@[(#[trigger] post[pre.len() + m]).1 as int],
                    )
            })),
            item matches Item::Use(tree) ==> (tree matches UseTree::Name(n) ==> ({
                let base = use_base(old(self).scopes@, current_scope_id as int);
                let c = chain_lookup(old(self).scopes@, n@, base);
                (c is Some && def_is_settled(old(self).definitions@[c.unwrap().0 as int])) ==> r
                    is Ok
            })),
    {
        self.prepare_item_inner(item, current_scope_id, PROCESS_FUEL)
    }

    /// Begin processing the lazy definitions starting at the named function:
    /// resolve it from the given scope and compile it if this is its first
    /// reference. Definitions referenced by its body are processed as they
    /// are met, each at most once; processing an already processed
    /// definition returns the same id and changes nothing.
    pub fn process_fn(&mut self, fn_name: &str, scope_id: ScopeId) -> (r: Result<
        DefinitionId,
        Fatal,
    >)
        requires
            old(self).wf(),
            (scope_id as int) < old(self).scopes@.len(),
        ensures
            resolution_frame(*old(self), *final(self)),
            r matches Ok(id) ==> {
                &&& chain_lookup(old(self).scopes@, fn_name@, scope_id as int) matches Some(p)
                    && p.0 == id
                &&& (id as int) < final(self).definitions@.len()
                &&& (def_is_fun(final(self).definitions@[id as int]) || final(self).definitions@[
                    id as int
                ] is InProgress)
            },
            ({
                let c = chain_lookup(old(self).scopes@, fn_name@, scope_id as int);
                (c is Some && !(old(self).definitions@[c.unwrap().0 as int] is Lazy) && !def_is_mod(
                    old(self).definitions@[c.unwrap().0 as int],
                )) ==> (*final(self) == *old(self) && r == Ok::<DefinitionId, Fatal>(
                    c.unwrap().0,
                ))
            }),
            ({
                let c = chain_lookup(old(self).scopes@, fn_name@, scope_id as int);
                c is Some ==> (old(self).definitions@[c.unwrap().0 as int]
                    matches DefinitionState::Lazy(Lazy::Fn(f)) ==> (r is Ok ==> (
                final(self).definitions@[c.unwrap().0 as int]
                    matches DefinitionState::Processed(Processed::Fun(fun))
                    && fun_matches_item(fun, f))))
            }),
            ({
                let c = chain_lookup(old(self).scopes@, fn_name@, scope_id as int);
                c is Some ==> (old(self).definitions@[c.unwrap().0 as int]
                    matches DefinitionState::Lazy(Lazy::Fn(f)) ==> ((no_calls_stmts(f.body@)
                    && size_stmts(f.body@) + 2 < PROCESS_FUEL && compile_stmts_s(
                    f.body@,
                    params_vs(f.params@),
                    f.return_ty,
                ) is Some) ==> r is Ok))
            }),
    {
        self.process_fn_inner(fn_name, scope_id, PROCESS_FUEL)
    }

    /// Resolve a name and force its definition to be processed, whatever its
    /// kind; re-resolving a processed definition is a no-op yielding the
    /// same id.
    pub fn process_defn(&mut self, name: &str, scope_id: ScopeId) -> (r: Result<
        DefinitionId,
        Fatal,
    >)
        requires
            old(self).wf(),
            (scope_id as int) < old(self).scopes@.len(),
        ensures
            resolution_frame(*old(self), *final(self)),
            r matches Ok(id) ==> {
                &&& chain_lookup(old(self).scopes@, name@, scope_id as int) matches Some(p)
                    && p.0 == id
                &&& (id as int) < final(self).definitions@.len()
                &&& def_is_settled(final(self).definitions@[id as int])
            },
            ({
                let c = chain_lookup(old(self).scopes@, name@, scope_id as int);
                (c is Some && !(old(self).definitions@[c.unwrap().0 as int] is Lazy)) ==> (
                *final(self) == *old(self) && r == Ok::<DefinitionId, Fatal>(c.unwrap().0))
            }),
            chain_lookup(old(self).scopes@, name@, scope_id as int) is None ==> r is Err
                && *final(self) == *old(self),
            ({
                let c = chain_lookup(old(self).scopes@, name@, scope_id as int);
                c is Some ==> (old(self).definitions@[c.unwrap().0 as int]
                    matches DefinitionState::Lazy(Lazy::Fn(f)) ==> ((no_calls_stmts(f.body@)
                    && size_stmts(f.body@) + 3 < PROCESS_FUEL && compile_stmts_s(
                    f.body@,
                    params_vs(f.params@),
                    f.return_ty,
                ) is Some) ==> r is Ok))
            }),
    {
        self.process_defn_inner(name, scope_id, PROCESS_FUEL)
    }

    /// Process a path like `a::b::c` looking for the definition it
    /// references, forcing processing of every module along the way and of
    /// the final definition.
    pub fn process_path(&mut self, path: &ItemPath, current_scope_id: ScopeId) -> (r: Result<
        DefinitionId,
        Fatal,
    >)
        requires
            old(self).wf(),
            (current_scope_id as int) < old(self).scopes@.len(),
            path.segments@.len() >= 1,
        ensures
            resolution_frame(*old(self), *final(self)),
            r matches Ok(id) ==> {
                &&& (id as int) < final(self).definitions@.len()
                &&& def_is_settled(final(self).definitions@[id as int])
            },
            (!path.leading_colon && path.segments@.len() == 1) ==> {
                let c = chain_lookup(
                    old(self).scopes@,
                    path.segments@[0]@,
                    current_scope_id as int,
                );
                &&& (r matches Ok(id) ==> c matches Some(p) && p.0 == id)
                &&& ((c is Some && !(old(self).definitions@[c.unwrap().0 as int] is Lazy)) ==> (
                *final(self) == *old(self) && r == Ok::<DefinitionId, Fatal>(c.unwrap().0)))
                &&& c is None ==> r is Err
            },
            (!path.leading_colon && path.segments@.len() > 1) ==> (r is Ok ==> ({
                let c = chain_lookup(
                    old(self).scopes@,
                    path.segments@[0]@,
                    current_scope_id as int,
                );
                c is Some && def_is_mod(old(self).definitions@[c.unwrap().0 as int])
            })),
            r matches Ok(id) ==> ({
                let start = if path.leading_colon {
                    top_scope(old(self).scopes@, current_scope_id as int)
                } else {
                    current_scope_id as int
                };
                path_walk(old(self).scopes@, old(self).definitions@, path.segments@, 0, start)
                    matches Some(p) && p.0 == id
            }),
    {
        self.process_path_inner(path, current_scope_id, PROCESS_FUEL)
    }

    /// Process one alias tree of a `use` declaration: resolve each imported
    /// name starting from `current_scope_id` (forcing processing of what it
    /// imports) and re-bind it in `original_scope_id`. A glob re-binds
    /// exactly the names registered in the target scope at this moment: a
    /// name added to the target module afterwards is not imported.
    pub fn process_use_tree(
        &mut self,
        use_tree: &UseTree,
        original_scope_id: ScopeId,
        current_scope_id: ScopeId,
    ) -> (r: Result<(), Fatal>)
        requires
            old(self).wf(),
            (original_scope_id as int) < old(self).scopes@.len(),
            (current_scope_id as int) < old(self).scopes@.len(),
        ensures
            registration_frame(*old(self), *final(self), original_scope_id as int),
            final(self).scopes@.len() == old(self).scopes@.len(),
            use_tree matches UseTree::Name(n) ==> r is Ok ==> ({
                let pre = old(self).scopes@[original_scope_id as int].definitions@;
                let post = final(self).scopes@[original_scope_id as int].definitions@;
                &&& post.len() == pre.len() + 1
                &&& post.last().0@ == n@
                &&& chain_lookup(old(self).scopes@, n@, current_scope_id as int) matches Some(p)
                    && post.last().1 == p.0
                &&& def_is_settled(final(self).definitions@[post.last().1 as int])
            }),
            use_tree matches UseTree::Rename(a, b) ==> r is Ok ==> ({
                let pre = old(self).scopes@[original_scope_id as int].definitions@;
                let post = final(self).scopes@[original_scope_id as int].definitions@;
                &&& post.len() == pre.len() + 1
                &&& post.last().0@ == b@
                &&& chain_lookup(old(self).scopes@, a@, current_scope_id as int) matches Some(p)
                    && post.last().1 == p.0
                &&& def_is_settled(final(self).definitions@[post.last().1 as int])
            }),
            use_tree is Glob ==> r is Ok ==> ({
                let pre = old(self).scopes@[original_scope_id as int].definitions@;
                let snap = old(self).scopes@[current_scope_id as int].definitions@;
                let post = final(self).scopes@[original_scope_id as int].definitions@;
                &&& post.len() == pre.len() + snap.len()
                &&& forall|m: int|
                    0 <= m < snap.len() ==> (#[trigger] post[pre.len() + m]).0@ == snap[m].0@
                &&& forall|m: int|
                    0 <= m < snap.len() ==> def_is_settled(
                        final(self).definitions@[(#[trigger] post[pre.len() + m]).1 as int],
                    )
                &&& original_scope_id != current_scope_id ==> forall|m: int|
                    0 <= m < snap.len() ==> scope_find(snap, snap[m].0@) == Some(
                        (#[trigger] post[pre.len() + m]).1,
                    )
            }),
            use_tree matches UseTree::Path(seg, _rest) ==> r is Ok ==> ({
                let c = chain_lookup(old(self).scopes@, seg@, current_scope_id as int);
                c is Some && def_is_mod(old(self).definitions@[c.unwrap().0 as int])
            }),
            use_tree matches UseTree::Name(n) ==> ({
                let c = chain_lookup(old(self).scopes@, n@, current_scope_id as int);
                (c is Some && def_is_settled(old(self).definitions@[c.unwrap().0 as int])) ==> r
                    is Ok
            }),
            use_tree matches UseTree::Rename(a, _b) ==> ({
                let c = chain_lookup(old(self).scopes@, a@, current_scope_id as int);
                (c is Some && def_is_settled(old(self).definitions@[c.unwrap().0 as int])) ==> r
                    is Ok
            }),
    {
        self.process_use_tree_inner(use_tree, original_scope_id, current_scope_id, PROCESS_FUEL)
    }

    /// Immediately compile a free-standing expression onto the end of an
    /// externally supplied bytecode buffer, against an externally supplied
    /// variable table, using the root scope — the expression entry point for
    /// an interactive caller.
    pub fn process_raw_expr(
        &mut self,
        expr: &Expr,
        bytecode: &mut Vec<Bytecode>,
        var_stack: &mut VarStack,
    ) -> (r: Result<Ty, Fatal>)
        requires
            old(self).wf(),
            old(var_stack)@.wf(),
        ensures
            resolution_frame(*old(self), *final(self)),
            final(var_stack)@.wf(),
            old(var_stack)@.vars.is_prefix_of(final(var_stack)@.vars),
            final(var_stack)@.visible == old(var_stack)@.visible,
            old(bytecode)@.is_prefix_of(final(bytecode)@),
            no_calls_expr(*expr) ==> (r matches Ok(t) ==> compile_expr_s(
                *expr,
                old(var_stack)@,
                Ty::Unknown,
            ) == Some(
                (final(bytecode)@.skip(old(bytecode)@.len() as int), t, final(var_stack)@),
            )),
            (no_calls_expr(*expr) && size_expr(*expr) < PROCESS_FUEL && compile_expr_s(
                *expr,
                old(var_stack)@,
                Ty::Unknown,
            ) is Some) ==> r is Ok,
    {
        self.convert_expr_inner(expr, Ty::Unknown, bytecode, 0, var_stack, PROCESS_FUEL)
    }

    /// Immediately compile a free-standing statement onto the end of an
    /// externally supplied bytecode buffer — the statement entry point for
    /// an interactive caller. An item in statement position is registered
    /// into the root scope instead, so that its definition is in scope from
    /// then on.
    pub fn process_raw_stmt(
        &mut self,
        stmt: Stmt,
        bytecode: &mut Vec<Bytecode>,
        var_stack: &mut VarStack,
    ) -> (r: Result<(), Fatal>)
        requires
            old(self).wf(),
            old(var_stack)@.wf(),
        ensures
            final(self).wf(),
            grows(*old(self), *final(self)),
            inprogress_frozen(*old(self), *final(self)),
            scopes_preserved_except(*old(self), *final(self), 0),
            final(var_stack)@.wf(),
            old(var_stack)@.vars.is_prefix_of(final(var_stack)@.vars),
            old(var_stack)@.visible.is_prefix_of(final(var_stack)@.visible),
            old(bytecode)@.is_prefix_of(final(bytecode)@),
            no_calls_stmt(stmt) ==> (r is Ok ==> ({
                let c = compile_stmt_s(stmt, old(var_stack)@, Ty::Unknown);
                &&& c is Some
                &&& c.unwrap().0 == final(bytecode)@.skip(old(bytecode)@.len() as int)
                &&& c.unwrap().2 == final(var_stack)@
            })),
            stmt matches Stmt::Item(it) ==> (final(bytecode)@ == old(bytecode)@
                && *final(var_stack) == *old(var_stack)),
            stmt matches Stmt::Item(it) ==> (*it matches Item::Fn(f) ==> (r is Ok
                && final(self).definitions@ == old(self).definitions@.push(
                DefinitionState::Lazy(Lazy::Fn(f)),
            ) && final(self).scopes@[0].definitions@ == old(self).scopes@[0].definitions@.push(
                (f.name, old(self).definitions@.len() as DefinitionId),
            ))),
            stmt matches Stmt::Item(it) ==> (*it matches Item::ModFile(name) ==> (r is Ok
                && final(self).definitions@ == old(self).definitions@.push(
                DefinitionState::Lazy(Lazy::ModFile(name)),
            ) && final(self).scopes@[0].definitions@ == old(self).scopes@[0].definitions@.push(
                (name, old(self).definitions@.len() as DefinitionId),
            ))),
            (no_calls_stmt(stmt) && size_stmt(stmt) < PROCESS_FUEL && compile_stmt_s(
                stmt,
                old(var_stack)@,
                Ty::Unknown,
            ) is Some) ==> r is Ok,
    {
        match stmt {
            Stmt::Item(item) => {
                let r = self.prepare_item_inner(*item, 0, PROCESS_FUEL);
                match r {
                    Ok(()) => Ok(()),
                    Err(e) => Err(e),
                }
            },
            other => {
                match self.convert_stmt_inner(
                    &other,
                    Ty::Unknown,
                    bytecode,
                    0,
                    var_stack,
                    PROCESS_FUEL,
                ) {
                    Ok(_) => Ok(()),
                    Err(e) => Err(e),
                }
            },
        }
    }
}

/// Registering an inline module's contents into its fresh scope leaves the
/// defining scope's frame intact: composing the step that created the
/// module scope with the steps that filled it still only touches the
/// defining scope, and keeps the module binding and descriptor exact.
proof fn lemma_inline_frames(
    pre: BytecodeEngine,
    mid: BytecodeEngine,
    post: BytecodeEngine,
    cur: int,
    mod_scope: int,
)
    requires
        registration_frame(pre, mid, cur),
        registration_frame(mid, post, mod_scope),
        mod_scope == mid.scopes@.len() - 1,
        mod_scope >= pre.scopes@.len(),
        0 <= cur < pre.scopes@.len(),
    ensures
        registration_frame(pre, post, cur),
        post.scopes@[cur] == mid.scopes@[cur],
        pre.definitions@.len() <= mid.definitions@.len() ==> forall|j: int|
            pre.definitions@.len() <= j < mid.definitions@.len() && !((#[trigger] mid.definitions@[
                j
            ]) is InProgress) && (mid.definitions@[j] is Processed) ==> post.definitions@[j]
                == mid.definitions@[j],
        post.scopes@[mod_scope].parent == mid.scopes@[mod_scope].parent,
        post.scopes@[mod_scope].is_mod == mid.scopes@[mod_scope].is_mod,
{
    lemma_grows_trans(pre, mid, post);
    assert forall|j: int|
        0 <= j < pre.definitions@.len() && (#[trigger] pre.definitions@[j]) is InProgress implies
        post.definitions@[j] == pre.definitions@[j] by {
        assert(mid.definitions@[j] == pre.definitions@[j]);
    }
    assert forall|i: int|
        0 <= i < pre.scopes@.len() && i != cur implies pre.scopes@[i] == #[trigger] post.scopes@[
        i
    ] by {
        assert(pre.scopes@[i] == mid.scopes@[i]);
        assert(mid.scopes@[i] == post.scopes@[i]);
    }
    assert(post.scopes@[cur] == mid.scopes@[cur]);
    assert forall|j: int|
        pre.definitions@.len() <= j < mid.definitions@.len() && !((#[trigger] mid.definitions@[
            j
        ]) is InProgress) && (mid.definitions@[j] is Processed) implies post.definitions@[j]
        == mid.definitions@[j] by {
        assert(def_evolves(mid.definitions@[j], post.definitions@[j]));
    }
}

/// Same composition for a provided file-backed module: the pre-existing
/// scopes stay untouched and the new module descriptor stays exact.
proof fn lemma_provide_frames(
    pre: BytecodeEngine,
    mid: BytecodeEngine,
    post: BytecodeEngine,
    mod_scope: int,
    def_id: int,
)
    requires
        grows(pre, mid),
        inprogress_frozen(pre, mid),
        scopes_preserved(pre, mid),
        mid.scopes@.len() == pre.scopes@.len() + 1,
        mod_scope == mid.scopes@.len() - 1,
        registration_frame(mid, post, mod_scope),
        no_new_inprogress(pre, mid),
        0 <= def_id < mid.definitions@.len(),
        mid.definitions@[def_id] is Processed,
    ensures
        grows(pre, post),
        inprogress_frozen(pre, post),
        no_new_inprogress(pre, post),
        scopes_preserved(pre, post),
        post.definitions@[def_id] == mid.definitions@[def_id],
{
    lemma_grows_trans(pre, mid, post);
    assert forall|j: int|
        0 <= j < pre.definitions@.len() && (#[trigger] pre.definitions@[j]) is InProgress implies
        post.definitions@[j] == pre.definitions@[j] by {
        assert(mid.definitions@[j] == pre.definitions@[j]);
    }
    assert forall|i: int|
        0 <= i < pre.scopes@.len() implies pre.scopes@[i] == #[trigger] post.scopes@[i] by {
        assert(pre.scopes@[i] == mid.scopes@[i]);
        assert(mid.scopes@[i] == post.scopes@[i]);
    }
    assert forall|j: int|
        0 <= j < pre.definitions@.len() && (#[trigger] post.definitions@[j]) is InProgress implies
        pre.definitions@[j] is InProgress by {
        assert(mid.definitions@[j] is InProgress);
    }
    assert(def_evolves(mid.definitions@[def_id], post.definitions@[def_id]));
}

} // verus!
