//! The bytecode virtual machine: a stack-based evaluator with an exact
//! mathematical semantics.
//!
//! `eval_spec` is the operational semantics of the instruction format, one
//! step per unit of fuel; the executable evaluator returns exactly what the
//! semantics says, with `None` standing for the fatal conditions (a type
//! mismatch, a missing slot, arithmetic that cannot be represented, a jump
//! out of the sequence) and for fuel running out.

use vstd::prelude::*;

use crate::bytecode::{Bytecode, DefinitionId};
use crate::engine::{
    chain_lookup, def_is_fun, BytecodeEngine, DefinitionState, Processed, EVAL_FUEL,
};

verus! {

/// A runtime value: an unsigned 64-bit integer, a boolean, the void value,
/// or the error sentinel that a return instruction yields when it finds an
/// empty operand stack.
#[derive(Clone, Copy, PartialEq, Eq, Structural, Debug)]
pub enum Value {
    U64(u64),
    Bool(bool),
    Error,
    Void,
}

/// What the evaluator needs to know of a compiled function: how many
/// arguments it takes, and its instruction sequence.
pub ghost struct FunCode {
    pub arity: nat,
    pub code: Seq<Bytecode>,
}

/// The callable definitions of an engine, by definition id: a call
/// instruction can reach exactly the definitions that are compiled
/// functions.
pub open spec fn engine_funs(bc: BytecodeEngine) -> Seq<Option<FunCode>> {
    Seq::new(
        bc.definitions@.len(),
        |j: int|
            match bc.definitions@[j] {
                DefinitionState::Processed(Processed::Fun(f)) => Some(
                    FunCode { arity: f.params@.len(), code: f.bytecode@ },
                ),
                _ => None,
            },
    )
}

/// The operand-stack position a variable slot is bound to: the latest
/// declaration of the slot wins.
pub open spec fn slot_pos(slots: Seq<(usize, usize)>, id: usize) -> Option<usize>
    decreases slots.len(),
{
    if slots.len() == 0 {
        None
    } else if slots.last().0 == id {
        Some(slots.last().1)
    } else {
        slot_pos(slots.drop_last(), id)
    }
}

/// The slot map a fresh invocation starts with: argument `i` sits at stack
/// position `i`, and parameter slots are allocated first, in order, by the
/// compiler.
pub open spec fn init_slots(arity: nat) -> Seq<(usize, usize)> {
    Seq::new(arity, |i: int| (i as usize, i as usize))
}

/// One evaluation, one step per unit of fuel, starting at instruction `ip`
/// with the given operand stack and slot map.
///
/// `None` is an aborted evaluation: an instruction met operands of the
/// wrong kind or too few of them, an arithmetic result was not
/// representable, a variable slot was missing or pointed outside the stack,
/// a call named something that is not a compiled function, a jump left the
/// sequence, or the fuel ran out. Otherwise the result is the value of the
/// first return instruction reached, the error sentinel for a return from
/// an empty stack, and void when evaluation falls off the end of the
/// sequence.
pub open spec fn eval_spec(
    funs: Seq<Option<FunCode>>,
    code: Seq<Bytecode>,
    ip: int,
    stack: Seq<Value>,
    slots: Seq<(usize, usize)>,
    fuel: nat,
) -> Option<Value>
    decreases fuel,
{
    if fuel == 0 {
        None
    } else if ip == code.len() {
        Some(Value::Void)
    } else if ip < 0 || ip > code.len() {
        None
    } else {
        let next = (fuel - 1) as nat;
        match code[ip] {
            Bytecode::ReturnVoid => Some(Value::Void),
            Bytecode::ReturnLastStackValue => if stack.len() == 0 {
                Some(Value::Error)
            } else {
                Some(stack.last())
            },
            Bytecode::PushU64(v) => eval_spec(
                funs,
                code,
                ip + 1,
                stack.push(Value::U64(v)),
                slots,
                next,
            ),
            Bytecode::PushU32(v) => eval_spec(
                funs,
                code,
                ip + 1,
                stack.push(Value::U64(v as u64)),
                slots,
                next,
            ),
            Bytecode::PushBool(b) => eval_spec(
                funs,
                code,
                ip + 1,
                stack.push(Value::Bool(b)),
                slots,
                next,
            ),
            Bytecode::Add => if stack.len() >= 2 {
                match (stack[stack.len() - 2], stack[stack.len() - 1]) {
                    (Value::U64(lhs), Value::U64(rhs)) => if lhs + rhs <= u64::MAX {
                        eval_spec(
                            funs,
                            code,
                            ip + 1,
                            stack.drop_last().drop_last().push(Value::U64((lhs + rhs) as u64)),
                            slots,
                            next,
                        )
                    } else {
                        None
                    },
                    _ => None,
                }
            } else {
                None
            },
            Bytecode::Sub => if stack.len() >= 2 {
                match (stack[stack.len() - 2], stack[stack.len() - 1]) {
                    (Value::U64(lhs), Value::U64(rhs)) => if rhs <= lhs {
                        eval_spec(
                            funs,
                            code,
                            ip + 1,
                            stack.drop_last().drop_last().push(Value::U64((lhs - rhs) as u64)),
                            slots,
                            next,
                        )
                    } else {
                        None
                    },
                    _ => None,
                }
            } else {
                None
            },
            Bytecode::Mul => if stack.len() >= 2 {
                match (stack[stack.len() - 2], stack[stack.len() - 1]) {
                    (Value::U64(lhs), Value::U64(rhs)) => if lhs * rhs <= u64::MAX {
                        eval_spec(
                            funs,
                            code,
                            ip + 1,
                            stack.drop_last().drop_last().push(Value::U64((lhs * rhs) as u64)),
                            slots,
                            next,
                        )
                    } else {
                        None
                    },
                    _ => None,
                }
            } else {
                None
            },
            Bytecode::Div => if stack.len() >= 2 {
                match (stack[stack.len() - 2], stack[stack.len() - 1]) {
                    (Value::U64(lhs), Value::U64(rhs)) => if rhs != 0 {
                        eval_spec(
                            funs,
                            code,
                            ip + 1,
                            stack.drop_last().drop_last().push(Value::U64(lhs / rhs)),
                            slots,
                            next,
                        )
                    } else {
                        None
                    },
                    _ => None,
                }
            } else {
                None
            },
            Bytecode::Lt => if stack.len() >= 2 {
                match (stack[stack.len() - 2], stack[stack.len() - 1]) {
                    (Value::U64(lhs), Value::U64(rhs)) => eval_spec(
                        funs,
                        code,
                        ip + 1,
                        stack.drop_last().drop_last().push(Value::Bool(lhs < rhs)),
                        slots,
                        next,
                    ),
                    _ => None,
                }
            } else {
                None
            },
            Bytecode::VarDecl(id) => if stack.len() == 0 {
                None
            } else {
                eval_spec(
                    funs,
                    code,
                    ip + 1,
                    stack,
                    slots.push((id, (stack.len() - 1) as usize)),
                    next,
                )
            },
            Bytecode::VarDeclUninit(id) => eval_spec(
                funs,
                code,
                ip + 1,
                stack.push(Value::Void),
                slots.push((id, stack.len() as usize)),
                next,
            ),
            Bytecode::Var(id) => match slot_pos(slots, id) {
                Some(p) => if (p as int) < stack.len() {
                    eval_spec(funs, code, ip + 1, stack.push(stack[p as int]), slots, next)
                } else {
                    None
                },
                None => None,
            },
            Bytecode::Assign(id) => if stack.len() == 0 {
                None
            } else {
                match slot_pos(slots, id) {
                    Some(p) => if (p as int) < stack.len() - 1 {
                        eval_spec(
                            funs,
                            code,
                            ip + 1,
                            stack.drop_last().update(p as int, stack.last()),
                            slots,
                            next,
                        )
                    } else {
                        None
                    },
                    None => None,
                }
            },
            Bytecode::Call(d) => if (d as int) < funs.len() && funs[d as int] is Some {
                let fc = funs[d as int].unwrap();
                if stack.len() >= fc.arity {
                    let args = stack.subrange(stack.len() - fc.arity, stack.len() as int);
                    match eval_spec(funs, fc.code, 0, args, init_slots(fc.arity), next) {
                        Some(v) => eval_spec(
                            funs,
                            code,
                            ip + 1,
                            stack.subrange(0, stack.len() - fc.arity).push(v),
                            slots,
                            next,
                        ),
                        None => None,
                    }
                } else {
                    None
                }
            } else {
                None
            },
            Bytecode::If(off, _ty) => if stack.len() >= 1 {
                match stack.last() {
                    Value::Bool(b) => eval_spec(
                        funs,
                        code,
                        if b {
                            ip + 1
                        } else {
                            ip + off
                        },
                        stack.drop_last(),
                        slots,
                        next,
                    ),
                    _ => None,
                }
            } else {
                None
            },
            Bytecode::Else(off, _ty) => eval_spec(funs, code, ip + off, stack, slots, next),
            Bytecode::EndIf(_ty) => eval_spec(funs, code, ip + 1, stack, slots, next),
            Bytecode::BeginWhile => eval_spec(funs, code, ip + 1, stack, slots, next),
            Bytecode::WhileCond(off) => if stack.len() >= 1 {
                match stack.last() {
                    Value::Bool(b) => eval_spec(
                        funs,
                        code,
                        if b {
                            ip + 1
                        } else {
                            ip + off
                        },
                        stack.drop_last(),
                        slots,
                        next,
                    ),
                    _ => None,
                }
            } else {
                None
            },
            Bytecode::EndWhile(off) => eval_spec(funs, code, ip - off, stack, slots, next),
            Bytecode::DebugPrint => eval_spec(funs, code, ip + 1, stack, slots, next),
        }
    }
}

/// The stack position a slot is bound to, scanning the newest bindings
/// first.
fn find_slot(slots: &Vec<(usize, usize)>, id: usize) -> (r: Option<usize>)
    ensures
        r == slot_pos(slots@, id),
{
    let mut i: usize = slots.len();
    proof {
        assert(slots@.take(i as int) =~= slots@);
    }
    while i > 0
        invariant
            i <= slots@.len(),
            slot_pos(slots@, id) == slot_pos(slots@.take(i as int), id),
        decreases i,
    {
        i = i - 1;
        proof {
            assert(slots@.take(i + 1).drop_last() =~= slots@.take(i as int));
            assert(slots@.take(i + 1).last() == slots@[i as int]);
        }
        if slots[i].0 == id {
            return Some(slots[i].1);
        }
    }
    proof {
        assert(slots@.take(0) =~= Seq::<(usize, usize)>::empty());
    }
    None
}

/// Execute one instruction sequence with the given initial operand stack
/// and slot map, producing exactly what the semantics assigns to it.
#[verifier::loop_isolation(false)]
#[verifier::rlimit(60)]
fn eval_code(
    bc: &BytecodeEngine,
    bytecode: &Vec<Bytecode>,
    stack0: Vec<Value>,
    slots0: Vec<(usize, usize)>,
    fuel: u64,
) -> (r: Option<Value>)
    ensures
        r == eval_spec(engine_funs(*bc), bytecode@, 0, stack0@, slots0@, fuel as nat),
    decreases fuel,
{
    let ghost funs = engine_funs(*bc);
    let mut stack = stack0;
    let mut slots = slots0;
    let mut ip: usize = 0;
    let mut gas: u64 = fuel;
    loop
        invariant
            ip <= bytecode@.len(),
            gas <= fuel,
            eval_spec(funs, bytecode@, 0, stack0@, slots0@, fuel as nat) == eval_spec(
                funs,
                bytecode@,
                ip as int,
                stack@,
                slots@,
                gas as nat,
            ),
        decreases gas,
    {
        if gas == 0 {
            return None;
        }
        if ip == bytecode.len() {
            return Some(Value::Void);
        }
        let ghost (ip0, st0, sl0, g0) = (ip as int, stack@, slots@, gas as nat);
        gas = gas - 1;
        match &bytecode[ip] {
            Bytecode::ReturnVoid => {
                return Some(Value::Void);
            },
            Bytecode::ReturnLastStackValue => {
                match stack.pop() {
                    Some(v) => {
                        return Some(v);
                    },
                    None => {
                        return Some(Value::Error);
                    },
                }
            },
            Bytecode::PushU64(v) => {
                stack.push(Value::U64(*v));
                ip = ip + 1;
            },
            Bytecode::PushU32(v) => {
                stack.push(Value::U64(*v as u64));
                ip = ip + 1;
            },
            Bytecode::PushBool(b) => {
                stack.push(Value::Bool(*b));
                ip = ip + 1;
            },
            Bytecode::Add => {
                let rhs = match stack.pop() {
                    Some(v) => v,
                    None => {
                        return None;
                    },
                };
                let lhs = match stack.pop() {
                    Some(v) => v,
                    None => {
                        return None;
                    },
                };
                match (lhs, rhs) {
                    (Value::U64(a), Value::U64(b)) => {
                        if a > u64::MAX - b {
                            return None;
                        }
                        stack.push(Value::U64(a + b));
                    },
                    _ => {
                        return None;
                    },
                }
                ip = ip + 1;
            },
            Bytecode::Sub => {
                let rhs = match stack.pop() {
                    Some(v) => v,
                    None => {
                        return None;
                    },
                };
                let lhs = match stack.pop() {
                    Some(v) => v,
                    None => {
                        return None;
                    },
                };
                match (lhs, rhs) {
                    (Value::U64(a), Value::U64(b)) => {
                        if b > a {
                            return None;
                        }
                        stack.push(Value::U64(a - b));
                    },
                    _ => {
                        return None;
                    },
                }
                ip = ip + 1;
            },
            Bytecode::Mul => {
                let rhs = match stack.pop() {
                    Some(v) => v,
                    None => {
                        return None;
                    },
                };
                let lhs = match stack.pop() {
                    Some(v) => v,
                    None => {
                        return None;
                    },
                };
                match (lhs, rhs) {
                    (Value::U64(a), Value::U64(b)) => {
                        match a.checked_mul(b) {
                            Some(m) => {
                                stack.push(Value::U64(m));
                            },
                            None => {
                                return None;
                            },
                        }
                    },
                    _ => {
                        return None;
                    },
                }
                ip = ip + 1;
            },
            Bytecode::Div => {
                let rhs = match stack.pop() {
                    Some(v) => v,
                    None => {
                        return None;
                    },
                };
                let lhs = match stack.pop() {
                    Some(v) => v,
                    None => {
                        return None;
                    },
                };
                match (lhs, rhs) {
                    (Value::U64(a), Value::U64(b)) => {
                        if b == 0 {
                            return None;
                        }
                        stack.push(Value::U64(a / b));
                    },
                    _ => {
                        return None;
                    },
                }
                ip = ip + 1;
            },
            Bytecode::Lt => {
                let rhs = match stack.pop() {
                    Some(v) => v,
                    None => {
                        return None;
                    },
                };
                let lhs = match stack.pop() {
                    Some(v) => v,
                    None => {
                        return None;
                    },
                };
                match (lhs, rhs) {
                    (Value::U64(a), Value::U64(b)) => {
                        stack.push(Value::Bool(a < b));
                    },
                    _ => {
                        return None;
                    },
                }
                ip = ip + 1;
            },
            Bytecode::VarDecl(id) => {
                if stack.len() == 0 {
                    return None;
                }
                slots.push((*id, stack.len() - 1));
                ip = ip + 1;
            },
            Bytecode::VarDeclUninit(id) => {
                slots.push((*id, stack.len()));
                stack.push(Value::Void);
                ip = ip + 1;
            },
            Bytecode::Var(id) => {
                let p = match find_slot(&slots, *id) {
                    Some(p) => p,
                    None => {
                        return None;
                    },
                };
                if p >= stack.len() {
                    return None;
                }
                let v = stack[p];
                stack.push(v);
                ip = ip + 1;
            },
            Bytecode::Assign(id) => {
                let v = match stack.pop() {
                    Some(v) => v,
                    None => {
                        return None;
                    },
                };
                let p = match find_slot(&slots, *id) {
                    Some(p) => p,
                    None => {
                        return None;
                    },
                };
                if p >= stack.len() {
                    return None;
                }
                stack[p] = v;
                ip = ip + 1;
            },
            Bytecode::Call(d) => {
                let d: DefinitionId = *d;
                if d >= bc.definitions.len() {
                    return None;
                }
                match &bc.definitions[d] {
                    DefinitionState::Processed(Processed::Fun(f)) => {
                        let arity = f.params.len();
                        if stack.len() < arity {
                            return None;
                        }
                        let args = stack.split_off(stack.len() - arity);
                        let mut callee_slots: Vec<(usize, usize)> = Vec::new();
                        let mut i: usize = 0;
                        while i < arity
                            invariant
                                i <= arity,
                                callee_slots@ == init_slots(i as nat),
                            decreases arity - i,
                        {
                            callee_slots.push((i, i));
                            proof {
                                assert(callee_slots@ =~= init_slots((i + 1) as nat));
                            }
                            i = i + 1;
                        }
                        proof {
                            assert(funs[d as int] == Some(
                                FunCode { arity: f.params@.len(), code: f.bytecode@ },
                            ));
                        }
                        match eval_code(bc, &f.bytecode, args, callee_slots, gas) {
                            Some(v) => {
                                stack.push(v);
                            },
                            None => {
                                return None;
                            },
                        }
                    },
                    _ => {
                        proof {
                            assert(funs[d as int] is None);
                        }
                        return None;
                    },
                }
                ip = ip + 1;
            },
            Bytecode::If(off, _ty) => {
                let c = match stack.pop() {
                    Some(v) => v,
                    None => {
                        return None;
                    },
                };
                match c {
                    Value::Bool(b) => {
                        if b {
                            ip = ip + 1;
                        } else {
                            if *off > bytecode.len() - ip {
                                proof {
                                    assert(eval_spec(
                                        funs,
                                        bytecode@,
                                        ip0 + (*off as int),
                                        stack@,
                                        slots@,
                                        gas as nat,
                                    ) is None);
                                }
                                return None;
                            }
                            ip = ip + *off;
                        }
                    },
                    _ => {
                        return None;
                    },
                }
            },
            Bytecode::Else(off, _ty) => {
                if *off > bytecode.len() - ip {
                    proof {
                        assert(eval_spec(
                            funs,
                            bytecode@,
                            ip0 + (*off as int),
                            stack@,
                            slots@,
                            gas as nat,
                        ) is None);
                    }
                    return None;
                }
                ip = ip + *off;
            },
            Bytecode::EndIf(_ty) => {
                ip = ip + 1;
            },
            Bytecode::BeginWhile => {
                ip = ip + 1;
            },
            Bytecode::WhileCond(off) => {
                let c = match stack.pop() {
                    Some(v) => v,
                    None => {
                        return None;
                    },
                };
                match c {
                    Value::Bool(b) => {
                        if b {
                            ip = ip + 1;
                        } else {
                            if *off > bytecode.len() - ip {
                                proof {
                                    assert(eval_spec(
                                        funs,
                                        bytecode@,
                                        ip0 + (*off as int),
                                        stack@,
                                        slots@,
                                        gas as nat,
                                    ) is None);
                                }
                                return None;
                            }
                            ip = ip + *off;
                        }
                    },
                    _ => {
                        return None;
                    },
                }
            },
            Bytecode::EndWhile(off) => {
                if *off > ip {
                    proof {
                        assert(eval_spec(
                            funs,
                            bytecode@,
                            ip0 - (*off as int),
                            stack@,
                            slots@,
                            gas as nat,
                        ) is None);
                    }
                    return None;
                }
                ip = ip - *off;
            },
            Bytecode::DebugPrint => {
                ip = ip + 1;
            },
        }
        proof {
            assert(eval_spec(funs, bytecode@, ip0, st0, sl0, g0) == eval_spec(
                funs,
                bytecode@,
                ip as int,
                stack@,
                slots@,
                gas as nat,
            ));
        }
    }
}

/// Execute one compiled instruction sequence with an empty operand stack,
/// within the given fuel.
pub fn eval_bytecode(bc: &BytecodeEngine, bytecode: &Vec<Bytecode>, fuel: u64) -> (r: Option<
    Value,
>)
    ensures
        r == eval_spec(
            engine_funs(*bc),
            bytecode@,
            0,
            Seq::<Value>::empty(),
            Seq::<(usize, usize)>::empty(),
            fuel as nat,
        ),
{
    let stack: Vec<Value> = Vec::new();
    let slots: Vec<(usize, usize)> = Vec::new();
    eval_code(bc, bytecode, stack, slots, fuel)
}

/// The instruction sequence of a compiled function definition.
pub open spec fn def_fun_bytecode(d: DefinitionState) -> Seq<Bytecode> {
    match d {
        DefinitionState::Processed(Processed::Fun(f)) => f.bytecode@,
        _ => Seq::empty(),
    }
}

/// Begin evaluating with the named function, resolved from the root scope:
/// the end-to-end entry point. The function must already be compiled (a
/// call instruction met during evaluation resolves against the compiled
/// definitions); a name that does not resolve to a compiled function yields
/// `None`, as does an aborted evaluation.
pub fn eval_engine(bc: &BytecodeEngine, starting_fn_name: &str) -> (r: Option<Value>)
    requires
        bc.wf(),
    ensures
        ({
            let c = chain_lookup(bc.scopes@, starting_fn_name@, 0);
            &&& (c is Some && def_is_fun(bc.definitions@[c.unwrap().0 as int])) ==> r == eval_spec(
                engine_funs(*bc),
                def_fun_bytecode(bc.definitions@[c.unwrap().0 as int]),
                0,
                Seq::<Value>::empty(),
                Seq::<(usize, usize)>::empty(),
                EVAL_FUEL as nat,
            )
            &&& !(c is Some && def_is_fun(bc.definitions@[c.unwrap().0 as int])) ==> r is None
        }),
{
    match bc.try_get_fn(starting_fn_name, 0) {
        Some(f) => eval_bytecode(bc, &f.bytecode, EVAL_FUEL),
        None => None,
    }
}

} // verus!
