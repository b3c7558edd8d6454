//! What is read from instructions agrees with what the register machine does.
use vstd::prelude::*;

use crate::ast::{ExprV, StmtV};
use crate::bytecode::{aux_at, comparing, conditional, matching, string_at, upvalue_name, Constant, Opcode, Proto, Word};
use crate::conditions::{not_of, opposite};
use crate::machine::{const_expr, field_expr, key_literal, reg, reg_name, remembered, MachineV};
use crate::meaning::{
    binary_val, bool_val, eval, eval_all, eval_place, eval_places, exec, lawful, run, run_one, stored, stored_all,
    unary_val, unread_eval, value_at, with_var, Env, EvalV, Lang, OutcomeV, PlaceV, RunV, StateV, Val, World,
};
use crate::query::expr_reads;
use crate::step::{
    arithmetic_k, call_effect, concat_text, load_effect, next_number, not_taken, range_forgotten, range_targets,
    reg_list, return_effect, set_effect, signed_decimal, stores, taken, value_expr, wrap8, PendingV,
};
use crate::sweeps::assign;
use crate::text::{decimal, Text};

verus! {

// ---- the machine ------------------------------------------------------------------------------------------

/// The registers, the globals and upvalues by name, the world, and the method call being set up.
pub struct VmV {
    pub regs: spec_fn(u8) -> Val,
    pub vars: Env,
    pub w: World,
}

/// `vm` with the value `v` in the register `r`.
pub open spec fn with_reg(vm: VmV, r: u8, v: Val) -> VmV {
    VmV {
        regs: |x: u8| if x == r {
            v
        } else {
            (vm.regs)(x)
        },
        ..vm
    }
}

/// Whether names and strings mean the same as keys: a field is what its name as a string leads to,
/// and the literals of a string constant stand for its text.
pub open spec fn spelled(l: Lang, p: Proto) -> bool {
    &&& forall|w: World, t: Val, f: Text| #[trigger] (l.get_field)(w, t, f) == (l.get)(w, t, (l.text)(f))
    &&& forall|w: World, t: Val, f: Text, v: Val|
        #[trigger] (l.set_field)(w, t, f, v) == (l.set)(w, t, (l.text)(f), v)
    &&& forall|k: int|
        0 <= k < p.constants.len() ==> (#[trigger] p.constants@[k] matches Constant::Str { value, literal, key } ==> value
            is Some && (l.string)(literal@) == (l.text)(value->Some_0@) && (l.string)(key@) == (l.text)(value->Some_0@))
}

/// Whether the constant at `k` is a value that can be written down.
pub open spec fn plain_constant(p: Proto, k: int) -> bool {
    0 <= k < p.constants.len() && match p.constants@[k] {
        Constant::Nil | Constant::Boolean(_) | Constant::Number(_) | Constant::Vector(_) | Constant::Import(_) => true,
        Constant::Str { .. } => true,
        _ => false,
    }
}

/// The value of the constant at `k`.
pub open spec fn constant(l: Lang, p: Proto, vars: Env, k: int) -> Val {
    match p.constants@[k] {
        Constant::Nil => l.nil,
        Constant::Boolean(b) => if b {
            l.yes
        } else {
            l.no
        },
        Constant::Number(t) => (l.number)(t@),
        Constant::Vector(t) => (l.vector)("Vector3.new("@ + t@ + ")"@),
        Constant::Import(t) => if t@.contains('.') {
            (l.path)(t@)
        } else {
            vars(t@)
        },
        Constant::Str { value: Some(t), .. } => (l.text)(t@),
        _ => l.nil,
    }
}

/// The string constant at `k`.
pub open spec fn is_string(p: Proto, k: int) -> bool {
    0 <= k < p.constants.len() && p.constants@[k] is Str
}

// ---- what is known of the machine -------------------------------------------------------------------------

/// Whether evaluating `e` gives `v`, in any world, and changes nothing.
pub open spec fn gives(l: Lang, e: ExprV, env: Env, v: Val) -> bool {
    forall|w: World| #[trigger] eval(l, e, env, w) == (EvalV { v, w })
}

/// Whether `n` is the name of a register.
pub open spec fn names_register(m: MachineV, n: Text) -> bool {
    exists|r: u8| #[trigger] reg_name(m, r) == n
}

/// Whether every register has a name of its own, and what is remembered of a register reads no
/// register.
pub open spec fn apart(m: MachineV) -> bool {
    &&& forall|r: u8, s: u8| r != s ==> #[trigger] reg_name(m, r) != #[trigger] reg_name(m, s)
    &&& forall|r: u8| !(#[trigger] reg_name(m, r)).contains('.')
    &&& forall|r: u8, s: u8|
        r < m.regs.len() && m.regs[r as int] is Some ==> #[trigger] expr_reads(
            m.regs[r as int]->Some_0,
            #[trigger] reg_name(m, s),
        ) == 0
}

/// Whether what was read agrees with the machine: each register reads as what it holds, and so do
/// globals and upvalues.
pub open spec fn agrees(l: Lang, m: MachineV, vm: VmV, st: StateV) -> bool {
    &&& st.w == vm.w
    &&& forall|r: u8| gives(l, #[trigger] reg(m, r), st.env, (vm.regs)(r))
    &&& forall|n: Text| !names_register(m, n) ==> #[trigger] (st.env)(n) == (vm.vars)(n)
}

// ---- values -----------------------------------------------------------------------------------------------

/// The registers from `b` to `c`, put together.
pub open spec fn vm_concat(l: Lang, vm: VmV, b: u8, c: int) -> Val
    decreases c - b,
{
    if c <= b {
        (vm.regs)(b)
    } else {
        (l.arith)(".."@, vm_concat(l, vm, b, c - 1), (vm.regs)(c as u8))
    }
}

/// The operands of an arithmetic instruction, in order.
pub open spec fn vm_operands(l: Lang, p: Proto, w: Word, vm: VmV) -> (Val, Val) {
    match w.op {
        Some(Opcode::SubRk) | Some(Opcode::DivRk) => (constant(l, p, vm.vars, w.b as int), (vm.regs)(w.c)),
        Some(Opcode::AddK) | Some(Opcode::SubK) | Some(Opcode::MulK) | Some(Opcode::DivK) | Some(Opcode::IDivK) | Some(
            Opcode::ModK,
        ) | Some(Opcode::PowK) | Some(Opcode::AndK) | Some(Opcode::OrK) => (
            (vm.regs)(w.b),
            constant(l, p, vm.vars, w.c as int),
        ),
        _ => ((vm.regs)(w.b), (vm.regs)(w.c)),
    }
}

/// What the instruction at `pc` computes; `None` where it computes no value.
pub open spec fn vm_value(l: Lang, p: Proto, pc: int, vm: VmV) -> Option<Val> {
    let w = p.code@[pc];
    let x = aux_at(p, pc);
    let (a, b) = vm_operands(l, p, w, vm);
    match w.op {
        Some(Opcode::Move) => Some((vm.regs)(w.b)),
        Some(Opcode::GetUpval) => Some((vm.vars)(upvalue_name(p, w.b))),
        Some(Opcode::GetTable) => Some((l.get)(vm.w, (vm.regs)(w.b), (vm.regs)(w.c))),
        Some(Opcode::GetTableKs) => Some((l.get)(vm.w, (vm.regs)(w.b), constant(l, p, vm.vars, x.raw as int))),
        Some(Opcode::GetUdataKs) => Some((l.get)(vm.w, (vm.regs)(w.b), constant(l, p, vm.vars, x.kv16 as int))),
        Some(Opcode::GetTableN) => Some((l.get)(vm.w, (vm.regs)(w.b), (l.number)(decimal((w.c + 1) as nat)))),
        Some(Opcode::Add) | Some(Opcode::AddK) => Some((l.arith)("+"@, a, b)),
        Some(Opcode::Sub) | Some(Opcode::SubK) | Some(Opcode::SubRk) => Some((l.arith)("-"@, a, b)),
        Some(Opcode::Mul) | Some(Opcode::MulK) => Some((l.arith)("*"@, a, b)),
        Some(Opcode::Div) | Some(Opcode::DivK) | Some(Opcode::DivRk) => Some((l.arith)("/"@, a, b)),
        Some(Opcode::IDiv) | Some(Opcode::IDivK) => Some((l.arith)("//"@, a, b)),
        Some(Opcode::Mod) | Some(Opcode::ModK) => Some((l.arith)("%"@, a, b)),
        Some(Opcode::Pow) | Some(Opcode::PowK) => Some((l.arith)("^"@, a, b)),
        Some(Opcode::And) | Some(Opcode::AndK) => Some(
            if (l.truthy)(a) {
                b
            } else {
                a
            },
        ),
        Some(Opcode::Or) | Some(Opcode::OrK) => Some(
            if (l.truthy)(a) {
                a
            } else {
                b
            },
        ),
        Some(Opcode::Concat) => Some(vm_concat(l, vm, w.b, w.c as int)),
        Some(Opcode::Not) => Some(
            if (l.truthy)((vm.regs)(w.b)) {
                l.no
            } else {
                l.yes
            },
        ),
        Some(Opcode::Minus) => Some((l.unary)("-"@, (vm.regs)(w.b))),
        Some(Opcode::Length) => Some((l.unary)("#"@, (vm.regs)(w.b))),
        Some(Opcode::NewTable) => Some((l.table)(Seq::empty())),
        _ => None,
    }
}

/// Whether the constants that the instruction at `pc` uses are there.
pub open spec fn constants_there(p: Proto, pc: int) -> bool {
    let w = p.code@[pc];
    let x = aux_at(p, pc);
    match w.op {
        Some(op) => {
            &&& arithmetic_k(op) ==> plain_constant(p, w.c as int)
            &&& op == Opcode::SubRk || op == Opcode::DivRk ==> plain_constant(p, w.b as int)
            &&& op == Opcode::GetTableKs || op == Opcode::SetTableKs || op == Opcode::NewClassMember ==> is_string(
                p,
                x.raw as int,
            )
            &&& op == Opcode::GetUdataKs || op == Opcode::SetUdataKs ==> is_string(p, x.kv16 as int)
            &&& op == Opcode::LoadK || op == Opcode::GetImport ==> plain_constant(p, w.d as int)
            &&& op == Opcode::LoadKx ==> plain_constant(p, x.raw as int)
        },
        None => true,
    }
}

/// Whether the names that the instruction at `pc` reads or writes outside the registers are no
/// names of registers.
pub open spec fn outside_names(m: MachineV, pc: int) -> bool {
    let p = m.proto;
    let w = p.code@[pc];
    let free = |n: Text| !names_register(m, n) && !n.contains('.');
    &&& w.op == Some(Opcode::GetUpval) || w.op == Some(Opcode::SetUpval) ==> free(upvalue_name(p, w.b))
    &&& w.op == Some(Opcode::GetGlobal) || w.op == Some(Opcode::SetGlobal) ==> free(
        string_at(p, aux_at(p, pc).raw as nat),
    )
    &&& forall|k: int|
        0 <= k < p.constants.len() ==> (#[trigger] p.constants@[k] matches Constant::Import(t) ==> !names_register(
            m,
            t@,
        ))
}

/// A constant that can be written down reads as its value.
proof fn constant_read(l: Lang, m: MachineV, vm: VmV, st: StateV, k: int)
    requires
        agrees(l, m, vm, st),
        spelled(l, m.proto),
        plain_constant(m.proto, k),
        forall|j: int|
            0 <= j < m.proto.constants.len() ==> (#[trigger] m.proto.constants@[j] matches Constant::Import(t)
                ==> !names_register(m, t@)),
    ensures
        gives(l, const_expr(m.proto, k), st.env, constant(l, m.proto, vm.vars, k)),
{
    let p = m.proto;
    let e = const_expr(p, k);
    let c = p.constants@[k];
    assert forall|w: World| #[trigger] eval(l, e, st.env, w) == (EvalV {
        v: constant(l, p, vm.vars, k),
        w,
    }) by {
        if let Constant::Import(t) = c {
            assert((st.env)(t@) == (vm.vars)(t@));
        }
    }
}

/// A field reads as what its key leads to.
proof fn field_read(l: Lang, p: Proto, e: ExprV, env: Env, v: Val, vars: Env, k: int, w: World)
    requires
        spelled(l, p),
        is_string(p, k),
        gives(l, e, env, v),
    ensures
        eval(l, field_expr(p, e, k as nat), env, w) == (EvalV { v: (l.get)(w, v, constant(l, p, vars, k)), w }),
{
    assert(eval(l, e, env, w) == (EvalV { v, w }));
    let c = p.constants@[k];
    let name = string_at(p, k as nat);
    assert((l.get_field)(w, v, name) == (l.get)(w, v, (l.text)(name)));
    let lit = ExprV::Str(key_literal(p, k as nat));
    assert(eval(l, lit, env, w) == (EvalV { v: (l.string)(key_literal(p, k as nat)), w }));
}

proof fn concat_read(l: Lang, m: MachineV, vm: VmV, st: StateV, b: u8, c: int, w: World)
    requires
        agrees(l, m, vm, st),
        c <= 255,
    ensures
        eval(l, concat_text(m, b, c), st.env, w) == (EvalV { v: vm_concat(l, vm, b, c), w }),
    decreases c - b,
{
    if c <= b {
        assert(gives(l, reg(m, b), st.env, (vm.regs)(b)));
    } else {
        concat_read(l, m, vm, st, b, c - 1, w);
        assert(gives(l, reg(m, c as u8), st.env, (vm.regs)(c as u8)));
        assert(eval(l, reg(m, c as u8), st.env, w) == (EvalV { v: (vm.regs)(c as u8), w }));
        reveal_strlit("..");
        reveal_strlit("and");
        reveal_strlit("or");
        reveal_strlit("==");
        reveal_strlit("~=");
        reveal_strlit("<");
        reveal_strlit("<=");
        reveal_strlit(">");
        reveal_strlit(">=");
        assert(".."@[0] != "=="@[0]);
        assert(".."@[0] != "~="@[0]);
    }
}

proof fn operator_literals()
    ensures
        forall|a: Val, b: Val, l: Lang| #[trigger] binary_val(l, "+"@, a, b) == (l.arith)("+"@, a, b),
        forall|a: Val, b: Val, l: Lang| #[trigger] binary_val(l, "-"@, a, b) == (l.arith)("-"@, a, b),
        forall|a: Val, b: Val, l: Lang| #[trigger] binary_val(l, "*"@, a, b) == (l.arith)("*"@, a, b),
        forall|a: Val, b: Val, l: Lang| #[trigger] binary_val(l, "/"@, a, b) == (l.arith)("/"@, a, b),
        forall|a: Val, b: Val, l: Lang| #[trigger] binary_val(l, "//"@, a, b) == (l.arith)("//"@, a, b),
        forall|a: Val, b: Val, l: Lang| #[trigger] binary_val(l, "%"@, a, b) == (l.arith)("%"@, a, b),
        forall|a: Val, b: Val, l: Lang| #[trigger] binary_val(l, "^"@, a, b) == (l.arith)("^"@, a, b),
        forall|a: Val, b: Val, l: Lang| #[trigger] binary_val(l, ".."@, a, b) == (l.arith)(".."@, a, b),
        "+"@ != "and"@ && "+"@ != "or"@,
        "-"@ != "and"@ && "-"@ != "or"@,
        "*"@ != "and"@ && "*"@ != "or"@,
        "/"@ != "and"@ && "/"@ != "or"@,
        "//"@ != "and"@ && "//"@ != "or"@,
        "%"@ != "and"@ && "%"@ != "or"@,
        "^"@ != "and"@ && "^"@ != "or"@,
        ".."@ != "and"@ && ".."@ != "or"@,
        "and"@ != "or"@,
        "-"@ != "not "@,
        "#"@ != "not "@,
{
    reveal_strlit("+");
    reveal_strlit("-");
    reveal_strlit("*");
    reveal_strlit("/");
    reveal_strlit("//");
    reveal_strlit("%");
    reveal_strlit("^");
    reveal_strlit("..");
    reveal_strlit("and");
    reveal_strlit("or");
    reveal_strlit("not ");
    reveal_strlit("#");
    reveal_strlit("==");
    reveal_strlit("~=");
    reveal_strlit("<");
    reveal_strlit("<=");
    reveal_strlit(">");
    reveal_strlit(">=");
    assert("//"@[0] == '/' && ".."@[0] == '.' && "=="@[0] == '=' && "~="@[0] == '~' && "<="@[0] == '<' && ">="@[0] == '>');
    assert("+"@[0] == '+' && "-"@[0] == '-' && "*"@[0] == '*' && "/"@[0] == '/' && "%"@[0] == '%' && "^"@[0] == '^');
    assert("#"@[0] == '#' && "not "@[0] == 'n');
    assert("<"@[0] == '<' && ">"@[0] == '>' && "or"@[0] == 'o' && "and"@[0] == 'a');
}

/// The expression that is read from an instruction evaluates to the value that the instruction
/// computes.
pub proof fn values_agree(l: Lang, m: MachineV, op: Opcode, pc: int, vm: VmV, st: StateV)
    requires
        lawful(l),
        spelled(l, m.proto),
        agrees(l, m, vm, st),
        0 <= pc < m.proto.code.len(),
        m.proto.code@[pc].op == Some(op),
        constants_there(m.proto, pc),
        outside_names(m, pc),
    ensures
        vm_value(l, m.proto, pc, vm) matches Some(v) ==> eval(l, value_expr(m, op, pc), st.env, st.w) == (EvalV {
            v,
            w: vm.w,
        }),
{
    let p = m.proto;
    let w = p.code@[pc];
    let x = aux_at(p, pc);
    let env = st.env;
    operator_literals();
    assert(gives(l, reg(m, w.b), env, (vm.regs)(w.b)));
    assert(gives(l, reg(m, w.c), env, (vm.regs)(w.c)));
    assert(eval(l, reg(m, w.b), env, st.w) == (EvalV { v: (vm.regs)(w.b), w: st.w }));
    assert(eval(l, reg(m, w.c), env, st.w) == (EvalV { v: (vm.regs)(w.c), w: st.w }));
    if op == Opcode::GetUpval {
        assert((st.env)(upvalue_name(p, w.b)) == (vm.vars)(upvalue_name(p, w.b)));
    } else if op == Opcode::GetTableKs {
        field_read(l, p, reg(m, w.b), env, (vm.regs)(w.b), vm.vars, x.raw as int, st.w);
    } else if op == Opcode::GetUdataKs {
        field_read(l, p, reg(m, w.b), env, (vm.regs)(w.b), vm.vars, x.kv16 as int, st.w);
    } else if op == Opcode::GetTableN {
        assert(eval(l, next_number(w.c), env, st.w) == (EvalV { v: (l.number)(decimal((w.c + 1) as nat)), w: st.w }));
    } else if op == Opcode::Concat {
        concat_read(l, m, vm, st, w.b, w.c as int, st.w);
    } else if arithmetic_k(op) {
        constant_read(l, m, vm, st, w.c as int);
        assert(eval(l, const_expr(p, w.c as int), env, st.w) == (EvalV {
            v: constant(l, p, vm.vars, w.c as int),
            w: st.w,
        }));
    } else if op == Opcode::SubRk || op == Opcode::DivRk {
        constant_read(l, m, vm, st, w.b as int);
        assert(eval(l, const_expr(p, w.b as int), env, st.w) == (EvalV {
            v: constant(l, p, vm.vars, w.b as int),
            w: st.w,
        }));
    } else if op == Opcode::NewTable {
        let fs: Seq<crate::ast::FieldV> = Seq::empty();
        assert(crate::meaning::eval_fields(l, fs, env, st.w).slots =~= Seq::empty());
    }
}

// ---- instructions -----------------------------------------------------------------------------------------

/// Reading a name gives the value of the variable.
pub proof fn name_gives(l: Lang, n: Text, env: Env)
    requires
        !n.contains('.'),
    ensures
        gives(l, ExprV::Var(n), env, env(n)),
{
    assert forall|w: World| #[trigger] eval(l, ExprV::Var(n), env, w) == (EvalV { v: env(n), w }) by {}
}

/// What gives a value goes on giving it when a variable changes that it does not read.
pub proof fn gives_still(l: Lang, e: ExprV, env: Env, v: Val, n: Text, x: Val)
    requires
        gives(l, e, env, v),
        expr_reads(e, n) == 0,
    ensures
        gives(l, e, with_var(env, n, x), v),
{
    assert forall|w: World| #[trigger] eval(l, e, with_var(env, n, x), w) == (EvalV { v, w }) by {
        unread_eval(l, e, env, with_var(env, n, x), n, w);
        assert(eval(l, e, env, w) == (EvalV { v, w }));
    }
}

/// A register that is remembered as an expression holds its value.
proof fn remember_agrees(l: Lang, m: MachineV, vm: VmV, st: StateV, r: u8, e: ExprV, v: Val)
    requires
        agrees(l, m, vm, st),
        r < m.regs.len(),
        gives(l, e, st.env, v),
    ensures
        agrees(l, remembered(m, r, Some(e)), with_reg(vm, r, v), st),
{
    let n = remembered(m, r, Some(e));
    assert forall|x: u8| gives(l, #[trigger] reg(n, x), st.env, (with_reg(vm, r, v).regs)(x)) by {
        assert(gives(l, reg(m, x), st.env, (vm.regs)(x)));
        assert(reg_name(n, x) == reg_name(m, x));
    }
    assert forall|x: Text| !names_register(n, x) implies #[trigger] (st.env)(x) == (vm.vars)(x) by {
        if names_register(m, x) {
            let q = choose|q: u8| #[trigger] reg_name(m, q) == x;
            assert(reg_name(n, q) == x);
        }
    }
}

/// A register that is assigned under its name holds the value.
pub proof fn store_agrees(l: Lang, m: MachineV, vm: VmV, st: StateV, r: u8, v: Val, w: World)
    requires
        agrees(l, m, vm, st),
        apart(m),
    ensures
        agrees(
            l,
            remembered(m, r, None),
            VmV { w, ..with_reg(vm, r, v) },
            StateV { env: with_var(st.env, reg_name(m, r), v), w },
        ),
        apart(remembered(m, r, None)),
{
    let n = remembered(m, r, None);
    let name = reg_name(m, r);
    let env = with_var(st.env, name, v);
    let vm2 = VmV { w, ..with_reg(vm, r, v) };
    assert forall|x: u8| #[trigger] reg_name(n, x) == reg_name(m, x) by {}
    assert forall|x: u8| gives(l, #[trigger] reg(n, x), env, (vm2.regs)(x)) by {
        assert(gives(l, reg(m, x), st.env, (vm.regs)(x)));
        assert(!reg_name(m, x).contains('.'));
        if x == r {
            assert(reg(n, r) == ExprV::Var(name)) by {
                if r < m.regs.len() {
                    assert(n.regs[r as int] is None);
                }
            }
            name_gives(l, name, env);
        } else {
            assert(reg(n, x) == reg(m, x));
            assert(reg_name(m, x) != reg_name(m, r));
            assert(expr_reads(reg(m, x), name) == 0);
            gives_still(l, reg(m, x), st.env, (vm.regs)(x), name, v);
        }
    }
    assert forall|x: Text| !names_register(n, x) implies #[trigger] env(x) == (vm2.vars)(x) by {
        assert(reg_name(n, r) == name);
        if names_register(m, x) {
            let q = choose|q: u8| #[trigger] reg_name(m, q) == x;
            assert(reg_name(n, q) == x);
        }
        assert((st.env)(x) == (vm.vars)(x));
    }
    assert forall|a: u8, b: u8|
        a < n.regs.len() && n.regs[a as int] is Some implies #[trigger] expr_reads(
        n.regs[a as int]->Some_0,
        #[trigger] reg_name(n, b),
    ) == 0 by {
        assert(a != r);
        assert(m.regs[a as int] == n.regs[a as int]);
        assert(expr_reads(m.regs[a as int]->Some_0, reg_name(m, b)) == 0);
    }
    assert forall|a: u8, b: u8| a != b implies #[trigger] reg_name(n, a) != #[trigger] reg_name(n, b) by {
        assert(reg_name(m, a) != reg_name(m, b));
    }
    assert forall|a: u8| !(#[trigger] reg_name(n, a)).contains('.') by {
        assert(!reg_name(m, a).contains('.'));
    }
}

/// Running `n = e`.
pub proof fn run_assign(l: Lang, n: Text, e: ExprV, st: StateV, fuel: nat)
    ensures
        run(l, seq![assign(n, e)], st, fuel) == ({
            let a = eval(l, e, st.env, st.w);
            RunV { out: OutcomeV::Normal, st: StateV { env: with_var(st.env, n, a.v), w: a.w } }
        }),
{
    let s = assign(n, e);
    run_one(l, s, st, fuel);
    let ts = seq![ExprV::Var(n)];
    let vs = seq![e];
    assert(ts.drop_last() =~= Seq::<ExprV>::empty());
    assert(vs.drop_last() =~= Seq::<ExprV>::empty());
    let p = eval_places(l, ts, st.env, st.w);
    assert(eval_places(l, ts.drop_last(), st.env, st.w).places =~= Seq::<PlaceV>::empty());
    assert(p.places =~= seq![PlaceV::Name(n)]);
    assert(p.w == st.w);
    let a = eval_all(l, vs, st.env, st.w);
    assert(eval_all(l, vs.drop_last(), st.env, st.w).vs =~= Seq::<Val>::empty());
    assert(a.vs =~= seq![eval(l, e, st.env, st.w).v]);
    let s0 = StateV { env: st.env, w: a.w };
    assert(stored_all(l, s0, p.places, a.vs, 0) == s0);
    assert(stored_all(l, s0, p.places, a.vs, 1) == stored(l, s0, p.places[0], value_at(l, a.vs, 0, 1)));
}

/// What a load leaves in its register; `None` for other instructions.
pub open spec fn vm_load(l: Lang, p: Proto, pc: int, vm: VmV) -> Option<Val> {
    let w = p.code@[pc];
    let x = aux_at(p, pc);
    match w.op {
        Some(Opcode::LoadNil) => Some(l.nil),
        Some(Opcode::LoadB) => Some(
            if w.b == 0 {
                l.no
            } else {
                l.yes
            },
        ),
        Some(Opcode::LoadN) => Some((l.number)(signed_decimal(w.d as int))),
        Some(Opcode::LoadK) | Some(Opcode::GetImport) => Some(constant(l, p, vm.vars, w.d as int)),
        Some(Opcode::LoadKx) => Some(constant(l, p, vm.vars, x.raw as int)),
        Some(Opcode::GetGlobal) => Some((vm.vars)(string_at(p, x.raw as nat))),
        _ => None,
    }
}

/// After a load nothing has happened but that its register holds what it loads.
pub proof fn loads_agree(l: Lang, m: MachineV, op: Opcode, pc: int, vm: VmV, st: StateV, pend: PendingV)
    requires
        lawful(l),
        spelled(l, m.proto),
        agrees(l, m, vm, st),
        0 <= pc < m.proto.code.len(),
        m.proto.code@[pc].op == Some(op),
        m.proto.code@[pc].a < m.regs.len(),
        constants_there(m.proto, pc),
        outside_names(m, pc),
    ensures
        vm_load(l, m.proto, pc, vm) matches Some(v) ==> ({
            let s = load_effect(m, op, pc, pend);
            &&& s.out.len() == 0 && s.pend == pend && agrees(l, s.m, with_reg(vm, m.proto.code@[pc].a, v), st)
            &&& apart(m) ==> apart(s.m)
        }),
{
    let p = m.proto;
    let w = p.code@[pc];
    let x = aux_at(p, pc);
    if let Some(v) = vm_load(l, p, pc, vm) {
        let s = load_effect(m, op, pc, pend);
        let e = s.m.regs[w.a as int]->Some_0;
        if op == Opcode::LoadK || op == Opcode::GetImport {
            constant_read(l, m, vm, st, w.d as int);
        } else if op == Opcode::LoadKx {
            constant_read(l, m, vm, st, x.raw as int);
        } else if op == Opcode::GetGlobal {
            let g = string_at(p, x.raw as nat);
            name_gives(l, g, st.env);
            assert((st.env)(g) == (vm.vars)(g));
        } else {
            assert forall|u: World| #[trigger] eval(l, e, st.env, u) == (EvalV { v, w: u }) by {}
        }
        assert(gives(l, e, st.env, v));
        if op == Opcode::GetGlobal {
            let g = string_at(p, x.raw as nat);
            let m2 = MachineV { globals: crate::names::insert_sorted(m.globals, g), ..m };
            globals_do_not_matter(l, m, m2, vm, st);
            remember_agrees(l, m2, vm, st, w.a, e, v);
        } else {
            remember_agrees(l, m, vm, st, w.a, e, v);
        }
        if apart(m) {
            assert forall|r: u8| expr_reads(e, #[trigger] reg_name(m, r)) == 0 by {
                if op == Opcode::GetGlobal {
                    assert(!names_register(m, string_at(p, x.raw as nat)));
                } else if let ExprV::Var(t) = e {
                    assert(!names_register(m, t));
                }
            }
            remember_apart(m, s.m, w.a, e);
        }
    }
}

/// Remembering something that reads no register keeps registers apart.
proof fn remember_apart(m: MachineV, n: MachineV, r: u8, e: ExprV)
    requires
        apart(m),
        r < m.regs.len(),
        n.regs == m.regs.update(r as int, Some(e)),
        n.names == m.names,
        n.proto == m.proto,
        forall|s: u8| expr_reads(e, #[trigger] reg_name(m, s)) == 0,
    ensures
        apart(n),
{
    assert forall|x: u8| #[trigger] reg_name(n, x) == reg_name(m, x) by {}
    assert forall|a: u8, b: u8| a != b implies #[trigger] reg_name(n, a) != #[trigger] reg_name(n, b) by {
        assert(reg_name(m, a) != reg_name(m, b));
    }
    assert forall|a: u8| !(#[trigger] reg_name(n, a)).contains('.') by {
        assert(!reg_name(m, a).contains('.'));
    }
    assert forall|a: u8, b: u8|
        a < n.regs.len() && n.regs[a as int] is Some implies #[trigger] expr_reads(
        n.regs[a as int]->Some_0,
        #[trigger] reg_name(n, b),
    ) == 0 by {
        assert(reg_name(n, b) == reg_name(m, b));
        if a != r {
            assert(n.regs[a as int] == m.regs[a as int]);
            assert(expr_reads(m.regs[a as int]->Some_0, reg_name(m, b)) == 0);
        }
    }
}

proof fn globals_do_not_matter(l: Lang, m: MachineV, n: MachineV, vm: VmV, st: StateV)
    requires
        agrees(l, m, vm, st),
        m.regs == n.regs,
        m.names == n.names,
        m.proto == n.proto,
    ensures
        agrees(l, n, vm, st),
        apart(m) ==> apart(n),
{
    assert forall|r: u8| #[trigger] reg_name(n, r) == reg_name(m, r) by {}
    assert forall|r: u8| gives(l, #[trigger] reg(n, r), st.env, (vm.regs)(r)) by {
        assert(gives(l, reg(m, r), st.env, (vm.regs)(r)));
    }
    assert forall|x: Text| !names_register(n, x) implies #[trigger] (st.env)(x) == (vm.vars)(x) by {
        if names_register(m, x) {
            let q = choose|q: u8| #[trigger] reg_name(m, q) == x;
            assert(reg_name(n, q) == x);
        }
    }
    if apart(m) {
        assert forall|a: u8, b: u8| a != b implies #[trigger] reg_name(n, a) != #[trigger] reg_name(n, b) by {
            assert(reg_name(m, a) != reg_name(m, b));
        }
        assert forall|a: u8| !(#[trigger] reg_name(n, a)).contains('.') by {
            assert(!reg_name(m, a).contains('.'));
        }
        assert forall|a: u8, b: u8|
            a < n.regs.len() && n.regs[a as int] is Some implies #[trigger] expr_reads(
            n.regs[a as int]->Some_0,
            #[trigger] reg_name(n, b),
        ) == 0 by {
            assert(expr_reads(m.regs[a as int]->Some_0, reg_name(m, b)) == 0);
        }
    }
}

/// Running what is read from an instruction that computes a value leaves that value in its
/// register, and nothing else changes.
pub proof fn stored_values_agree(
    l: Lang,
    m: MachineV,
    op: Opcode,
    pc: int,
    vm: VmV,
    st: StateV,
    pend: PendingV,
    fuel: nat,
)
    requires
        lawful(l),
        spelled(l, m.proto),
        agrees(l, m, vm, st),
        apart(m),
        0 <= pc < m.proto.code.len(),
        m.proto.code@[pc].op == Some(op),
        constants_there(m.proto, pc),
        outside_names(m, pc),
    ensures
        vm_value(l, m.proto, pc, vm) matches Some(v) ==> ({
            let s = crate::step::effect(m, op, pc, None, pend);
            let r = run(l, s.out, st, fuel);
            r.out is Normal && s.pend == pend && agrees(l, s.m, with_reg(vm, m.proto.code@[pc].a, v), r.st) && apart(s.m)
        }),
{
    values_agree(l, m, op, pc, vm, st);
    if let Some(v) = vm_value(l, m.proto, pc, vm) {
        let a = m.proto.code@[pc].a;
        let e = value_expr(m, op, pc);
        run_assign(l, reg_name(m, a), e, st, fuel);
        store_agrees(l, m, vm, st, a, v, vm.w);
        let s = crate::step::effect(m, op, pc, None, pend);
        assert(s == stores(m, a, e, pend));
        assert(VmV { w: vm.w, ..with_reg(vm, a, v) } == with_reg(vm, a, v));
    }
}

// ---- stores -----------------------------------------------------------------------------------------------

/// Where a store instruction writes through a table, the table, the key and the value; or the
/// variable and the value.
pub enum VmStore {
    Table(Val, Val, Val),
    Name(Text, Val),
}

/// What the store instruction at `pc` writes, and where to; `None` for other instructions.
pub open spec fn vm_store(l: Lang, p: Proto, pc: int, vm: VmV) -> Option<VmStore> {
    let w = p.code@[pc];
    let x = aux_at(p, pc);
    let a = (vm.regs)(w.a);
    let b = (vm.regs)(w.b);
    let c = (vm.regs)(w.c);
    match w.op {
        Some(Opcode::SetTable) => Some(VmStore::Table(b, c, a)),
        Some(Opcode::SetTableKs) => Some(VmStore::Table(b, constant(l, p, vm.vars, x.raw as int), a)),
        Some(Opcode::SetUdataKs) => Some(VmStore::Table(b, constant(l, p, vm.vars, x.kv16 as int), a)),
        Some(Opcode::SetTableN) => Some(VmStore::Table(b, (l.number)(decimal((w.c + 1) as nat)), a)),
        Some(Opcode::NewClassMember) => Some(VmStore::Table(a, constant(l, p, vm.vars, x.raw as int), c)),
        Some(Opcode::SetGlobal) => Some(VmStore::Name(string_at(p, x.raw as nat), a)),
        Some(Opcode::SetUpval) => Some(VmStore::Name(upvalue_name(p, w.b), a)),
        _ => None,
    }
}

/// The machine after a store.
pub open spec fn vm_stored(l: Lang, vm: VmV, s: VmStore) -> VmV {
    match s {
        VmStore::Table(t, k, v) => VmV { w: (l.set)(vm.w, t, k, v), ..vm },
        VmStore::Name(n, v) => VmV { vars: with_var(vm.vars, n, v), ..vm },
    }
}

/// Whether no register is remembered as something that reads `n`.
pub open spec fn unremembered(m: MachineV, n: Text) -> bool {
    forall|r: int| 0 <= r < m.regs.len() && (#[trigger] m.regs[r]) is Some ==> expr_reads(m.regs[r]->Some_0, n) == 0
}

/// Running `target = value`, where the value is an expression that gives `v`.
proof fn run_set(l: Lang, t: ExprV, e: ExprV, v: Val, st: StateV, fuel: nat)
    requires
        gives(l, e, st.env, v),
        eval_place(l, t, st.env, st.w).1 == st.w,
    ensures
        run(l, seq![crate::step::set_to(t, e)], st, fuel) == (RunV {
            out: OutcomeV::Normal,
            st: stored(l, st, eval_place(l, t, st.env, st.w).0, v),
        }),
{
    let s = crate::step::set_to(t, e);
    run_one(l, s, st, fuel);
    let ts = seq![t];
    let vs = seq![e];
    assert(ts.drop_last() =~= Seq::<ExprV>::empty());
    assert(vs.drop_last() =~= Seq::<ExprV>::empty());
    let p = eval_places(l, ts, st.env, st.w);
    assert(eval_places(l, ts.drop_last(), st.env, st.w).places =~= Seq::<PlaceV>::empty());
    assert(p.places =~= seq![eval_place(l, t, st.env, st.w).0]);
    assert(eval(l, e, st.env, st.w) == (EvalV { v, w: st.w }));
    let a = eval_all(l, vs, st.env, st.w);
    assert(eval_all(l, vs.drop_last(), st.env, st.w).vs =~= Seq::<Val>::empty());
    assert(a.vs =~= seq![v]);
    let s0 = StateV { env: st.env, w: a.w };
    assert(stored_all(l, s0, p.places, a.vs, 0) == s0);
    assert(stored_all(l, s0, p.places, a.vs, 1) == stored(l, s0, p.places[0], value_at(l, a.vs, 0, 1)));
    assert(s0 == st);
}

/// Running what is read from a store instruction writes what the machine writes, where it writes
/// it.
pub proof fn stores_agree(
    l: Lang,
    m: MachineV,
    op: Opcode,
    pc: int,
    vm: VmV,
    st: StateV,
    pend: PendingV,
    fuel: nat,
)
    requires
        lawful(l),
        spelled(l, m.proto),
        agrees(l, m, vm, st),
        apart(m),
        0 <= pc < m.proto.code.len(),
        m.proto.code@[pc].op == Some(op),
        constants_there(m.proto, pc),
        outside_names(m, pc),
        vm_store(l, m.proto, pc, vm) matches Some(VmStore::Name(n, _)) ==> unremembered(m, n),
    ensures
        vm_store(l, m.proto, pc, vm) matches Some(s) ==> ({
            let e = set_effect(m, op, pc, pend);
            let r = run(l, e.out, st, fuel);
            r.out is Normal && e.pend == pend && agrees(l, e.m, vm_stored(l, vm, s), r.st) && apart(e.m)
        }),
{
    let p = m.proto;
    let w = p.code@[pc];
    let x = aux_at(p, pc);
    let env = st.env;
    if let Some(s) = vm_store(l, p, pc, vm) {
        let e = set_effect(m, op, pc, pend);
        let t = crate::step::set_target(m, op, pc);
        let value = if op == Opcode::NewClassMember {
            w.c
        } else {
            w.a
        };
        let v = (vm.regs)(value);
        assert(gives(l, reg(m, w.a), env, (vm.regs)(w.a)));
        assert(gives(l, reg(m, w.b), env, (vm.regs)(w.b)));
        assert(gives(l, reg(m, w.c), env, (vm.regs)(w.c)));
        assert(eval(l, reg(m, w.a), env, st.w) == (EvalV { v: (vm.regs)(w.a), w: st.w }));
        assert(eval(l, reg(m, w.b), env, st.w) == (EvalV { v: (vm.regs)(w.b), w: st.w }));
        assert(eval(l, reg(m, w.c), env, st.w) == (EvalV { v: (vm.regs)(w.c), w: st.w }));
        if op == Opcode::SetTableKs {
            field_place(l, p, reg(m, w.b), env, (vm.regs)(w.b), vm.vars, x.raw as int, st, v);
        } else if op == Opcode::SetUdataKs {
            field_place(l, p, reg(m, w.b), env, (vm.regs)(w.b), vm.vars, x.kv16 as int, st, v);
        } else if op == Opcode::NewClassMember {
            field_place(l, p, reg(m, w.a), env, (vm.regs)(w.a), vm.vars, x.raw as int, st, v);
        } else if op == Opcode::SetTableN {
            assert(eval(l, next_number(w.c), env, st.w) == (EvalV {
                v: (l.number)(decimal((w.c + 1) as nat)),
                w: st.w,
            }));
        }
        run_set(l, t, reg(m, value), v, st, fuel);
        assert(e.out =~= seq![crate::step::set_to(t, reg(m, value))]);
        globals_do_not_matter(l, m, e.m, vm, st);
        match s {
            VmStore::Table(_, _, _) => {
                let st2 = run(l, e.out, st, fuel).st;
                assert(st2.env == st.env);
                assert(st2.w == vm_stored(l, vm, s).w);
                assert forall|r: u8| gives(l, #[trigger] reg(e.m, r), st2.env, (vm.regs)(r)) by {}
            },
            VmStore::Name(n, _) => {
                let env2 = with_var(env, n, v);
                assert(t == ExprV::Var(n));
                assert forall|r: u8| gives(l, #[trigger] reg(e.m, r), env2, (vm.regs)(r)) by {
                    assert(gives(l, reg(m, r), env, (vm.regs)(r)));
                    assert(reg_name(m, r) != n);
                    assert(expr_reads(reg(m, r), n) == 0);
                    gives_still(l, reg(m, r), env, (vm.regs)(r), n, v);
                }
            },
        }
    }
}

/// Writing to a field writes under its key.
proof fn field_place(
    l: Lang,
    p: Proto,
    e: ExprV,
    env: Env,
    t: Val,
    vars: Env,
    k: int,
    st: StateV,
    v: Val,
)
    requires
        spelled(l, p),
        is_string(p, k),
        gives(l, e, env, t),
    ensures
        eval_place(l, field_expr(p, e, k as nat), env, st.w).1 == st.w,
        stored(l, st, eval_place(l, field_expr(p, e, k as nat), env, st.w).0, v) == (StateV {
            w: (l.set)(st.w, t, constant(l, p, vars, k), v),
            ..st
        }),
{
    assert(eval(l, e, env, st.w) == (EvalV { v: t, w: st.w }));
    let c = p.constants@[k];
    let name = string_at(p, k as nat);
    assert((l.set_field)(st.w, t, name, v) == (l.set)(st.w, t, (l.text)(name), v));
    let lit = ExprV::Str(key_literal(p, k as nat));
    assert(eval(l, lit, env, st.w) == (EvalV { v: (l.string)(key_literal(p, k as nat)), w: st.w }));
}

// ---- calls and returns ------------------------------------------------------------------------------------

/// What `n` registers from `first` on hold.
pub open spec fn vm_list(vm: VmV, first: int, n: nat) -> Seq<Val> {
    Seq::new(n, |i: int| (vm.regs)(wrap8(first + i)))
}

/// A list of registers reads as what they hold.
pub proof fn list_read(l: Lang, m: MachineV, vm: VmV, st: StateV, first: int, n: nat, w: World)
    requires
        agrees(l, m, vm, st),
    ensures
        eval_all(l, reg_list(m, first, n), st.env, w).vs == vm_list(vm, first, n),
        eval_all(l, reg_list(m, first, n), st.env, w).w == w,
    decreases n,
{
    let es = reg_list(m, first, n);
    if n > 0 {
        let k = (n - 1) as nat;
        list_read(l, m, vm, st, first, k, w);
        assert(es.drop_last() =~= reg_list(m, first, k));
        let r = wrap8(first + k);
        assert(es.last() == reg(m, r));
        assert(gives(l, reg(m, r), st.env, (vm.regs)(r)));
        assert(eval(l, reg(m, r), st.env, w) == (EvalV { v: (vm.regs)(r), w }));
    }
    assert(eval_all(l, es, st.env, w).vs =~= vm_list(vm, first, n));
}

/// What a return instruction with a fixed number of values returns: the registers from its first
/// on, in order.
pub proof fn returns_agree(l: Lang, m: MachineV, pc: int, vm: VmV, st: StateV, pend: PendingV, fuel: nat)
    requires
        agrees(l, m, vm, st),
        0 <= pc < m.proto.code.len(),
        m.proto.code@[pc].b > 0,
    ensures
        ({
            let w = m.proto.code@[pc];
            let r = run(l, return_effect(m, pc, None, pend).out, st, fuel);
            r.out == OutcomeV::Return(vm_list(vm, w.a as int, (w.b - 1) as nat)) && r.st.w == vm.w
        }),
{
    let w = m.proto.code@[pc];
    let e = return_effect(m, pc, None, pend);
    list_read(l, m, vm, st, w.a as int, (w.b - 1) as nat, st.w);
    run_one(l, e.out[0], st, fuel);
    assert(e.out =~= seq![e.out[0]]);
}

/// The machine after the call that `w` makes, where it takes a fixed number of arguments and gives
/// none or one value; `method` is the receiver and the name of a method call.
pub open spec fn vm_call(l: Lang, vm: VmV, w: Word, method: Option<(Val, Text)>) -> VmV {
    let r = match method {
        Some((o, name)) => (l.method)(vm.w, o, name, vm_list(vm, w.a + 2, (w.b - 2) as nat)),
        None => (l.call)(vm.w, (vm.regs)(w.a), vm_list(vm, w.a + 1, (w.b - 1) as nat)),
    };
    if w.c == 2 {
        VmV { w: r.0, ..with_reg(vm, w.a, r.1) }
    } else {
        VmV { w: r.0, ..vm }
    }
}

/// Running what is read from a call instruction makes the call of the function, or of the method,
/// with the arguments that the machine hands over, and leaves its value where the machine does.
pub proof fn calls_agree(
    l: Lang,
    m: MachineV,
    pc: int,
    vm: VmV,
    st: StateV,
    pend: PendingV,
    method: Option<(Val, Text)>,
    fuel: nat,
)
    requires
        agrees(l, m, vm, st),
        apart(m),
        0 <= pc < m.proto.code.len(),
        1 <= m.proto.code@[pc].b,
        1 <= m.proto.code@[pc].c <= 2,
        m.proto.code@[pc].a + m.proto.code@[pc].b <= 255,
        !crate::naming::builds_value(reg(m, m.proto.code@[pc].a)),
        match pend {
            Some((r, o, n)) => if r == m.proto.code@[pc].a {
                method matches Some((v, name)) && name == n && gives(l, o, st.env, v) && m.proto.code@[pc].b >= 2
            } else {
                method is None
            },
            None => method is None,
        },
    ensures
        ({
            let w = m.proto.code@[pc];
            let s = call_effect(m, pc, None, pend);
            let r = run(l, s.out, st, fuel);
            &&& r.out is Normal
            &&& agrees(l, s.m, vm_call(l, vm, w, method), r.st)
            &&& apart(s.m)
            &&& s.pend == if method is Some {
                None
            } else {
                pend
            }
        }),
{
    let w = m.proto.code@[pc];
    let s = call_effect(m, pc, None, pend);
    let e = crate::step::call_expr(m, w, None, pend);
    let vm2 = vm_call(l, vm, w, method);
    let last = wrap8(w.a + w.b - 1);
    assert(last == w.a + w.b - 1);
    if let Some((v, name)) = method {
        let o = pend->Some_0.1;
        let n = (w.b - 2) as nat;
        assert(eval(l, o, st.env, st.w) == (EvalV { v, w: st.w }));
        list_read(l, m, vm, st, w.a + 2, n, st.w);
        assert(crate::step::args_from(m, wrap8(w.a + 2), Some(last)) =~= reg_list(m, w.a + 2, n));
        assert(e == ExprV::MethodCall(Box::new(o), name, reg_list(m, w.a + 2, n)));
    } else {
        let n = (w.b - 1) as nat;
        assert(gives(l, reg(m, w.a), st.env, (vm.regs)(w.a)));
        assert(eval(l, reg(m, w.a), st.env, st.w) == (EvalV { v: (vm.regs)(w.a), w: st.w }));
        list_read(l, m, vm, st, w.a + 1, n, st.w);
        assert(crate::step::args_from(m, wrap8(w.a + 1), Some(last)) =~= reg_list(m, w.a + 1, n));
        assert(e == ExprV::Call(Box::new(reg(m, w.a)), reg_list(m, w.a + 1, n)));
    }
    let a = eval(l, e, st.env, st.w);
    if w.c == 2 {
        run_assign(l, reg_name(m, w.a), e, st, fuel);
        store_agrees(l, m, vm, st, w.a, a.v, a.w);
    } else {
        run_one(l, StmtV::Call(e), st, fuel);
        let st2 = StateV { env: st.env, w: a.w };
        assert forall|r: u8| gives(l, #[trigger] reg(m, r), st2.env, (vm2.regs)(r)) by {
            assert(gives(l, reg(m, r), st.env, (vm.regs)(r)));
        }
        assert(agrees(l, m, vm2, st2));
    }
}

/// What a method lookup sets up: the receiver is what the register holds, and the method is the
/// string constant.
pub proof fn lookups_agree(l: Lang, m: MachineV, op: Opcode, pc: int, vm: VmV, st: StateV, pend: PendingV)
    requires
        agrees(l, m, vm, st),
        0 <= pc < m.proto.code.len(),
        op == Opcode::NameCall || op == Opcode::NameCallUdata,
    ensures
        ({
            let w = m.proto.code@[pc];
            let x = aux_at(m.proto, pc);
            let s = crate::step::effect(m, op, pc, None, pend);
            let k = if op == Opcode::NameCall {
                x.raw
            } else {
                x.kv16
            };
            &&& s.out.len() == 0 && s.m == m
            &&& s.pend matches Some((r, e, n)) && r == w.a && gives(l, e, st.env, (vm.regs)(w.b)) && (k
                < m.proto.constants.len() ==> (m.proto.constants@[k as int] matches Constant::Str { value: Some(t), .. }
                ==> n == t@))
        }),
{
    let w = m.proto.code@[pc];
    assert(gives(l, reg(m, w.b), st.env, (vm.regs)(w.b)));
}

/// The machine after values were put in `n` registers from `a` on.
pub open spec fn with_regs(vm: VmV, a: u8, n: nat, v: spec_fn(int) -> Val) -> VmV
    decreases n,
{
    if n == 0 {
        vm
    } else {
        with_reg(with_regs(vm, a, (n - 1) as nat, v), wrap8(a + n - 1), v(n - 1))
    }
}

proof fn range_targets_places(l: Lang, m: MachineV, a: u8, n: nat, env: Env, w: World)
    ensures
        eval_places(l, range_targets(m, a, n), env, w).places == Seq::new(
            n,
            |i: int| PlaceV::Name(reg_name(m, wrap8(a + i))),
        ),
        eval_places(l, range_targets(m, a, n), env, w).w == w,
    decreases n,
{
    let ts = range_targets(m, a, n);
    if n > 0 {
        let k = (n - 1) as nat;
        range_targets_places(l, m, a, k, env, w);
        assert(ts.drop_last() =~= range_targets(m, a, k));
        assert(ts.last() == ExprV::Var(reg_name(m, wrap8(a + k))));
    }
    assert(eval_places(l, ts, env, w).places =~= Seq::new(n, |i: int| PlaceV::Name(reg_name(m, wrap8(a + i)))));
}

proof fn stored_range_agrees(
    l: Lang,
    m: MachineV,
    vm: VmV,
    st: StateV,
    a: u8,
    k: nat,
    ps: Seq<PlaceV>,
    vs: Seq<Val>,
)
    requires
        agrees(l, m, vm, st),
        apart(m),
        k <= ps.len(),
        forall|i: int| 0 <= i < ps.len() ==> #[trigger] ps[i] == PlaceV::Name(reg_name(m, wrap8(a + i))),
    ensures
        agrees(
            l,
            range_forgotten(m, a, k),
            with_regs(vm, a, k, |i: int| value_at(l, vs, i, ps.len() as int)),
            stored_all(l, st, ps, vs, k as int),
        ),
        apart(range_forgotten(m, a, k)),
    decreases k,
{
    if k > 0 {
        let j = (k - 1) as nat;
        stored_range_agrees(l, m, vm, st, a, j, ps, vs);
        let f = |i: int| value_at(l, vs, i, ps.len() as int);
        let n = range_forgotten(m, a, j);
        let vm1 = with_regs(vm, a, j, f);
        let st1 = stored_all(l, st, ps, vs, j as int);
        let r = wrap8(a + j);
        crate::step::range_forgotten_names(m, a, j, r);
        store_agrees(l, n, vm1, st1, r, f(j as int), st1.w);
        assert(ps[j as int] == PlaceV::Name(reg_name(m, r)));
        assert(VmV { w: st1.w, ..with_reg(vm1, r, f(j as int)) } == with_reg(vm1, r, f(j as int)));
    }
}

/// A call for several values leaves them, in order, in the registers from the function's on.
pub proof fn multiple_results_agree(l: Lang, m: MachineV, pc: int, vm: VmV, st: StateV, fuel: nat)
    requires
        agrees(l, m, vm, st),
        apart(m),
        0 <= pc < m.proto.code.len(),
        1 <= m.proto.code@[pc].b,
        2 < m.proto.code@[pc].c,
        m.proto.code@[pc].a + m.proto.code@[pc].b <= 255,
        !crate::naming::builds_value(reg(m, m.proto.code@[pc].a)),
    ensures
        ({
            let w = m.proto.code@[pc];
            let n = (w.c - 1) as nat;
            let c = (l.call)(vm.w, (vm.regs)(w.a), vm_list(vm, w.a + 1, (w.b - 1) as nat));
            let s = call_effect(m, pc, None, None);
            let r = run(l, s.out, st, fuel);
            r.out is Normal && agrees(
                l,
                s.m,
                VmV { w: c.0, ..with_regs(vm, w.a, n, |i: int| (l.nth)(c.1, i)) },
                r.st,
            )
        }),
{
    let w = m.proto.code@[pc];
    let n = (w.c - 1) as nat;
    let s = call_effect(m, pc, None, None);
    let e = crate::step::call_expr(m, w, None, None);
    let last = wrap8(w.a + w.b - 1);
    let k = (w.b - 1) as nat;
    let c = (l.call)(vm.w, (vm.regs)(w.a), vm_list(vm, w.a + 1, k));
    assert(gives(l, reg(m, w.a), st.env, (vm.regs)(w.a)));
    assert(eval(l, reg(m, w.a), st.env, st.w) == (EvalV { v: (vm.regs)(w.a), w: st.w }));
    list_read(l, m, vm, st, w.a + 1, k, st.w);
    assert(crate::step::args_from(m, wrap8(w.a + 1), Some(last)) =~= reg_list(m, w.a + 1, k));
    assert(e == ExprV::Call(Box::new(reg(m, w.a)), reg_list(m, w.a + 1, k)));
    let ts = range_targets(m, w.a, n);
    let stmt = StmtV::Assign { targets: ts, values: seq![e] };
    assert(s.out =~= seq![stmt]);
    run_one(l, stmt, st, fuel);
    range_targets_places(l, m, w.a, n, st.env, st.w);
    let p = eval_places(l, ts, st.env, st.w);
    crate::inlining::one_value(l, seq![e], st.env, st.w);
    let a = eval_all(l, seq![e], st.env, st.w);
    assert(a.vs =~= seq![c.1]);
    let st0 = StateV { env: st.env, w: c.0 };
    let vm0 = VmV { w: c.0, ..vm };
    assert(agrees(l, m, vm0, st0)) by {
        assert forall|r: u8| gives(l, #[trigger] reg(m, r), st0.env, (vm0.regs)(r)) by {
            assert(gives(l, reg(m, r), st.env, (vm.regs)(r)));
        }
    }
    stored_range_agrees(l, m, vm0, st0, w.a, n, p.places, a.vs);
    let f = |i: int| value_at(l, a.vs, i, p.places.len() as int);
    let g = |i: int| (l.nth)(c.1, i);
    regs_same(vm0, vm, w.a, n, f, g, c.0);
}

proof fn regs_same(vm0: VmV, vm: VmV, a: u8, n: nat, f: spec_fn(int) -> Val, g: spec_fn(int) -> Val, w: World)
    requires
        vm0 == (VmV { w, ..vm }),
        forall|i: int| 0 <= i < n ==> #[trigger] f(i) == g(i),
    ensures
        with_regs(vm0, a, n, f) == (VmV { w, ..with_regs(vm, a, n, g) }),
    decreases n,
{
    if n > 0 {
        let k = (n - 1) as nat;
        regs_same(vm0, vm, a, k, f, g, w);
        let x = with_regs(vm0, a, k, f);
        let y = with_regs(vm, a, k, g);
        assert(f(k as int) == g(k as int));
        assert(with_reg(x, wrap8(a + k), f(k as int)).regs =~= with_reg(y, wrap8(a + k), g(k as int)).regs);
    }
}

/// The machine after `n` values from the register `b` on were put in the table in `a` at `start`
/// and the places after it.
pub open spec fn vm_list_stored(l: Lang, vm: VmV, a: u8, b: u8, start: int, n: nat) -> VmV
    decreases n,
{
    if n == 0 {
        vm
    } else {
        let before = vm_list_stored(l, vm, a, b, start, (n - 1) as nat);
        VmV {
            w: (l.set)(
                before.w,
                (vm.regs)(a),
                (l.number)(signed_decimal(crate::step::wrap32(start + n - 1))),
                (vm.regs)(wrap8(b + n - 1)),
            ),
            ..vm
        }
    }
}

/// Running what is read from a list instruction with a fixed number of values puts the registers in
/// the table, in order, from the place on that the instruction names.
pub proof fn lists_agree(l: Lang, m: MachineV, a: u8, b: u8, start: int, n: nat, vm: VmV, st: StateV, fuel: nat)
    requires
        agrees(l, m, vm, st),
    ensures
        ({
            let r = run(l, crate::step::list_stores(m, a, b, start, n), st, fuel);
            r.out is Normal && agrees(l, m, vm_list_stored(l, vm, a, b, start, n), r.st)
        }),
    decreases n,
{
    let all = crate::step::list_stores(m, a, b, start, n);
    if n > 0 {
        let k = (n - 1) as nat;
        lists_agree(l, m, a, b, start, k, vm, st, fuel);
        assert(all.drop_last() =~= crate::step::list_stores(m, a, b, start, k));
        let vm1 = vm_list_stored(l, vm, a, b, start, k);
        let r = run(l, all.drop_last(), st, fuel);
        let key = ExprV::Num(signed_decimal(crate::step::wrap32(start + k)));
        let t = ExprV::Index(Box::new(reg(m, a)), Box::new(key));
        let e = reg(m, wrap8(b + k));
        assert(all.last() == crate::step::set_to(t, e));
        assert(vm1.regs == vm.regs && vm1.vars == vm.vars) by {
            list_keeps_regs(l, vm, a, b, start, k);
        }
        assert(gives(l, reg(m, a), r.st.env, (vm1.regs)(a)));
        assert(gives(l, e, r.st.env, (vm1.regs)(wrap8(b + k))));
        assert(eval(l, reg(m, a), r.st.env, r.st.w) == (EvalV { v: (vm.regs)(a), w: r.st.w }));
        assert(eval(l, key, r.st.env, r.st.w).w == r.st.w);
        run_set(l, t, e, (vm.regs)(wrap8(b + k)), r.st, fuel);
        run_one(l, all.last(), r.st, fuel);
        let r2 = run(l, all, st, fuel);
        assert forall|x: u8| gives(l, #[trigger] reg(m, x), r2.st.env, (vm.regs)(x)) by {
            assert(gives(l, reg(m, x), r.st.env, (vm1.regs)(x)));
        }
    } else {
        assert(all =~= Seq::empty());
        assert(run(l, all, st, fuel).st == st);
    }
}

proof fn list_keeps_regs(l: Lang, vm: VmV, a: u8, b: u8, start: int, n: nat)
    ensures
        vm_list_stored(l, vm, a, b, start, n).regs == vm.regs,
        vm_list_stored(l, vm, a, b, start, n).vars == vm.vars,
{
}

/// How many values a list instruction stores, and from which place on.
pub proof fn list_shape(m: MachineV, pc: int, pend: PendingV)
    requires
        0 <= pc < m.proto.code.len(),
        m.proto.code@[pc].c > 0,
    ensures
        ({
            let w = m.proto.code@[pc];
            let raw = aux_at(m.proto, pc).raw;
            let start = if raw >= 0x8000_0000 {
                raw - 0x1_0000_0000
            } else {
                raw as int
            };
            crate::step::list_effect(m, pc, None, pend).out == crate::step::list_stores(
                m,
                w.a,
                w.b,
                start,
                (w.c - 1) as nat,
            )
        }),
{
}

// ---- jumps ------------------------------------------------------------------------------------------------

/// A jump that is not recovered leads to the label that stands where the machine goes: an
/// unconditional one always, a conditional one exactly where the test jumps.
pub proof fn jumps_agree(l: Lang, m: MachineV, op: Opcode, pc: int, vm: VmV, st: StateV, pend: PendingV, fuel: nat)
    requires
        lawful(l),
        spelled(l, m.proto),
        agrees(l, m, vm, st),
        0 <= pc < m.proto.code.len(),
        m.proto.code@[pc].op == Some(op),
        conditional(op) || op == Opcode::Jump || op == Opcode::JumpBack || op == Opcode::JumpX,
        test_constant_there(m.proto, pc),
        outside_names(m, pc),
        crate::bytecode::target_at(m.proto, pc) matches Some(t) && crate::structure::label_at(m.proto, t) is Some,
    ensures
        ({
            let s = crate::step::flow_effect(m, op, pc, pend);
            let t = crate::bytecode::target_at(m.proto, pc)->Some_0;
            let r = exec(l, s.out.last(), st, fuel);
            &&& s.out.len() > 0 && r.st.w == st.w && r.st.env == st.env
            &&& r.out == if !conditional(op) || vm_jumps(l, m.proto, pc, vm) {
                OutcomeV::Goto(crate::structure::label_at(m.proto, t)->Some_0)
            } else {
                OutcomeV::Normal
            }
        }),
{
    let s = crate::step::flow_effect(m, op, pc, pend);
    let go = StmtV::Goto(crate::step::label_text(m.proto, pc));
    if conditional(op) {
        tests_agree(l, m, op, pc, vm, st);
        let t = StateV { env: st.env, w: st.w };
        run_one(l, go, t, fuel);
        assert(run(l, Seq::<StmtV>::empty(), t, fuel) == (RunV { out: OutcomeV::Normal, st: t }));
    }
}

// ---- tests ------------------------------------------------------------------------------------------------

/// Whether the test at `pc` jumps.
pub open spec fn vm_jumps(l: Lang, p: Proto, pc: int, vm: VmV) -> bool {
    let w = p.code@[pc];
    let x = aux_at(p, pc);
    let a = (vm.regs)(w.a);
    let b = (vm.regs)(x.raw as u8);
    match w.op {
        Some(Opcode::JumpIf) => (l.truthy)(a),
        Some(Opcode::JumpIfNot) => !(l.truthy)(a),
        Some(Opcode::JumpIfEq) => (l.eq)(a, b),
        Some(Opcode::JumpIfLe) => (l.le)(a, b),
        Some(Opcode::JumpIfLt) => (l.lt)(a, b),
        Some(Opcode::JumpIfNotEq) => !(l.eq)(a, b),
        Some(Opcode::JumpIfNotLe) => !(l.le)(a, b),
        Some(Opcode::JumpIfNotLt) => !(l.lt)(a, b),
        Some(Opcode::JumpXEqKNil) => (l.eq)(a, l.nil) != x.not,
        Some(Opcode::JumpXEqKB) => (l.eq)(
            a,
            if x.raw % 2 == 1 {
                l.yes
            } else {
                l.no
            },
        ) != x.not,
        Some(Opcode::JumpXEqKN) | Some(Opcode::JumpXEqKS) => (l.eq)(a, constant(l, p, vm.vars, x.kv as int)) != x.not,
        _ => false,
    }
}

/// Whether the constant that the test at `pc` compares with is there.
pub open spec fn test_constant_there(p: Proto, pc: int) -> bool {
    let op = p.code@[pc].op;
    op == Some(Opcode::JumpXEqKN) || op == Some(Opcode::JumpXEqKS) ==> plain_constant(p, aux_at(p, pc).kv as int)
}

pub proof fn comparison_literals()
    ensures
        "=="@ != "~="@ && "=="@ != "<"@ && "=="@ != "<="@ && "=="@ != ">"@ && "=="@ != ">="@,
        "~="@ != "<"@ && "~="@ != "<="@ && "~="@ != ">"@ && "~="@ != ">="@,
        "<"@ != "<="@ && "<"@ != ">"@ && "<"@ != ">="@,
        "<="@ != ">"@ && "<="@ != ">="@,
        ">"@ != ">="@,
        "=="@ != "and"@ && "~="@ != "and"@ && "<"@ != "and"@ && "<="@ != "and"@ && ">"@ != "and"@ && ">="@ != "and"@,
        "=="@ != "or"@ && "~="@ != "or"@ && "<"@ != "or"@ && "<="@ != "or"@ && ">"@ != "or"@ && ">="@ != "or"@,
        "and"@ != "or"@,
{
    reveal_strlit("and");
    reveal_strlit("or");
    reveal_strlit("==");
    reveal_strlit("~=");
    reveal_strlit("<");
    reveal_strlit("<=");
    reveal_strlit(">");
    reveal_strlit(">=");
    assert("=="@[0] == '=' && "~="@[0] == '~' && "<="@[0] == '<' && ">="@[0] == '>');
    assert("<"@[0] == '<' && ">"@[0] == '>' && "or"@[0] == 'o' && "and"@[0] == 'a');
    assert("<"@.len() == 1 && ">"@.len() == 1 && "<="@.len() == 2 && ">="@.len() == 2);
}

/// The condition that is read from a test holds where the test jumps, its opposite holds where the
/// test falls through, and neither changes anything.
pub proof fn tests_agree(l: Lang, m: MachineV, op: Opcode, pc: int, vm: VmV, st: StateV)
    requires
        lawful(l),
        spelled(l, m.proto),
        agrees(l, m, vm, st),
        0 <= pc < m.proto.code.len(),
        m.proto.code@[pc].op == Some(op),
        conditional(op),
        test_constant_there(m.proto, pc),
        outside_names(m, pc),
    ensures
        ({
            let yes = eval(l, taken(m, op, pc), st.env, st.w);
            let no = eval(l, not_taken(m, op, pc), st.env, st.w);
            &&& (l.truthy)(yes.v) == vm_jumps(l, m.proto, pc, vm) && yes.w == st.w
            &&& (l.truthy)(no.v) == !vm_jumps(l, m.proto, pc, vm) && no.w == st.w
        }),
{
    let p = m.proto;
    let w = p.code@[pc];
    let x = aux_at(p, pc);
    let other = x.raw as u8;
    comparison_literals();
    assert(gives(l, reg(m, w.a), st.env, (vm.regs)(w.a)));
    assert(gives(l, reg(m, other), st.env, (vm.regs)(other)));
    assert(eval(l, reg(m, w.a), st.env, st.w) == (EvalV { v: (vm.regs)(w.a), w: st.w }));
    assert(eval(l, reg(m, other), st.env, st.w) == (EvalV { v: (vm.regs)(other), w: st.w }));
    if op == Opcode::JumpXEqKN || op == Opcode::JumpXEqKS {
        constant_read(l, m, vm, st, x.kv as int);
        assert(eval(l, const_expr(p, x.kv as int), st.env, st.w) == (EvalV {
            v: constant(l, p, vm.vars, x.kv as int),
            w: st.w,
        }));
    } else if op == Opcode::JumpXEqKB {
        let raw = x.raw;
        assert((raw & 1 != 0) == (raw % 2 == 1)) by (bit_vector);
        assert(eval(l, ExprV::Bool(raw & 1 != 0), st.env, st.w) == (EvalV { v: bool_val(l, raw & 1 != 0), w: st.w }));
    } else if op == Opcode::JumpXEqKNil {
        assert(eval(l, ExprV::Nil, st.env, st.w) == (EvalV { v: l.nil, w: st.w }));
    }
    let e = taken(m, op, pc);
    if comparing(op) || matching(op) {
        assert(e is Binary);
        match e {
            ExprV::Binary(o, a, b) => {
                assert(eval(l, ExprV::Binary(o, a, b), st.env, st.w).w == st.w);
                let n = opposite(e);
                assert(n is Binary);
            },
            _ => {},
        }
    } else {
        opposite_eval(l, e, st.env, st.w);
    }
}

/// The opposite of a condition that is no comparison holds where the condition does not.
proof fn opposite_eval(l: Lang, e: ExprV, env: Env, w: World)
    requires
        lawful(l),
    ensures
        (l.truthy)(eval(l, opposite(e), env, w).v) == !(l.truthy)(eval(l, e, env, w).v),
        eval(l, opposite(e), env, w).w == eval(l, e, env, w).w,
{
    comparison_literals();
    let n = not_of(e);
    assert(eval(l, n, env, w).v == unary_val(l, "not "@, eval(l, e, env, w).v));
    match e {
        ExprV::Binary(op, a, b) => {
            if n != opposite(e) {
                let o = opposite(e);
                assert(o is Binary);
            }
        },
        _ => {},
    }
}

} // verus!
