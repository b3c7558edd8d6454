//! The effect of one instruction.
use vstd::prelude::*;
use vstd::string::StringExecFns;

use crate::ast::{block, exprs, if_then, one, one_expr, spec_if, Block, Capture, Expr, ExprV, Stmt, StmtV};
use crate::bytecode::{
    aux_at, bin_op_text, comparing, comparison_of, comparison_text, conditional, for_in_prep, is_comparing,
    is_for_in_prep, is_matching, len_at, matching, number_name, numbered, op_at, operator, string_at, target_at,
    upvalue_name, writes, writes_register, CaptureKind, Constant, Opcode, Proto, Word,
};
use crate::conditions::{binary, binary_expr, negate, not_expr, not_of, opposite};
use crate::machine::{
    captures_flushed_from, captures_forgotten, const_expr, field_expr, flushed, forgotten, index_expr, noted, reg,
    reg_name, remembered, template_expr, Machine, MachineV, Request, RequestV,
};
use crate::names::insert_sorted;
use crate::render::{expr_text, render_expr, tabs};
use crate::sweeps::{assign, push_stmt};
use crate::text::{decimal, decimal_of, owned, texts, Text};

verus! {

/// A method call that is being set up: the register, the receiver and the method.
pub type PendingV = Option<(u8, ExprV, Text)>;

/// The model of a method call that is being set up.
pub open spec fn pending_of(p: Option<(u8, Expr, String)>) -> PendingV {
    match p {
        Some((r, e, n)) => Some((r, e@, n@)),
        None => None,
    }
}

/// What an instruction does: the new state, the statements, and the method call being set up.
#[verifier::ext_equal]
pub struct StepV {
    pub m: MachineV,
    pub out: Block,
    pub pend: PendingV,
}

/// The note on control flow that is written with jumps.
pub open spec fn goto_note() -> Text {
    "control flow rendered with goto/labels (structuring incomplete)"@
}

/// Nothing but a new state.
pub open spec fn quiet(m: MachineV, pend: PendingV) -> StepV {
    StepV { m, out: Seq::empty(), pend }
}

/// One statement.
pub open spec fn says(m: MachineV, s: StmtV, pend: PendingV) -> StepV {
    StepV { m, out: seq![s], pend }
}

/// The register `r` gets the value `e`.
pub open spec fn stores(m: MachineV, r: u8, e: ExprV, pend: PendingV) -> StepV {
    says(remembered(m, r, None), assign(reg_name(m, r), e), pend)
}

/// `target = value`.
pub open spec fn set_to(target: ExprV, value: ExprV) -> StmtV {
    StmtV::Assign { targets: seq![target], values: seq![value] }
}

/// The register number `n`; numbers wrap round.
pub open spec fn wrap8(n: int) -> u8 {
    (n % 256) as u8
}

/// The register `n` places after `a`.
pub fn reg_after(a: u8, n: u8) -> (r: u8)
    ensures
        r == wrap8(a + n),
{
    ((a as u16 + n as u16) % 256) as u8
}

/// `n` in decimal, with its sign.
pub open spec fn signed_decimal(n: int) -> Text {
    if n < 0 {
        "-"@ + decimal((-n) as nat)
    } else {
        decimal(n as nat)
    }
}

fn signed_decimal_of(n: i64) -> (r: String)
    ensures
        r@ == signed_decimal(n as int),
{
    if n < 0 {
        let mut s = owned("-");
        s.append(&decimal_of((-(n as i128)) as u128));
        s
    } else {
        decimal_of(n as u128)
    }
}

/// What `n` registers from `first` on hold.
pub open spec fn reg_list(m: MachineV, first: int, n: nat) -> Seq<ExprV> {
    Seq::new(n, |i: int| reg(m, wrap8(first + i)))
}

fn regs_from(m: &Machine, first: u8, n: u16) -> (r: Vec<Expr>)
    requires
        n <= 256,
    ensures
        exprs(r@) == reg_list(m@, first as int, n as nat),
{
    let mut out: Vec<Expr> = Vec::new();
    let mut i: u16 = 0;
    while i < n
        invariant
            i <= n <= 256,
            out.len() == i,
            forall|j: int| 0 <= j < i ==> (#[trigger] out@[j])@ == reg(m@, wrap8(first + j)),
        decreases n - i,
    {
        let r: u8 = ((first as u16 + i) % 256) as u8;
        out.push(m.reg(r));
        i += 1;
    }
    assert(exprs(out@) =~= reg_list(m@, first as int, n as nat));
    out
}

/// The label that the instruction at `pc` jumps to.
pub open spec fn label_text(p: Proto, pc: int) -> Text {
    match target_at(p, pc) {
        Some(t) => if 0 <= t < p.labels.len() && p.labels@[t] is Some {
            numbered("L"@, p.labels@[t]->Some_0 as nat)
        } else {
            "L?"@
        },
        None => "L?"@,
    }
}

fn target_label(p: &Proto, pc: usize) -> (r: String)
    ensures
        r@ == label_text(*p, pc as int),
{
    if let Some(t) = p.target(pc) {
        if t < p.labels.len() {
            if let Some(id) = p.labels[t] {
                return number_name("L", id as u128);
            }
        }
    }
    owned("L?")
}

// ---- values -----------------------------------------------------------------------------------------------

/// Operations whose value is remembered.
pub open spec fn is_load(op: Opcode) -> bool {
    op == Opcode::LoadNil || op == Opcode::LoadB || op == Opcode::LoadN || op == Opcode::LoadK || op == Opcode::LoadKx || op
        == Opcode::GetImport || op == Opcode::GetGlobal
}

pub open spec fn load_effect(m: MachineV, op: Opcode, pc: int, pend: PendingV) -> StepV {
    let w = m.proto.code@[pc];
    let x = aux_at(m.proto, pc);
    if op == Opcode::LoadNil {
        quiet(remembered(m, w.a, Some(ExprV::Nil)), pend)
    } else if op == Opcode::LoadB {
        quiet(remembered(m, w.a, Some(ExprV::Bool(w.b != 0))), pend)
    } else if op == Opcode::LoadN {
        quiet(remembered(m, w.a, Some(ExprV::Num(signed_decimal(w.d as int)))), pend)
    } else if op == Opcode::LoadKx {
        quiet(remembered(m, w.a, Some(const_expr(m.proto, x.raw as int))), pend)
    } else if op == Opcode::GetGlobal {
        let g = string_at(m.proto, x.raw as nat);
        quiet(
            remembered(MachineV { globals: insert_sorted(m.globals, g), ..m }, w.a, Some(ExprV::Var(g))),
            pend,
        )
    } else {
        quiet(remembered(m, w.a, Some(const_expr(m.proto, w.d as int))), pend)
    }
}

fn load(m: &mut Machine, op: Opcode, pc: usize)
    requires
        is_load(op),
        pc < old(m)@.proto.code.len(),
    ensures
        final(m)@ == load_effect(old(m)@, op, pc as int, None).m,
{
    let p = m.proto();
    let w = p.code[pc];
    let x = p.aux(pc);
    if op == Opcode::LoadNil {
        m.set_inline(w.a, Expr::Nil);
    } else if op == Opcode::LoadB {
        m.set_inline(w.a, Expr::Bool(w.b != 0));
    } else if op == Opcode::LoadN {
        m.set_inline(w.a, Expr::Num(signed_decimal_of(w.d as i64)));
    } else if op == Opcode::LoadKx {
        m.set_inline(w.a, p.operand_const_expr(x.raw));
    } else if op == Opcode::GetGlobal {
        let g = p.string_const(x.raw);
        m.add_global(&g);
        m.set_inline(w.a, Expr::Var(g));
    } else {
        m.set_inline(w.a, p.signed_const_expr(w.d));
    }
}

/// The registers from `b` to `r`, put together.
pub open spec fn concat_text(m: MachineV, b: u8, r: int) -> ExprV
    decreases r - b,
{
    if r <= b {
        reg(m, b)
    } else {
        binary(".."@, concat_text(m, b, r - 1), reg(m, r as u8))
    }
}

fn concat_regs(m: &Machine, b: u8, c: u8) -> (r: Expr)
    ensures
        r@ == concat_text(m@, b, c as int),
{
    let mut e = m.reg(b);
    let mut r: u16 = b as u16 + 1;
    while r <= c as u16
        invariant
            b < r,
            r <= c + 1 || r == b + 1,
            e@ == concat_text(m@, b, r - 1),
        decreases 300 - r,
    {
        e = binary_expr("..", e, m.reg(r as u8));
        r += 1;
    }
    e
}

/// Operations whose value is stored.
pub open spec fn is_value(op: Opcode) -> bool {
    op == Opcode::Move || op == Opcode::GetUpval || op == Opcode::GetTable || op == Opcode::GetTableKs || op
        == Opcode::GetUdataKs || op == Opcode::GetTableN || arithmetic(op) || op == Opcode::Concat || arithmetic_k(op) || op
        == Opcode::SubRk || op == Opcode::DivRk || op == Opcode::Not || op == Opcode::Minus || op == Opcode::Length || op
        == Opcode::NewTable || op == Opcode::DupTable
}

/// Operations on two registers.
pub open spec fn arithmetic(op: Opcode) -> bool {
    op == Opcode::Add || op == Opcode::Sub || op == Opcode::Mul || op == Opcode::Div || op == Opcode::IDiv || op
        == Opcode::Mod || op == Opcode::Pow || op == Opcode::And || op == Opcode::Or
}

/// Operations on a register and a constant.
pub open spec fn arithmetic_k(op: Opcode) -> bool {
    op == Opcode::AddK || op == Opcode::SubK || op == Opcode::MulK || op == Opcode::DivK || op == Opcode::IDivK || op
        == Opcode::ModK || op == Opcode::PowK || op == Opcode::AndK || op == Opcode::OrK
}

fn is_arithmetic(op: Opcode) -> (r: bool)
    ensures
        r == arithmetic(op),
{
    op == Opcode::Add || op == Opcode::Sub || op == Opcode::Mul || op == Opcode::Div || op == Opcode::IDiv || op
        == Opcode::Mod || op == Opcode::Pow || op == Opcode::And || op == Opcode::Or
}

fn is_arithmetic_k(op: Opcode) -> (r: bool)
    ensures
        r == arithmetic_k(op),
{
    op == Opcode::AddK || op == Opcode::SubK || op == Opcode::MulK || op == Opcode::DivK || op == Opcode::IDivK || op
        == Opcode::ModK || op == Opcode::PowK || op == Opcode::AndK || op == Opcode::OrK
}

/// The number that an operand encodes one less of.
pub open spec fn next_number(c: u8) -> ExprV {
    ExprV::Num(decimal((c + 1) as nat))
}

fn number_after(c: u8) -> (r: Expr)
    ensures
        r@ == next_number(c),
{
    Expr::Num(decimal_of(c as u128 + 1))
}

/// The value that the instruction at `pc` computes.
pub open spec fn value_expr(m: MachineV, op: Opcode, pc: int) -> ExprV {
    let w = m.proto.code@[pc];
    let x = aux_at(m.proto, pc);
    if op == Opcode::Move {
        reg(m, w.b)
    } else if op == Opcode::GetUpval {
        ExprV::Var(upvalue_name(m.proto, w.b))
    } else if op == Opcode::GetTable {
        ExprV::Index(Box::new(reg(m, w.b)), Box::new(reg(m, w.c)))
    } else if op == Opcode::GetTableKs {
        field_expr(m.proto, reg(m, w.b), x.raw as nat)
    } else if op == Opcode::GetUdataKs {
        field_expr(m.proto, reg(m, w.b), x.kv16 as nat)
    } else if op == Opcode::GetTableN {
        ExprV::Index(Box::new(reg(m, w.b)), Box::new(next_number(w.c)))
    } else if arithmetic(op) {
        binary(operator(op), reg(m, w.b), reg(m, w.c))
    } else if op == Opcode::Concat {
        concat_text(m, w.b, w.c as int)
    } else if arithmetic_k(op) {
        binary(operator(op), reg(m, w.b), const_expr(m.proto, w.c as int))
    } else if op == Opcode::SubRk || op == Opcode::DivRk {
        binary(operator(op), const_expr(m.proto, w.b as int), reg(m, w.c))
    } else if op == Opcode::Not {
        not_of(reg(m, w.b))
    } else if op == Opcode::Minus {
        ExprV::Unary("-"@, Box::new(reg(m, w.b)))
    } else if op == Opcode::Length {
        ExprV::Unary("#"@, Box::new(reg(m, w.b)))
    } else if op == Opcode::NewTable {
        ExprV::Table(Seq::empty())
    } else {
        template_expr(m.proto, w.d as int)
    }
}

fn unary_expr(op: &'static str, e: Expr) -> (r: Expr)
    ensures
        r@ == ExprV::Unary(op@, Box::new(e@)),
{
    Expr::Unary(op, Box::new(e))
}

fn empty_table() -> (r: Expr)
    ensures
        r@ == ExprV::Table(Seq::empty()),
{
    let fs: Vec<crate::ast::TableField> = Vec::new();
    assert(crate::ast::fields(fs@) =~= Seq::empty());
    Expr::Table(fs)
}

fn value_of(m: &Machine, op: Opcode, pc: usize) -> (r: Expr)
    requires
        is_value(op),
        pc < m@.proto.code.len(),
    ensures
        r@ == value_expr(m@, op, pc as int),
{
    let p = m.proto();
    let w = p.code[pc];
    let x = p.aux(pc);
    if op == Opcode::Move {
        m.reg(w.b)
    } else if op == Opcode::GetUpval {
        Expr::Var(p.upval_name(w.b))
    } else if op == Opcode::GetTable {
        index_expr(m.reg(w.b), m.reg(w.c))
    } else if op == Opcode::GetTableKs {
        p.field(m.reg(w.b), x.raw)
    } else if op == Opcode::GetUdataKs {
        p.field(m.reg(w.b), x.kv16)
    } else if op == Opcode::GetTableN {
        index_expr(m.reg(w.b), number_after(w.c))
    } else if is_arithmetic(op) {
        binary_expr(bin_op_text(op), m.reg(w.b), m.reg(w.c))
    } else if op == Opcode::Concat {
        concat_regs(m, w.b, w.c)
    } else if is_arithmetic_k(op) {
        binary_expr(bin_op_text(op), m.reg(w.b), p.const_expr(w.c as usize))
    } else if op == Opcode::SubRk || op == Opcode::DivRk {
        binary_expr(bin_op_text(op), p.const_expr(w.b as usize), m.reg(w.c))
    } else if op == Opcode::Not {
        not_expr(m.reg(w.b))
    } else if op == Opcode::Minus {
        unary_expr("-", m.reg(w.b))
    } else if op == Opcode::Length {
        unary_expr("#", m.reg(w.b))
    } else if op == Opcode::NewTable {
        empty_table()
    } else {
        p.duptable_expr(w.d)
    }
}

// ---- stores -----------------------------------------------------------------------------------------------

/// Operations that write through a table or to a variable that is no register.
pub open spec fn is_set(op: Opcode) -> bool {
    op == Opcode::SetTable || op == Opcode::SetTableKs || op == Opcode::SetUdataKs || op == Opcode::NewClassMember || op
        == Opcode::SetTableN || op == Opcode::SetGlobal || op == Opcode::SetUpval
}

/// What the instruction at `pc` writes to.
pub open spec fn set_target(m: MachineV, op: Opcode, pc: int) -> ExprV {
    let w = m.proto.code@[pc];
    let x = aux_at(m.proto, pc);
    if op == Opcode::SetTable {
        ExprV::Index(Box::new(reg(m, w.b)), Box::new(reg(m, w.c)))
    } else if op == Opcode::SetTableKs {
        field_expr(m.proto, reg(m, w.b), x.raw as nat)
    } else if op == Opcode::SetUdataKs {
        field_expr(m.proto, reg(m, w.b), x.kv16 as nat)
    } else if op == Opcode::NewClassMember {
        field_expr(m.proto, reg(m, w.a), x.raw as nat)
    } else if op == Opcode::SetTableN {
        ExprV::Index(Box::new(reg(m, w.b)), Box::new(next_number(w.c)))
    } else if op == Opcode::SetGlobal {
        ExprV::Var(string_at(m.proto, x.raw as nat))
    } else {
        ExprV::Var(upvalue_name(m.proto, w.b))
    }
}

pub open spec fn set_effect(m: MachineV, op: Opcode, pc: int, pend: PendingV) -> StepV {
    let w = m.proto.code@[pc];
    let value = if op == Opcode::NewClassMember {
        reg(m, w.c)
    } else {
        reg(m, w.a)
    };
    let n = if op == Opcode::SetGlobal {
        MachineV { globals: insert_sorted(m.globals, string_at(m.proto, aux_at(m.proto, pc).raw as nat)), ..m }
    } else {
        m
    };
    says(n, set_to(set_target(m, op, pc), value), pend)
}

fn target_of_set(m: &Machine, op: Opcode, pc: usize) -> (r: Expr)
    requires
        is_set(op),
        pc < m@.proto.code.len(),
    ensures
        r@ == set_target(m@, op, pc as int),
{
    let p = m.proto();
    let w = p.code[pc];
    let x = p.aux(pc);
    if op == Opcode::SetTable {
        index_expr(m.reg(w.b), m.reg(w.c))
    } else if op == Opcode::SetTableKs {
        p.field(m.reg(w.b), x.raw)
    } else if op == Opcode::SetUdataKs {
        p.field(m.reg(w.b), x.kv16)
    } else if op == Opcode::NewClassMember {
        p.field(m.reg(w.a), x.raw)
    } else if op == Opcode::SetTableN {
        index_expr(m.reg(w.b), number_after(w.c))
    } else if op == Opcode::SetGlobal {
        Expr::Var(p.string_const(x.raw))
    } else {
        Expr::Var(p.upval_name(w.b))
    }
}

/// `target = value`.
pub fn make_set(target: Expr, value: Expr) -> (r: Stmt)
    ensures
        r@ == set_to(target@, value@),
{
    Stmt::Assign { targets: one_expr(target), values: one_expr(value) }
}

fn set(m: &mut Machine, op: Opcode, pc: usize, out: &mut Vec<Stmt>)
    requires
        is_set(op),
        pc < old(m)@.proto.code.len(),
    ensures
        final(m)@ == set_effect(old(m)@, op, pc as int, None).m,
        block(final(out)@) == block(old(out)@) + set_effect(old(m)@, op, pc as int, None).out,
{
    let p = m.proto();
    let w = p.code[pc];
    let target = target_of_set(m, op, pc);
    let value = if op == Opcode::NewClassMember {
        m.reg(w.c)
    } else {
        m.reg(w.a)
    };
    if op == Opcode::SetGlobal {
        let g = p.string_const(p.aux(pc).raw);
        m.add_global(&g);
    }
    push_stmt(out, make_set(target, value));
}

// ---- lists --------------------------------------------------------------------------------------------------

/// The sum of two numbers of 32 bits with a sign; sums wrap round.
pub open spec fn wrap32(n: int) -> int {
    if n > 0x7fff_ffff {
        n - 0x1_0000_0000
    } else {
        n
    }
}

/// The number that the operand word `raw` stands for.
pub open spec fn signed32(raw: u32) -> int {
    wrap32(raw as int)
}

/// The assignments to `n` entries of the table in `a` from `start` on.
pub open spec fn list_stores(m: MachineV, a: u8, b: u8, start: int, n: nat) -> Block {
    Seq::new(
        n,
        |i: int|
            set_to(
                ExprV::Index(Box::new(reg(m, a)), Box::new(ExprV::Num(signed_decimal(wrap32(start + i))))),
                reg(m, wrap8(b + i)),
            ),
    )
}

/// The number of values that a list instruction stores.
pub open spec fn list_count(w: Word, top: Option<u8>) -> nat {
    if w.c == 0 {
        match top {
            Some(t) => if t >= w.b {
                (t - w.b + 1) as nat
            } else {
                0
            },
            None => 0,
        }
    } else {
        (w.c - 1) as nat
    }
}

/// `m`, remembering nothing of the open list `top`.
pub open spec fn top_cleared(m: MachineV, top: Option<u8>) -> MachineV {
    match top {
        Some(r) => remembered(m, r, None),
        None => m,
    }
}

pub open spec fn list_effect(m: MachineV, pc: int, top: Option<u8>, pend: PendingV) -> StepV {
    let w = m.proto.code@[pc];
    let x = aux_at(m.proto, pc);
    let n = if w.c == 0 && top is None {
        noted(m, "open SETLIST (to top) approximated"@)
    } else {
        m
    };
    StepV {
        m: if w.c == 0 {
            top_cleared(n, top)
        } else {
            n
        },
        out: list_stores(m, w.a, w.b, signed32(x.raw), list_count(w, top)),
        pend,
    }
}

fn clear_top(m: &mut Machine, top: Option<u8>)
    ensures
        final(m)@ == top_cleared(old(m)@, top),
{
    if let Some(r) = top {
        m.clear_inline(r);
    }
}

fn list_store(m: &Machine, a: u8, b: u8, start: i64, i: u16) -> (r: Stmt)
    requires
        i <= 256,
        -0x8000_0000 <= start <= 0x7fff_ffff,
    ensures
        r@ == set_to(
            ExprV::Index(Box::new(reg(m@, a)), Box::new(ExprV::Num(signed_decimal(wrap32(start + i))))),
            reg(m@, wrap8(b + i)),
        ),
{
    let sum: i64 = start + i as i64;
    let k: i64 = if sum > 0x7fff_ffff {
        sum - 0x1_0000_0000
    } else {
        sum
    };
    let target = index_expr(m.reg(a), Expr::Num(signed_decimal_of(k)));
    let r: u8 = ((b as u16 + i) % 256) as u8;
    make_set(target, m.reg(r))
}

fn set_list(m: &mut Machine, pc: usize, top: Option<u8>, out: &mut Vec<Stmt>)
    requires
        pc < old(m)@.proto.code.len(),
    ensures
        final(m)@ == list_effect(old(m)@, pc as int, top, None).m,
        block(final(out)@) == block(old(out)@) + list_effect(old(m)@, pc as int, top, None).out,
{
    let p = m.proto();
    let w = p.code[pc];
    let x = p.aux(pc);
    let ghost mv = m@;
    let count: u16 = if w.c == 0 {
        match top {
            Some(t) => {
                if t >= w.b {
                    (t - w.b) as u16 + 1
                } else {
                    0
                }
            },
            None => 0,
        }
    } else {
        w.c as u16 - 1
    };
    let start: i64 = if x.raw > 0x7fff_ffff {
        x.raw as i64 - 0x1_0000_0000
    } else {
        x.raw as i64
    };
    let ghost o = block(out@);
    let ghost all = list_stores(mv, w.a, w.b, start as int, count as nat);
    let mut i: u16 = 0;
    assert(o + all.take(0) =~= o);
    while i < count
        invariant
            i <= count <= 256,
            m@ == mv,
            -0x8000_0000 <= start <= 0x7fff_ffff,
            all == list_stores(mv, w.a, w.b, start as int, count as nat),
            block(out@) == o + all.take(i as int),
        decreases count - i,
    {
        let s = list_store(m, w.a, w.b, start, i);
        push_stmt(out, s);
        assert(s@ == all[i as int]);
        assert(o + all.take(i + 1) =~= o + all.take(i as int) + seq![s@]);
        i += 1;
    }
    assert(all.take(i as int) =~= all);
    if w.c == 0 {
        if top.is_none() {
            m.note("open SETLIST (to top) approximated");
        }
        clear_top(m, top);
    }
}

pub open spec fn varargs_effect(m: MachineV, pc: int, pend: PendingV) -> StepV {
    let w = m.proto.code@[pc];
    if w.b == 0 {
        quiet(MachineV { multret: Some(w.a), ..remembered(m, w.a, Some(ExprV::Vararg)) }, pend)
    } else {
        let s = stores(m, w.a, ExprV::Vararg, pend);
        if w.b != 2 {
            StepV { m: noted(s.m, "multi-value `...` expansion approximated"@), ..s }
        } else {
            s
        }
    }
}

fn get_varargs(m: &mut Machine, pc: usize, out: &mut Vec<Stmt>)
    requires
        pc < old(m)@.proto.code.len(),
    ensures
        final(m)@ == varargs_effect(old(m)@, pc as int, None).m,
        block(final(out)@) == block(old(out)@) + varargs_effect(old(m)@, pc as int, None).out,
{
    let w = m.proto().code[pc];
    if w.b == 0 {
        m.set_inline(w.a, Expr::Vararg);
        m.set_multret(Some(w.a));
        assert(block(out@) + Seq::<StmtV>::empty() =~= block(out@));
    } else {
        m.assign(w.a, Expr::Vararg, out);
        if w.b != 2 {
            m.note("multi-value `...` expansion approximated");
        }
    }
}

// ---- closures -----------------------------------------------------------------------------------------------

/// What the capture instructions from `q` on capture.
pub open spec fn captures_from(p: Proto, q: int) -> Seq<Capture>
    decreases p.code.len() - q,
{
    if q < 0 || q >= p.code.len() || p.code@[q].op != Some(Opcode::Capture) {
        Seq::empty()
    } else {
        let w = p.code@[q];
        match w.capture {
            CaptureKind::Register => seq![Capture::Reg(w.b)] + captures_from(p, q + 1),
            CaptureKind::Upvalue => seq![Capture::Upval(w.b)] + captures_from(p, q + 1),
            CaptureKind::Unknown => captures_from(p, q + 1),
        }
    }
}

/// What the closure that is made at `pc` captures.
pub fn closure_captures(p: &Proto, pc: usize) -> (r: Vec<Capture>)
    requires
        pc < p.code.len(),
        p.code.len() + 255 <= usize::MAX,
    ensures
        r@ == captures_from(*p, pc + len_at(*p, pc as int)),
{
    let mut out: Vec<Capture> = Vec::new();
    let mut q: usize = p.after(pc);
    let ghost start = q as int;
    assert(captures_from(*p, start) =~= out@ + captures_from(*p, start));
    while q < p.code.len() && p.code[q].op == Some(Opcode::Capture)
        invariant
            start >= 0,
            q >= start,
            captures_from(*p, start) == out@ + captures_from(*p, q as int),
        decreases p.code.len() - q,
    {
        let w = p.code[q];
        let ghost o = out@;
        let ghost rest = captures_from(*p, q + 1);
        match w.capture {
            CaptureKind::Register => {
                out.push(Capture::Reg(w.b));
                assert(o + (seq![Capture::Reg(w.b)] + rest) =~= out@ + rest);
            },
            CaptureKind::Upvalue => {
                out.push(Capture::Upval(w.b));
                assert(o + (seq![Capture::Upval(w.b)] + rest) =~= out@ + rest);
            },
            CaptureKind::Unknown => {},
        }
        q += 1;
    }
    assert(out@ + Seq::<Capture>::empty() =~= out@);
    out
}

/// The number of words from `q` on.
pub open spec fn words_left(p: Proto, q: int) -> nat {
    if q < p.code.len() {
        (p.code.len() - q) as nat
    } else {
        0
    }
}

/// Whether, from `q` up to `end`, the register `reg` is stored in a table before it is overwritten.
pub open spec fn stored_in_table(p: Proto, q: int, end: int, reg: u8) -> bool
    decreases words_left(p, q),
{
    if q < 0 || q >= p.code.len() || q >= end {
        false
    } else {
        let w = p.code@[q];
        match w.op {
            None => stored_in_table(p, q + 1, end, reg),
            Some(op) => if (op == Opcode::SetTableKs || op == Opcode::SetTable || op == Opcode::SetTableN) && w.a == reg {
                true
            } else if writes(op, w, reg) {
                false
            } else {
                stored_in_table(p, q + len_at(p, q), end, reg)
            },
        }
    }
}

/// The position after the word at `pc`, whatever it is.
pub open spec fn next_at(p: Proto, pc: int) -> int {
    if op_at(p, pc) is Some {
        pc + len_at(p, pc)
    } else {
        pc + 1
    }
}

fn next_after(p: &Proto, pc: usize) -> (r: usize)
    requires
        pc < p.code.len(),
        p.code.len() + 255 <= usize::MAX,
    ensures
        r == next_at(*p, pc as int),
        pc < r <= p.code.len() + 255,
{
    match p.op(pc) {
        Some(_) => p.after(pc),
        None => pc + 1,
    }
}

fn is_closure_method_like(p: &Proto, pc: usize, reg: u8) -> (r: bool)
    requires
        pc < p.code.len(),
        p.code.len() + 255 <= usize::MAX,
    ensures
        r == stored_in_table(*p, next_at(*p, pc as int), pc + 20, reg),
{
    let mut q: usize = next_after(p, pc);
    let ghost start = q as int;
    let end: usize = pc + 20;
    while q < p.code.len() && q < end
        invariant
            p.code.len() + 255 <= usize::MAX,
            q >= start,
            start >= 0,
            start == next_at(*p, pc as int),
            end == pc + 20,
            stored_in_table(*p, start, pc + 20, reg) == stored_in_table(*p, q as int, pc + 20, reg),
        decreases p.code.len() + 255 - q,
    {
        let w = p.code[q];
        match w.op {
            None => {
                q += 1;
            },
            Some(op) => {
                if (op == Opcode::SetTableKs || op == Opcode::SetTable || op == Opcode::SetTableN) && w.a == reg {
                    return true;
                }
                if writes_register(op, w, reg) {
                    return false;
                }
                q = p.after(q);
            },
        }
    }
    false
}

/// Whether calling `method` connects a function to an event.
pub open spec fn connects(method: Text) -> bool {
    method == "Connect"@ || method == "ConnectParallel"@ || method == "Once"@
}

/// The texts of the events that the calls from `q` up to `end` may connect the register `reg` to.
pub open spec fn events_from(m: MachineV, q: int, end: int, reg_c: u8, pend: Option<(u8, Text)>) -> Seq<Text>
    decreases words_left(m.proto, q),
{
    let p = m.proto;
    if q < 0 || q >= p.code.len() || q >= end {
        Seq::empty()
    } else {
        let w = p.code@[q];
        match w.op {
            None => events_from(m, q + 1, end, reg_c, pend),
            Some(op) => if op == Opcode::NameCall {
                events_from(m, q + len_at(p, q), end, reg_c, Some((w.a, string_at(p, w.c as nat))))
            } else if op == Opcode::Call {
                let rest = events_from(m, q + len_at(p, q), end, reg_c, None);
                if pend is Some && pend->Some_0.0 == w.a && (w.b == 0 || (w.b >= 3 && reg_c == wrap8(w.a + 2)))
                    && connects(pend->Some_0.1) {
                    seq![expr_text(reg(m, wrap8(w.a + 1)), tabs(0), m.nums)] + rest
                } else {
                    rest
                }
            } else if writes(op, w, reg_c) {
                Seq::empty()
            } else {
                events_from(m, q + len_at(p, q), end, reg_c, pend)
            },
        }
    }
}

fn is_connecting(method: &str) -> (r: bool)
    ensures
        r == connects(method@),
{
    crate::text::str_eq(method, "Connect") || crate::text::str_eq(method, "ConnectParallel") || crate::text::str_eq(
        method,
        "Once",
    )
}

/// The model of a method that is looked up.
pub open spec fn method_of(p: Option<(u8, String)>) -> Option<(u8, Text)> {
    match p {
        Some((r, n)) => Some((r, n@)),
        None => None,
    }
}

fn closure_events(m: &Machine, pc: usize, reg_c: u8) -> (r: Vec<String>)
    requires
        pc < m@.proto.code.len(),
        m@.proto.code.len() + 255 <= usize::MAX,
    ensures
        texts(r@) == events_from(m@, next_at(m@.proto, pc as int), pc + 30, reg_c, None),
{
    let p = m.proto();
    let mut out: Vec<String> = Vec::new();
    let mut pend: Option<(u8, String)> = None;
    let mut q: usize = next_after(p, pc);
    let ghost start = q as int;
    let ghost mv = m@;
    let end: usize = pc + 30;
    let ghost whole = events_from(mv, start, pc + 30, reg_c, None);
    assert(texts(out@) + whole =~= whole);
    while q < p.code.len() && q < end
        invariant
            *p == mv.proto,
            mv == m@,
            p.code.len() + 255 <= usize::MAX,
            q >= start,
            start >= 0,
            start == next_at(*p, pc as int),
            end == pc + 30,
            whole == events_from(mv, start, pc + 30, reg_c, None),
            whole == texts(out@) + events_from(mv, q as int, pc + 30, reg_c, method_of(pend)),
        decreases p.code.len() + 255 - q,
    {
        let w = p.code[q];
        match w.op {
            None => {
                q += 1;
            },
            Some(op) => {
                if op == Opcode::NameCall {
                    pend = Some((w.a, p.string_const(w.c as u32)));
                } else if op == Opcode::Call {
                    if let Some((r, method)) = &pend {
                        if *r == w.a && (w.b == 0 || (w.b >= 3 && reg_c == reg_after(w.a, 2))) && is_connecting(method) {
                            let e = m.reg(reg_after(w.a, 1));
                            let t = render_expr(&e, m.nums());
                            let ghost o = texts(out@);
                            let ghost tv = t@;
                            let ghost rest = events_from(mv, q + len_at(*p, q as int), pc + 30, reg_c, None);
                            out.push(t);
                            assert(texts(out@) =~= o.push(tv));
                            assert(o + (seq![tv] + rest) =~= texts(out@) + rest);
                        }
                    }
                    pend = None;
                } else if writes_register(op, w, reg_c) {
                    assert(texts(out@) + Seq::<Text>::empty() =~= texts(out@));
                    return out;
                }
                q = p.after(q);
            },
        }
    }
    assert(texts(out@) + Seq::<Text>::empty() =~= texts(out@));
    out
}

/// The request for the function `child`, which the instruction at `pc` makes a closure of.
pub open spec fn request_for(m: MachineV, child: nat, pc: int) -> RequestV {
    let p = m.proto;
    let r = p.code@[pc].a;
    RequestV {
        child,
        is_method: stored_in_table(p, next_at(p, pc), pc + 20, r),
        events: events_from(m, next_at(p, pc), pc + 30, r, None),
    }
}

/// The closure that answers the request number `n`.
pub open spec fn closure_of(p: Proto, n: nat, pc: int) -> ExprV {
    ExprV::Closure { text: decimal(n), captures: captures_from(p, pc + len_at(p, pc)) }
}

/// The function that the instruction at `pc` makes a closure of.
pub open spec fn closure_child(p: Proto, op: Opcode, pc: int) -> Option<nat> {
    let d = p.code@[pc].d;
    if op == Opcode::NewClosure {
        if 0 <= d < p.children.len() {
            Some(p.children@[d as int] as nat)
        } else {
            None
        }
    } else if 0 <= d < p.constants.len() {
        match p.constants@[d as int] {
            Constant::Closure { proto, .. } => Some(proto as nat),
            _ => None,
        }
    } else {
        None
    }
}

/// The note on a closure whose function is not there.
pub open spec fn no_child_note(op: Opcode) -> Text {
    if op == Opcode::NewClosure {
        "NEWCLOSURE child index out of range"@
    } else {
        "DUPCLOSURE without a closure constant"@
    }
}

pub open spec fn closure_effect(m: MachineV, op: Opcode, pc: int, pend: PendingV) -> StepV {
    let w = m.proto.code@[pc];
    let n = captures_forgotten(m);
    let before = captures_flushed_from(m, 0);
    match closure_child(m.proto, op, pc) {
        Some(child) => {
            let q = MachineV { requests: n.requests.push(request_for(n, child, pc)), ..n };
            let s = stores(q, w.a, closure_of(m.proto, n.requests.len(), pc), pend);
            StepV { out: before + s.out, ..s }
        },
        None => {
            let s = stores(n, w.a, ExprV::Raw("--[[closure?]]"@), pend);
            StepV { m: noted(s.m, no_child_note(op)), out: before + s.out, ..s }
        },
    }
}

fn child_of(p: &Proto, op: Opcode, pc: usize) -> (r: Option<usize>)
    requires
        pc < p.code.len(),
    ensures
        match r {
            Some(c) => closure_child(*p, op, pc as int) == Some(c as nat),
            None => closure_child(*p, op, pc as int) is None,
        },
{
    let d: i32 = p.code[pc].d;
    if d < 0 {
        return None;
    }
    if op == Opcode::NewClosure {
        if (d as u64) < p.children.len() as u64 {
            Some(p.children[d as usize])
        } else {
            None
        }
    } else if (d as u64) < p.constants.len() as u64 {
        match &p.constants[d as usize] {
            Constant::Closure { proto, .. } => Some(*proto),
            _ => None,
        }
    } else {
        None
    }
}

fn make_closure(m: &mut Machine, op: Opcode, pc: usize, out: &mut Vec<Stmt>)
    requires
        op == Opcode::NewClosure || op == Opcode::DupClosure,
        pc < old(m)@.proto.code.len(),
        old(m)@.proto.code.len() + 255 <= usize::MAX,
    ensures
        final(m)@ == closure_effect(old(m)@, op, pc as int, None).m,
        block(final(out)@) == block(old(out)@) + closure_effect(old(m)@, op, pc as int, None).out,
{
    let ghost o = block(out@);
    let ghost before = captures_flushed_from(m@, 0);
    let p = m.proto();
    let w = p.code[pc];
    m.flush_captured(out);
    match child_of(p, op, pc) {
        Some(child) => {
            let q = Request {
                child,
                is_method: is_closure_method_like(p, pc, w.a),
                events: closure_events(m, pc, w.a),
            };
            let n: usize = m.request_count();
            m.add_request(q);
            let e = Expr::Closure { text: decimal_of(n as u128), captures: closure_captures(p, pc) };
            m.assign(w.a, e, out);
        },
        None => {
            m.assign(w.a, Expr::Raw(owned("--[[closure?]]")), out);
            if op == Opcode::NewClosure {
                m.note("NEWCLOSURE child index out of range");
            } else {
                m.note("DUPCLOSURE without a closure constant");
            }
        },
    }
    assert(block(out@) =~= o + (before + block(out@).skip((o + before).len() as int)));
}

// ---- calls --------------------------------------------------------------------------------------------------

/// The last register of the arguments of a call.
pub open spec fn last_arg(w: Word, top: Option<u8>) -> Option<u8> {
    if w.b == 0 {
        top
    } else {
        Some(wrap8(w.a + w.b - 1))
    }
}

/// The arguments of a call from the register `first` on.
pub open spec fn args_from(m: MachineV, first: u8, last: Option<u8>) -> Seq<ExprV> {
    match last {
        Some(l) => if l >= first {
            reg_list(m, first as int, (l - first + 1) as nat)
        } else {
            Seq::empty()
        },
        None => seq![ExprV::Raw("--[[...]]"@)],
    }
}

/// `m` after collecting arguments.
pub open spec fn args_noted(m: MachineV, last: Option<u8>) -> MachineV {
    match last {
        Some(_) => m,
        None => noted(m, "multret call args approximated"@),
    }
}

/// Whether the call of the register `a` is the method call that was set up.
pub open spec fn is_method_call(pend: PendingV, a: u8) -> bool {
    pend is Some && pend->Some_0.0 == a
}

/// The call that `w` makes.
pub open spec fn call_expr(m: MachineV, w: Word, top: Option<u8>, pend: PendingV) -> ExprV {
    let last = last_arg(w, top);
    if is_method_call(pend, w.a) {
        ExprV::MethodCall(Box::new(pend->Some_0.1), pend->Some_0.2, args_from(m, wrap8(w.a + 2), last))
    } else {
        ExprV::Call(Box::new(reg(m, w.a)), args_from(m, wrap8(w.a + 1), last))
    }
}

/// `m`, remembering nothing of `n` registers from `a` on.
pub open spec fn range_forgotten(m: MachineV, a: u8, n: nat) -> MachineV
    decreases n,
{
    if n == 0 {
        m
    } else {
        remembered(range_forgotten(m, a, (n - 1) as nat), wrap8(a + n - 1), None)
    }
}

/// The names of `n` registers from `a` on, as targets.
pub open spec fn range_targets(m: MachineV, a: u8, n: nat) -> Seq<ExprV> {
    Seq::new(n, |i: int| ExprV::Var(reg_name(m, wrap8(a + i))))
}

pub open spec fn call_effect(m: MachineV, pc: int, top: Option<u8>, pend: PendingV) -> StepV {
    let w = m.proto.code@[pc];
    let e = call_expr(m, w, top, pend);
    let n0 = args_noted(m, last_arg(w, top));
    let n = if w.b == 0 {
        top_cleared(n0, top)
    } else {
        n0
    };
    let left = if is_method_call(pend, w.a) {
        None
    } else {
        pend
    };
    if w.c == 0 {
        quiet(remembered(MachineV { multret: Some(w.a), ..n }, w.a, Some(e)), left)
    } else if w.c == 1 {
        says(n, StmtV::Call(e), left)
    } else if w.c == 2 {
        stores(n, w.a, e, left)
    } else {
        says(
            range_forgotten(n, w.a, (w.c - 1) as nat),
            StmtV::Assign { targets: range_targets(n, w.a, (w.c - 1) as nat), values: seq![e] },
            left,
        )
    }
}

fn collect_args(m: &mut Machine, first: u8, last: Option<u8>) -> (r: Vec<Expr>)
    ensures
        exprs(r@) == args_from(old(m)@, first, last),
        final(m)@ == args_noted(old(m)@, last),
{
    match last {
        Some(l) => {
            if l >= first {
                regs_from(m, first, (l - first) as u16 + 1)
            } else {
                let r: Vec<Expr> = Vec::new();
                assert(exprs(r@) =~= Seq::<ExprV>::empty());
                r
            }
        },
        None => {
            m.note("multret call args approximated");
            one_expr(Expr::Raw(owned("--[[...]]")))
        },
    }
}

/// Forgetting registers changes no names.
pub proof fn range_forgotten_names(m: MachineV, a: u8, n: nat, r: u8)
    ensures
        reg_name(range_forgotten(m, a, n), r) == reg_name(m, r),
    decreases n,
{
    if n > 0 {
        range_forgotten_names(m, a, (n - 1) as nat, r);
    }
}

fn forget_range(m: &mut Machine, a: u8, n: u8) -> (r: Vec<Expr>)
    ensures
        final(m)@ == range_forgotten(old(m)@, a, n as nat),
        exprs(r@) == range_targets(old(m)@, a, n as nat),
{
    let ghost mv = m@;
    let mut out: Vec<Expr> = Vec::new();
    let mut i: u8 = 0;
    while i < n
        invariant
            i <= n,
            m@ == range_forgotten(mv, a, i as nat),
            mv == old(m)@,
            out.len() == i,
            forall|j: int| 0 <= j < i ==> (#[trigger] out@[j])@ == ExprV::Var(reg_name(mv, wrap8(a + j))),
        decreases n - i,
    {
        let r: u8 = reg_after(a, i);
        m.clear_inline(r);
        proof {
            range_forgotten_names(mv, a, (i + 1) as nat, r);
        }
        out.push(Expr::Var(m.reg_name(r)));
        i += 1;
    }
    assert(exprs(out@) =~= range_targets(mv, a, n as nat));
    out
}

fn method_call(obj: Expr, method: String, args: Vec<Expr>) -> (r: Expr)
    ensures
        r@ == ExprV::MethodCall(Box::new(obj@), method@, exprs(args@)),
{
    Expr::MethodCall(Box::new(obj), method, args)
}

fn plain_call(f: Expr, args: Vec<Expr>) -> (r: Expr)
    ensures
        r@ == ExprV::Call(Box::new(f@), exprs(args@)),
{
    Expr::Call(Box::new(f), args)
}

fn make_call(m: &mut Machine, w: Word, top: Option<u8>, pend: &mut Option<(u8, Expr, String)>) -> (r: Expr)
    ensures
        r@ == call_expr(old(m)@, w, top, pending_of(*old(pend))),
        final(m)@ == args_noted(old(m)@, last_arg(w, top)),
        pending_of(*final(pend)) == (if is_method_call(pending_of(*old(pend)), w.a) {
            None
        } else {
            pending_of(*old(pend))
        }),
{
    let last: Option<u8> = if w.b == 0 {
        top
    } else {
        Some(reg_after(w.a, w.b - 1))
    };
    let taken = pend.take();
    match taken {
        Some((r, obj, method)) => {
            if r == w.a {
                let args = collect_args(m, reg_after(w.a, 2), last);
                return method_call(obj, method, args);
            }
            *pend = Some((r, obj, method));
        },
        None => {},
    }
    let callee = m.reg(w.a);
    let args = collect_args(m, reg_after(w.a, 1), last);
    plain_call(callee, args)
}

fn emit_call(
    m: &mut Machine,
    pc: usize,
    top: Option<u8>,
    out: &mut Vec<Stmt>,
    pend: &mut Option<(u8, Expr, String)>,
)
    requires
        pc < old(m)@.proto.code.len(),
    ensures
        final(m)@ == call_effect(old(m)@, pc as int, top, pending_of(*old(pend))).m,
        block(final(out)@) == block(old(out)@) + call_effect(old(m)@, pc as int, top, pending_of(*old(pend))).out,
        pending_of(*final(pend)) == call_effect(old(m)@, pc as int, top, pending_of(*old(pend))).pend,
{
    let w = m.proto().code[pc];
    let e = make_call(m, w, top, pend);
    if w.b == 0 {
        clear_top(m, top);
    }
    if w.c == 0 {
        m.set_multret(Some(w.a));
        m.set_inline(w.a, e);
        assert(block(out@) + Seq::<StmtV>::empty() =~= block(out@));
    } else if w.c == 1 {
        push_stmt(out, Stmt::Call(e));
    } else if w.c == 2 {
        m.assign(w.a, e, out);
    } else {
        let targets = forget_range(m, w.a, w.c - 1);
        push_stmt(out, Stmt::Assign { targets, values: one_expr(e) });
    }
}

/// What a `return` returns.
pub open spec fn returned(m: MachineV, w: Word, top: Option<u8>) -> Seq<ExprV> {
    if w.b == 0 {
        if top is Some && top->Some_0 >= w.a {
            reg_list(m, w.a as int, (top->Some_0 - w.a + 1) as nat)
        } else {
            seq![reg(m, w.a)]
        }
    } else {
        reg_list(m, w.a as int, (w.b - 1) as nat)
    }
}

pub open spec fn return_effect(m: MachineV, pc: int, top: Option<u8>, pend: PendingV) -> StepV {
    let w = m.proto.code@[pc];
    let n = if w.b == 0 && !(top is Some && top->Some_0 >= w.a) {
        noted(m, "multret return approximated"@)
    } else {
        m
    };
    says(
        if w.b == 0 {
            top_cleared(n, top)
        } else {
            n
        },
        StmtV::Return(returned(m, w, top)),
        pend,
    )
}

fn emit_return(m: &mut Machine, pc: usize, top: Option<u8>, out: &mut Vec<Stmt>)
    requires
        pc < old(m)@.proto.code.len(),
    ensures
        final(m)@ == return_effect(old(m)@, pc as int, top, None).m,
        block(final(out)@) == block(old(out)@) + return_effect(old(m)@, pc as int, top, None).out,
{
    let w = m.proto().code[pc];
    if w.b == 0 {
        let vals = match top {
            Some(t) => {
                if t >= w.a {
                    regs_from(m, w.a, (t - w.a) as u16 + 1)
                } else {
                    m.note("multret return approximated");
                    one_expr(m.reg(w.a))
                }
            },
            None => {
                m.note("multret return approximated");
                one_expr(m.reg(w.a))
            },
        };
        clear_top(m, top);
        push_stmt(out, Stmt::Return(vals));
    } else {
        let vals = regs_from(m, w.a, w.b as u16 - 1);
        push_stmt(out, Stmt::Return(vals));
    }
}

// ---- conditions ---------------------------------------------------------------------------------------------

/// The condition on which the instruction at `pc`, which does `op`, jumps.
pub open spec fn taken(m: MachineV, op: Opcode, pc: int) -> ExprV {
    let w = m.proto.code@[pc];
    let x = aux_at(m.proto, pc);
    if op == Opcode::JumpIf {
        reg(m, w.a)
    } else if op == Opcode::JumpIfNot {
        not_of(reg(m, w.a))
    } else if comparing(op) {
        binary(comparison_of(op), reg(m, w.a), reg(m, x.raw as u8))
    } else if matching(op) {
        let k = if op == Opcode::JumpXEqKNil {
            ExprV::Nil
        } else if op == Opcode::JumpXEqKB {
            ExprV::Bool(x.raw & 1 != 0)
        } else {
            const_expr(m.proto, x.kv as int)
        };
        binary(
            if x.not {
                "~="@
            } else {
                "=="@
            },
            reg(m, w.a),
            k,
        )
    } else {
        ExprV::Raw("--[[cond?]]"@)
    }
}

/// The condition on which that instruction falls through.
pub open spec fn not_taken(m: MachineV, op: Opcode, pc: int) -> ExprV {
    opposite(taken(m, op, pc))
}

/// The condition on which the instruction at `pc`, which does `op`, jumps.
pub fn taken_condition(m: &Machine, op: Opcode, pc: usize) -> (r: Expr)
    requires
        pc < m@.proto.code.len(),
    ensures
        r@ == taken(m@, op, pc as int),
{
    let p = m.proto();
    let w = p.code[pc];
    let x = p.aux(pc);
    if op == Opcode::JumpIf {
        m.reg(w.a)
    } else if op == Opcode::JumpIfNot {
        not_expr(m.reg(w.a))
    } else if is_comparing(op) {
        let other: u8 = x.raw as u8;
        binary_expr(comparison_text(op), m.reg(w.a), m.reg(other))
    } else if is_matching(op) {
        let k = if op == Opcode::JumpXEqKNil {
            Expr::Nil
        } else if op == Opcode::JumpXEqKB {
            Expr::Bool(x.raw & 1 != 0)
        } else {
            p.operand_const_expr(x.kv)
        };
        if x.not {
            binary_expr("~=", m.reg(w.a), k)
        } else {
            binary_expr("==", m.reg(w.a), k)
        }
    } else {
        Expr::Raw(owned("--[[cond?]]"))
    }
}

/// The condition on which the instruction at `pc`, which does `op`, falls through.
pub fn fallthrough_condition(m: &Machine, op: Opcode, pc: usize) -> (r: Expr)
    requires
        pc < m@.proto.code.len(),
    ensures
        r@ == not_taken(m@, op, pc as int),
{
    negate(taken_condition(m, op, pc))
}

// ---- jumps --------------------------------------------------------------------------------------------------

/// `if cond then goto label end`, for the label that the instruction at `pc` jumps to.
pub open spec fn cond_goto_effect(m: MachineV, cond: ExprV, pc: int, pend: PendingV) -> StepV {
    says(noted(m, goto_note()), spec_if(cond, seq![StmtV::Goto(label_text(m.proto, pc))]), pend)
}

fn cond_goto(m: &mut Machine, cond: Expr, pc: usize, out: &mut Vec<Stmt>)
    ensures
        final(m)@ == cond_goto_effect(old(m)@, cond@, pc as int, None).m,
        block(final(out)@) == block(old(out)@) + cond_goto_effect(old(m)@, cond@, pc as int, None).out,
{
    let label = target_label(m.proto(), pc);
    push_stmt(out, if_then(cond, one(Stmt::Goto(label))));
    note_goto(m);
}

fn note_goto(m: &mut Machine)
    ensures
        final(m)@ == noted(old(m)@, goto_note()),
{
    m.note("control flow rendered with goto/labels (structuring incomplete)");
}

/// The guard of a function that was compiled for one prototype.
pub open spec fn proto_guard(m: MachineV, pc: int) -> ExprV {
    let w = m.proto.code@[pc];
    ExprV::Raw(
        "not __luau_proto_matches("@ + expr_text(reg(m, w.a), tabs(0), m.nums) + ", "@ + decimal(
            aux_at(m.proto, pc).raw as nat,
        ) + ")"@,
    )
}

fn make_proto_guard(m: &Machine, pc: usize) -> (r: Expr)
    requires
        pc < m@.proto.code.len(),
    ensures
        r@ == proto_guard(m@, pc as int),
{
    let p = m.proto();
    let w = p.code[pc];
    let mut s = owned("not __luau_proto_matches(");
    s.append(&render_expr(&m.reg(w.a), m.nums()));
    s.append(", ");
    s.append(&decimal_of(p.aux(pc).raw as u128));
    s.append(")");
    Expr::Raw(s)
}

/// The comment on a numeric `for` that was not recovered.
pub open spec fn for_comment(m: MachineV, pc: int) -> Text {
    let a = m.proto.code@[pc].a;
    "numeric for: "@ + reg_name(m, wrap8(a + 2)) + " = "@ + expr_text(reg(m, wrap8(a + 2)), tabs(0), m.nums) + ", "@
        + expr_text(reg(m, a), tabs(0), m.nums) + ", "@ + expr_text(reg(m, wrap8(a + 1)), tabs(0), m.nums) + " (FORNPREP)"@
}

fn make_for_comment(m: &Machine, pc: usize) -> (r: String)
    requires
        pc < m@.proto.code.len(),
    ensures
        r@ == for_comment(m@, pc as int),
{
    let a: u8 = m.proto().code[pc].a;
    let v: u8 = reg_after(a, 2);
    let mut s = owned("numeric for: ");
    s.append(&m.reg_name(v));
    s.append(" = ");
    s.append(&render_expr(&m.reg(v), m.nums()));
    s.append(", ");
    s.append(&render_expr(&m.reg(a), m.nums()));
    s.append(", ");
    s.append(&render_expr(&m.reg(reg_after(a, 1)), m.nums()));
    s.append(" (FORNPREP)");
    s
}

/// Operations that move control.
pub open spec fn is_flow(op: Opcode) -> bool {
    op == Opcode::Jump || op == Opcode::JumpBack || op == Opcode::JumpX || conditional(op) || op == Opcode::CmpProto || op
        == Opcode::ForNPrep || op == Opcode::ForNLoop || op == Opcode::ForGLoop || for_in_prep(op)
}

pub open spec fn flow_effect(m: MachineV, op: Opcode, pc: int, pend: PendingV) -> StepV {
    let go = StmtV::Goto(label_text(m.proto, pc));
    if op == Opcode::Jump || op == Opcode::JumpBack || op == Opcode::JumpX {
        StepV { m: noted(forgotten(m), goto_note()), out: flushed(m) + seq![go], pend }
    } else if conditional(op) {
        cond_goto_effect(m, taken(m, op, pc), pc, pend)
    } else if op == Opcode::CmpProto {
        cond_goto_effect(noted(m, "CMPPROTO feedback guard approximated"@), proto_guard(m, pc), pc, pend)
    } else if op == Opcode::ForNPrep {
        says(noted(m, goto_note()), StmtV::Comment(for_comment(m, pc)), pend)
    } else if for_in_prep(op) {
        StepV {
            m: noted(m, goto_note()),
            out: seq![StmtV::Comment("generic for setup (FORGPREP)"@), go],
            pend,
        }
    } else {
        StepV { m: noted(m, goto_note()), out: seq![go, StmtV::Comment("(loop back-edge)"@)], pend }
    }
}

fn flow(m: &mut Machine, op: Opcode, pc: usize, out: &mut Vec<Stmt>)
    requires
        is_flow(op),
        pc < old(m)@.proto.code.len(),
    ensures
        final(m)@ == flow_effect(old(m)@, op, pc as int, None).m,
        block(final(out)@) == block(old(out)@) + flow_effect(old(m)@, op, pc as int, None).out,
{
    let ghost o = block(out@);
    let ghost mv = m@;
    let p = m.proto();
    if op == Opcode::Jump || op == Opcode::JumpBack || op == Opcode::JumpX {
        m.flush_inline(out);
        push_stmt(out, Stmt::Goto(target_label(p, pc)));
        note_goto(m);
        assert(block(out@) =~= o + (flushed(mv) + seq![StmtV::Goto(label_text(mv.proto, pc as int))]));
    } else if crate::bytecode::is_conditional_jump(op) {
        let cond = taken_condition(m, op, pc);
        cond_goto(m, cond, pc, out);
    } else if op == Opcode::CmpProto {
        let cond = make_proto_guard(m, pc);
        m.note("CMPPROTO feedback guard approximated");
        cond_goto(m, cond, pc, out);
    } else if op == Opcode::ForNPrep {
        push_stmt(out, Stmt::Comment(make_for_comment(m, pc)));
        note_goto(m);
    } else if is_for_in_prep(op) {
        push_stmt(out, Stmt::Comment(owned("generic for setup (FORGPREP)")));
        push_stmt(out, Stmt::Goto(target_label(p, pc)));
        note_goto(m);
        assert(block(out@) =~= o + flow_effect(mv, op, pc as int, None).out);
    } else {
        push_stmt(out, Stmt::Goto(target_label(p, pc)));
        push_stmt(out, Stmt::Comment(owned("(loop back-edge)")));
        note_goto(m);
        assert(block(out@) =~= o + flow_effect(mv, op, pc as int, None).out);
    }
}

// ---- all of them ----------------------------------------------------------------------------------------------

/// What the instruction at `pc` does; `top` is the open list that the instruction before it left.
pub open spec fn effect(m: MachineV, op: Opcode, pc: int, top: Option<u8>, pend: PendingV) -> StepV {
    let w = m.proto.code@[pc];
    let x = aux_at(m.proto, pc);
    if is_load(op) {
        load_effect(m, op, pc, pend)
    } else if is_value(op) {
        stores(m, w.a, value_expr(m, op, pc), pend)
    } else if is_set(op) {
        set_effect(m, op, pc, pend)
    } else if is_flow(op) {
        flow_effect(m, op, pc, pend)
    } else if op == Opcode::SetList {
        list_effect(m, pc, top, pend)
    } else if op == Opcode::GetVarargs {
        varargs_effect(m, pc, pend)
    } else if op == Opcode::NewClosure || op == Opcode::DupClosure {
        closure_effect(m, op, pc, pend)
    } else if op == Opcode::NameCall {
        quiet(m, Some((w.a, reg(m, w.b), string_at(m.proto, x.raw as nat))))
    } else if op == Opcode::NameCallUdata {
        quiet(m, Some((w.a, reg(m, w.b), string_at(m.proto, x.kv16 as nat))))
    } else if op == Opcode::Call || op == Opcode::CallFb {
        call_effect(m, pc, top, pend)
    } else if op == Opcode::Return {
        return_effect(m, pc, top, pend)
    } else {
        quiet(m, pend)
    }
}

/// Whether an open list of values from `base` on is still there after `op` wrote the register `a`.
pub open spec fn carries(op: Opcode, a: u8, base: u8) -> bool {
    ||| (op == Opcode::GetImport || op == Opcode::GetGlobal || op == Opcode::GetUpval || op == Opcode::Move || op
        == Opcode::GetTable || op == Opcode::GetTableKs || op == Opcode::GetUdataKs || op == Opcode::GetTableN || op
        == Opcode::NameCall || op == Opcode::NameCallUdata) && a < base
    ||| op == Opcode::FastCall
    ||| op == Opcode::FastCall1
    ||| op == Opcode::FastCall2
    ||| op == Opcode::FastCall2K
    ||| op == Opcode::FastCall3
    ||| op == Opcode::PrepVarargs
    ||| op == Opcode::Nop
    ||| op == Opcode::Coverage
}

/// One instruction: what it does, and what is left of an open list of values.
pub open spec fn stepped(m: MachineV, op: Opcode, pc: int, pend: PendingV) -> StepV {
    let top = m.multret;
    let s = effect(MachineV { multret: None, ..m }, op, pc, top, pend);
    if s.m.multret is None && top is Some && carries(op, m.proto.code@[pc].a, top->Some_0) {
        StepV { m: MachineV { multret: top, ..s.m }, ..s }
    } else {
        s
    }
}

fn does_carry(op: Opcode, a: u8, base: u8) -> (r: bool)
    ensures
        r == carries(op, a, base),
{
    ((op == Opcode::GetImport || op == Opcode::GetGlobal || op == Opcode::GetUpval || op == Opcode::Move || op
        == Opcode::GetTable || op == Opcode::GetTableKs || op == Opcode::GetUdataKs || op == Opcode::GetTableN || op
        == Opcode::NameCall || op == Opcode::NameCallUdata) && a < base) || op == Opcode::FastCall || op
        == Opcode::FastCall1 || op == Opcode::FastCall2 || op == Opcode::FastCall2K || op == Opcode::FastCall3 || op
        == Opcode::PrepVarargs || op == Opcode::Nop || op == Opcode::Coverage
}

fn load_op(op: Opcode) -> (r: bool)
    ensures
        r == is_load(op),
{
    op == Opcode::LoadNil || op == Opcode::LoadB || op == Opcode::LoadN || op == Opcode::LoadK || op == Opcode::LoadKx || op
        == Opcode::GetImport || op == Opcode::GetGlobal
}

fn value_op(op: Opcode) -> (r: bool)
    ensures
        r == is_value(op),
{
    op == Opcode::Move || op == Opcode::GetUpval || op == Opcode::GetTable || op == Opcode::GetTableKs || op
        == Opcode::GetUdataKs || op == Opcode::GetTableN || is_arithmetic(op) || op == Opcode::Concat || is_arithmetic_k(
        op,
    ) || op == Opcode::SubRk || op == Opcode::DivRk || op == Opcode::Not || op == Opcode::Minus || op == Opcode::Length || op
        == Opcode::NewTable || op == Opcode::DupTable
}

fn set_op(op: Opcode) -> (r: bool)
    ensures
        r == is_set(op),
{
    op == Opcode::SetTable || op == Opcode::SetTableKs || op == Opcode::SetUdataKs || op == Opcode::NewClassMember || op
        == Opcode::SetTableN || op == Opcode::SetGlobal || op == Opcode::SetUpval
}

fn flow_op(op: Opcode) -> (r: bool)
    ensures
        r == is_flow(op),
{
    op == Opcode::Jump || op == Opcode::JumpBack || op == Opcode::JumpX || crate::bytecode::is_conditional_jump(op) || op
        == Opcode::CmpProto || op == Opcode::ForNPrep || op == Opcode::ForNLoop || op == Opcode::ForGLoop || is_for_in_prep(op)
}

fn act(
    m: &mut Machine,
    op: Opcode,
    pc: usize,
    top: Option<u8>,
    out: &mut Vec<Stmt>,
    pend: &mut Option<(u8, Expr, String)>,
)
    requires
        pc < old(m)@.proto.code.len(),
        old(m)@.proto.code.len() + 255 <= usize::MAX,
    ensures
        final(m)@ == effect(old(m)@, op, pc as int, top, pending_of(*old(pend))).m,
        block(final(out)@) == block(old(out)@) + effect(old(m)@, op, pc as int, top, pending_of(*old(pend))).out,
        pending_of(*final(pend)) == effect(old(m)@, op, pc as int, top, pending_of(*old(pend))).pend,
{
    let p = m.proto();
    let w = p.code[pc];
    let x = p.aux(pc);
    let ghost o = block(out@);
    assert(o + Seq::<StmtV>::empty() =~= o);
    if load_op(op) {
        load(m, op, pc);
    } else if value_op(op) {
        let e = value_of(m, op, pc);
        m.assign(w.a, e, out);
    } else if set_op(op) {
        set(m, op, pc, out);
    } else if flow_op(op) {
        flow(m, op, pc, out);
    } else if op == Opcode::SetList {
        set_list(m, pc, top, out);
    } else if op == Opcode::GetVarargs {
        get_varargs(m, pc, out);
    } else if op == Opcode::NewClosure || op == Opcode::DupClosure {
        make_closure(m, op, pc, out);
    } else if op == Opcode::NameCall {
        *pend = Some((w.a, m.reg(w.b), p.string_const(x.raw)));
    } else if op == Opcode::NameCallUdata {
        *pend = Some((w.a, m.reg(w.b), p.string_const(x.kv16)));
    } else if op == Opcode::Call || op == Opcode::CallFb {
        emit_call(m, pc, top, out, pend);
    } else if op == Opcode::Return {
        emit_return(m, pc, top, out);
    }
}

/// Reads the instruction at `pc`, which does `op`.
pub fn step(m: &mut Machine, op: Opcode, pc: usize, out: &mut Vec<Stmt>, pend: &mut Option<(u8, Expr, String)>)
    requires
        pc < old(m)@.proto.code.len(),
        old(m)@.proto.code.len() + 255 <= usize::MAX,
    ensures
        final(m)@ == stepped(old(m)@, op, pc as int, pending_of(*old(pend))).m,
        block(final(out)@) == block(old(out)@) + stepped(old(m)@, op, pc as int, pending_of(*old(pend))).out,
        pending_of(*final(pend)) == stepped(old(m)@, op, pc as int, pending_of(*old(pend))).pend,
{
    let w = m.proto().code[pc];
    let top = m.take_multret();
    act(m, op, pc, top, out, pend);
    if m.multret().is_none() {
        if let Some(base) = top {
            if does_carry(op, w.a, base) {
                m.set_multret(Some(base));
            }
        }
    }
}

/// Reading an instruction never changes the function that is read, how numbers are printed, or
/// which registers are captured.
pub proof fn stepped_keeps(m: MachineV, op: Opcode, pc: int, pend: PendingV)
    ensures
        stepped(m, op, pc, pend).m.proto == m.proto,
        stepped(m, op, pc, pend).m.nums == m.nums,
        stepped(m, op, pc, pend).m.captured == m.captured,
        stepped(m, op, pc, pend).m.loops == m.loops,
        stepped(m, op, pc, pend).m.names == m.names,
        stepped(m, op, pc, pend).m.regs.len() == m.regs.len(),
{
    let w = m.proto.code@[pc];
    if op == Opcode::Call || op == Opcode::CallFb {
        range_keeps(
            {
                let n0 = args_noted(MachineV { multret: None, ..m }, last_arg(w, m.multret));
                if w.b == 0 {
                    top_cleared(n0, m.multret)
                } else {
                    n0
                }
            },
            w.a,
            (w.c - 1) as nat,
        );
    }
}

/// Whether the value of `e` can be read later as well as now: a constant, or a name that stands
/// for one thing.
pub open spec fn immutable(e: ExprV) -> bool {
    e is Nil || e is Bool || e is Num || e is Str || e is Vector || e is Var || e is Raw
}

/// Reading an instruction remembers of a register what it remembered before, or nothing, or a value
/// that can be read later as well as now; the one exception is the open list of values that the
/// next instruction takes.
pub proof fn stepped_remembers(m: MachineV, op: Opcode, pc: int, pend: PendingV, r: int)
    requires
        0 <= r < m.regs.len(),
    ensures
        ({
            let n = stepped(m, op, pc, pend).m;
            ||| n.regs[r] == m.regs[r]
            ||| n.regs[r] is None
            ||| immutable(n.regs[r]->Some_0)
            ||| n.multret == Some(r as u8)
        }),
{
    let w = m.proto.code@[pc];
    if op == Opcode::Call || op == Opcode::CallFb {
        let n0 = args_noted(MachineV { multret: None, ..m }, last_arg(w, m.multret));
        let n = if w.b == 0 {
            top_cleared(n0, m.multret)
        } else {
            n0
        };
        range_keeps(n, w.a, (w.c - 1) as nat);
        range_forgets(n, w.a, (w.c - 1) as nat, r);
    }
}

proof fn range_forgets(m: MachineV, a: u8, n: nat, r: int)
    requires
        0 <= r < m.regs.len(),
    ensures
        range_forgotten(m, a, n).regs.len() == m.regs.len(),
        range_forgotten(m, a, n).regs[r] == m.regs[r] || range_forgotten(m, a, n).regs[r] is None,
    decreases n,
{
    if n > 0 {
        range_forgets(m, a, (n - 1) as nat, r);
    }
}

proof fn range_keeps(m: MachineV, a: u8, n: nat)
    ensures
        range_forgotten(m, a, n).proto == m.proto,
        range_forgotten(m, a, n).nums == m.nums,
        range_forgotten(m, a, n).captured == m.captured,
        range_forgotten(m, a, n).loops == m.loops,
        range_forgotten(m, a, n).names == m.names,
        range_forgotten(m, a, n).regs.len() == m.regs.len(),
    decreases n,
{
    if n > 0 {
        range_keeps(m, a, (n - 1) as nat);
    }
}

} // verus!
