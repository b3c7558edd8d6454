//! Loops and branches.
//!
//! A range of instructions is read from top to bottom. Where jumps have the shape that a loop or a
//! branch compiles to, the loop or branch is written; everything else becomes labels and jumps.
use vstd::prelude::*;

use crate::ast::{
    as_var, block, clone_block, exprs, if_then, one, one_expr, spec_if, Block, Expr, ExprV, LoopHead, Stmt, StmtV,
};
use crate::bytecode::{
    aux_at, breaks_chain, conditional, for_in_prep, is_conditional_jump, is_for_in_prep, len_at, number_name, numbered,
    op_at, op_breaks_chain, target_at, Opcode, Proto,
};
use crate::conditions::{binary, binary_expr, negate, not_expr, not_of, opposite};
use crate::machine::{
    flushed, forgotten, loop_at, loop_var, loop_var_named, reg, reg_name, remembered, with_loop, with_name, Machine,
    MachineV,
};
use crate::query::opt_index;
use crate::step::{
    fallthrough_condition, not_taken, pending_of, range_forgotten, reg_after, step, stepped, stepped_keeps, taken,
    taken_condition, wrap8, PendingV, StepV,
};
use crate::sweeps::{assign, push_stmt};
use crate::text::{str_eq, texts, Text};

verus! {

/// Where the innermost loop continues, and where it ends.
pub type LoopCtx = Option<(int, int)>;

/// The model of the positions of a loop.
pub open spec fn ctx_of(c: Option<(usize, usize)>) -> LoopCtx {
    match c {
        Some((a, b)) => Some((a as int, b as int)),
        None => None,
    }
}

/// The number of words in a range.
pub open spec fn size(lo: int, hi: int) -> nat {
    if lo < hi {
        (hi - lo) as nat
    } else {
        0
    }
}

/// An attempt to read a loop or a branch: where to go on, where it succeeded, the new state and
/// all statements.
#[verifier::ext_equal]
pub struct TryV {
    pub next: Option<int>,
    pub m: MachineV,
    pub out: Block,
}

/// An attempt that failed.
pub open spec fn failed(m: MachineV, out: Block) -> TryV {
    TryV { next: None, m, out }
}

/// A block and the state after it.
#[verifier::ext_equal]
pub struct BodyV {
    pub m: MachineV,
    pub body: Block,
}

// ---- looking ahead --------------------------------------------------------------------------------------------

/// The instruction in a walk from `q` on that ends right before `end`.
pub open spec fn last_before(p: Proto, q: int, end: int) -> Option<int>
    decreases size(q, end),
{
    if q >= end || op_at(p, q) is None {
        None
    } else if q + len_at(p, q) == end {
        Some(q)
    } else {
        last_before(p, q + len_at(p, q), end)
    }
}

fn last_instr_before(p: &Proto, from: usize, end: usize) -> (r: Option<usize>)
    requires
        end <= p.code.len(),
        p.code.len() + 255 <= usize::MAX,
    ensures
        opt_index(r) == last_before(*p, from as int, end as int),
        r matches Some(q) ==> from <= q < end,
{
    let mut q: usize = from;
    while q < end
        invariant
            from <= q,
            end <= p.code.len(),
            p.code.len() + 255 <= usize::MAX,
            last_before(*p, from as int, end as int) == last_before(*p, q as int, end as int),
        decreases size(q as int, end as int),
    {
        if p.op(q).is_none() {
            return None;
        }
        let next: usize = p.after(q);
        if next == end {
            return Some(q);
        }
        q = next;
    }
    None
}

/// Whether control cannot get from the block `lo..hi` to `hi`.
pub open spec fn leaves(p: Proto, lo: int, hi: int, ctx: LoopCtx) -> bool {
    match last_before(p, lo, hi) {
        None => false,
        Some(q) => match op_at(p, q) {
            Some(Opcode::Return) => true,
            Some(Opcode::Jump) | Some(Opcode::JumpBack) => match target_at(p, q) {
                Some(t) => (ctx is Some && (t == ctx->Some_0.0 || t == ctx->Some_0.1)) || t < lo || t >= hi,
                None => false,
            },
            _ => false,
        },
    }
}

fn block_is_terminated(p: &Proto, lo: usize, hi: usize, ctx: Option<(usize, usize)>) -> (r: bool)
    requires
        hi <= p.code.len(),
        p.code.len() + 255 <= usize::MAX,
    ensures
        r == leaves(*p, lo as int, hi as int, ctx_of(ctx)),
{
    match last_instr_before(p, lo, hi) {
        None => false,
        Some(q) => match p.op(q) {
            Some(Opcode::Return) => true,
            Some(Opcode::Jump) | Some(Opcode::JumpBack) => match p.target(q) {
                Some(t) => {
                    if let Some((cont, brk)) = ctx {
                        if t == cont || t == brk {
                            return true;
                        }
                    }
                    t < lo || t >= hi
                },
                None => false,
            },
            _ => false,
        },
    }
}

/// The first conditional jump from `q` on, before `hi`, that leads to `exit`.
pub open spec fn loop_test(p: Proto, q: int, hi: int, exit: int) -> Option<int>
    decreases size(q, hi),
{
    if q >= hi {
        None
    } else {
        match op_at(p, q) {
            None => None,
            Some(op) => if conditional(op) && target_at(p, q) == Some(exit) {
                Some(q)
            } else {
                loop_test(p, q + len_at(p, q), hi, exit)
            },
        }
    }
}

fn find_loop_test(p: &Proto, lo: usize, hi: usize, exit: usize) -> (r: Option<usize>)
    requires
        hi <= p.code.len(),
        p.code.len() + 255 <= usize::MAX,
    ensures
        opt_index(r) == loop_test(*p, lo as int, hi as int, exit as int),
        r matches Some(q) ==> lo <= q < hi && op_at(*p, q as int) is Some,
{
    let mut q: usize = lo;
    while q < hi
        invariant
            lo <= q,
            hi <= p.code.len(),
            p.code.len() + 255 <= usize::MAX,
            loop_test(*p, lo as int, hi as int, exit as int) == loop_test(*p, q as int, hi as int, exit as int),
        decreases size(q as int, hi as int),
    {
        match p.op(q) {
            None => {
                return None;
            },
            Some(op) => {
                if is_conditional_jump(op) {
                    if let Some(t) = p.target(q) {
                        if t == exit {
                            return Some(q);
                        }
                    }
                }
                q = p.after(q);
            },
        }
    }
    None
}

/// The conditional jumps from `q` on with nothing but straight code between them; `None` where a
/// word is no instruction.
pub open spec fn chain(p: Proto, q: int, hi: int) -> Option<Seq<int>>
    decreases size(q, hi),
{
    if q >= hi {
        Some(Seq::empty())
    } else {
        match op_at(p, q) {
            None => None,
            Some(op) => if conditional(op) {
                match chain(p, q + len_at(p, q), hi) {
                    Some(rest) => Some(seq![q] + rest),
                    None => None,
                }
            } else if breaks_chain(op) {
                Some(Seq::empty())
            } else {
                chain(p, q + len_at(p, q), hi)
            },
        }
    }
}

/// The models of positions.
pub open spec fn ints(s: Seq<usize>) -> Seq<int> {
    Seq::new(s.len(), |i: int| s[i] as int)
}

/// `front` before the positions that `rest` holds.
pub open spec fn chained(front: Seq<int>, rest: Option<Seq<int>>) -> Option<Seq<int>> {
    match rest {
        Some(r) => Some(front + r),
        None => None,
    }
}

fn chain_jumps(p: &Proto, pc: usize, hi: usize) -> (r: Option<Vec<usize>>)
    requires
        hi <= p.code.len(),
        p.code.len() + 255 <= usize::MAX,
    ensures
        match r {
            Some(v) => chain(*p, pc as int, hi as int) == Some(ints(v@)) && (forall|i: int|
                0 <= i < v.len() ==> pc <= #[trigger] v@[i] < hi && op_at(*p, v@[i] as int) is Some),
            None => chain(*p, pc as int, hi as int) is None,
        },
{
    let mut jumps: Vec<usize> = Vec::new();
    let mut q: usize = pc;
    let ghost whole = chain(*p, pc as int, hi as int);
    assert(whole == chained(ints(jumps@), whole)) by {
        if whole is Some {
            assert(ints(jumps@) + whole->Some_0 =~= whole->Some_0);
        }
    }
    while q < hi
        invariant
            pc <= q,
            hi <= p.code.len(),
            p.code.len() + 255 <= usize::MAX,
            whole == chain(*p, pc as int, hi as int),
            whole == chained(ints(jumps@), chain(*p, q as int, hi as int)),
            forall|i: int| 0 <= i < jumps.len() ==> pc <= #[trigger] jumps@[i] < hi && op_at(*p, jumps@[i] as int) is Some,
        decreases size(q as int, hi as int),
    {
        let ghost o = ints(jumps@);
        match p.op(q) {
            None => {
                return None;
            },
            Some(op) => {
                let next: usize = p.after(q);
                if is_conditional_jump(op) {
                    let ghost rest = chain(*p, next as int, hi as int);
                    jumps.push(q);
                    assert(ints(jumps@) =~= o.push(q as int));
                    proof {
                        if rest is Some {
                            assert(o + (seq![q as int] + rest->Some_0) =~= ints(jumps@) + rest->Some_0);
                        }
                    }
                } else if op_breaks_chain(op) {
                    assert(ints(jumps@) + Seq::<int>::empty() =~= ints(jumps@));
                    return Some(jumps);
                }
                q = next;
            },
        }
    }
    assert(ints(jumps@) + Seq::<int>::empty() =~= ints(jumps@));
    Some(jumps)
}

/// Whether the first `n` of the jumps lead to `t`.
pub open spec fn all_lead_to(p: Proto, jumps: Seq<int>, n: int, t: int) -> bool {
    forall|i: int| 0 <= i < n && i < jumps.len() ==> target_at(p, #[trigger] jumps[i]) == Some(t)
}

fn jumps_lead_to(p: &Proto, jumps: &Vec<usize>, n: usize, t: usize) -> (r: bool)
    requires
        n <= jumps.len(),
    ensures
        r == all_lead_to(*p, ints(jumps@), n as int, t as int),
{
    let ghost v = ints(jumps@);
    let mut i: usize = 0;
    while i < n
        invariant
            i <= n <= jumps.len(),
            v == ints(jumps@),
            forall|j: int| 0 <= j < i ==> target_at(*p, #[trigger] v[j]) == Some(t as int),
        decreases n - i,
    {
        assert(v[i as int] == jumps@[i as int] as int);
        match p.target(jumps[i]) {
            Some(x) => {
                if x != t {
                    return false;
                }
            },
            None => {
                return false;
            },
        }
        i += 1;
    }
    true
}

/// Whether something stands between two of the jumps.
pub open spec fn apart(p: Proto, jumps: Seq<int>) -> bool {
    exists|i: int| 0 <= i < jumps.len() - 1 && #[trigger] jumps[i] + len_at(p, jumps[i]) != jumps[i + 1]
}

fn has_intervening(p: &Proto, jumps: &Vec<usize>) -> (r: bool)
    requires
        p.code.len() + 255 <= usize::MAX,
        forall|i: int| 0 <= i < jumps.len() ==> #[trigger] jumps@[i] < p.code.len(),
    ensures
        r == apart(*p, ints(jumps@)),
{
    let ghost v = ints(jumps@);
    let n: usize = jumps.len();
    let mut i: usize = 0;
    while i < n && i + 1 < n
        invariant
            i <= n,
            n == jumps.len(),
            v == ints(jumps@),
            p.code.len() + 255 <= usize::MAX,
            forall|i: int| 0 <= i < jumps.len() ==> #[trigger] jumps@[i] < p.code.len(),
            forall|j: int| 0 <= j < i ==> #[trigger] v[j] + len_at(*p, v[j]) == v[j + 1],
        decreases n - i,
    {
        assert(jumps@[i as int] < p.code.len());
        if p.after(jumps[i]) != jumps[i + 1] {
            assert(v[i as int] + len_at(*p, v[i as int]) != v[i + 1]);
            return true;
        }
        i += 1;
    }
    false
}

// ---- what is read -------------------------------------------------------------------------------------------

/// The statements so far and what is remembered, written down.
pub open spec fn settled(m: MachineV, out: Block) -> Block {
    out + flushed(m)
}

/// The label at `pc`, where there is one.
pub open spec fn label_at(p: Proto, pc: int) -> Option<Text> {
    if 0 <= pc < p.labels.len() && p.labels@[pc] is Some {
        Some(numbered("L"@, p.labels@[pc]->Some_0 as nat))
    } else {
        None
    }
}

/// What straight code from `q` to `end` does; not `done` where a word is no instruction.
#[verifier::ext_equal]
pub struct SetupV {
    pub done: bool,
    pub m: MachineV,
    pub out: Block,
}

/// Straight code from `q` to `end`.
pub open spec fn setup(m: MachineV, q: int, end: int, out: Block, pend: PendingV) -> SetupV
    decreases size(q, end),
{
    if q >= end {
        SetupV { done: true, m, out }
    } else {
        match op_at(m.proto, q) {
            None => SetupV { done: false, m, out },
            Some(op) => {
                let s = stepped(m, op, q, pend);
                setup(s.m, q + len_at(m.proto, q), end, out + s.out, s.pend)
            },
        }
    }
}

/// `break` or `continue`, where a jump to `t` is one.
pub open spec fn keyword_for(t: Option<int>, ctx: LoopCtx) -> Option<StmtV> {
    match (t, ctx) {
        (Some(t), Some((cont, brk))) => if t == brk {
            Some(StmtV::Break)
        } else if t == cont {
            Some(StmtV::Continue)
        } else {
            None
        },
        _ => None,
    }
}

/// A jump out of a loop.
pub open spec fn loop_exit(m: MachineV, op: Opcode, pc: int, out: Block, ctx: LoopCtx) -> TryV {
    match keyword_for(target_at(m.proto, pc), ctx) {
        Some(kw) => if op == Opcode::Jump || op == Opcode::JumpBack {
            TryV { next: Some(pc + len_at(m.proto, pc)), m: forgotten(m), out: settled(m, out).push(kw) }
        } else if conditional(op) {
            TryV {
                next: Some(pc + len_at(m.proto, pc)),
                m: forgotten(m),
                out: settled(m, out).push(spec_if(taken(m, op, pc), seq![kw])),
            }
        } else {
            failed(m, out)
        },
        None => failed(m, out),
    }
}

/// Whether a test at `pc` is followed by the two loads that store its outcome.
pub open spec fn stores_outcome(p: Proto, pc: int, hi: int) -> bool {
    let next = pc + len_at(p, pc);
    &&& target_at(p, pc) == Some(next + 1)
    &&& next + 1 < hi <= p.code.len()
    &&& op_at(p, next) == Some(Opcode::LoadB)
    &&& p.code@[next].c == 1
    &&& op_at(p, next + 1) == Some(Opcode::LoadB)
    &&& p.code@[next + 1].a == p.code@[next].a
    &&& p.code@[next + 1].c == 0
    &&& (p.code@[next + 1].b != 0) != (p.code@[next].b != 0)
}

/// A test whose outcome is stored.
pub open spec fn stored_outcome(m: MachineV, op: Opcode, pc: int, hi: int, out: Block) -> TryV {
    let p = m.proto;
    if stores_outcome(p, pc, hi) {
        let next = pc + len_at(p, pc);
        let r = p.code@[next].a;
        let e = if p.code@[next + 1].b != 0 {
            taken(m, op, pc)
        } else {
            opposite(taken(m, op, pc))
        };
        TryV { next: Some(next + 2), m: remembered(m, r, None), out: out.push(assign(reg_name(m, r), e)) }
    } else {
        failed(m, out)
    }
}

/// The last statement, where it assigns three registers from `a` on with one call.
pub open spec fn iterator_call(m: MachineV, a: u8, out: Block) -> Option<ExprV> {
    if out.len() > 0 {
        match out.last() {
            StmtV::Assign { targets, values } => if values.len() == 1 && targets.len() == 3 && targets[0] == ExprV::Var(
                reg_name(m, a),
            ) && targets[1] == ExprV::Var(reg_name(m, wrap8(a + 1))) && targets[2] == ExprV::Var(reg_name(m, wrap8(a + 2))) {
                Some(values[0])
            } else {
                None
            },
            _ => None,
        }
    } else {
        None
    }
}

/// `m` after naming `n` variables of a generic `for` from the register `a` on, and their names.
pub open spec fn vars_named(m: MachineV, a: u8, pc: int, n: nat) -> (MachineV, Seq<Text>)
    decreases n,
{
    if n == 0 {
        (m, Seq::empty())
    } else {
        let (k, names) = vars_named(m, a, pc, (n - 1) as nat);
        let r = wrap8(a + n - 1);
        let v = loop_var(k, r, pc);
        (with_name(loop_var_named(k, r, pc), r, Some(v)), names.push(v))
    }
}

/// `m` without the names of `n` registers from `a` on.
pub open spec fn names_dropped(m: MachineV, a: u8, n: nat) -> MachineV
    decreases n,
{
    if n == 0 {
        m
    } else {
        with_name(names_dropped(m, a, (n - 1) as nat), wrap8(a + n - 1), None)
    }
}

/// The range `lo..hi`, read from top to bottom after the statements `out`.
pub open spec fn emitted(m: MachineV, lo: int, hi: int, out: Block, pend: PendingV, ctx: LoopCtx) -> StepV
    decreases size(lo, hi), 5nat, 0nat,
{
    if lo < 0 || lo >= hi {
        StepV { m, out, pend }
    } else {
        match op_at(m.proto, lo) {
            None => emitted(m, lo + 1, hi, out, pend, ctx),
            Some(op) => {
                let t = structured(m, op, lo, hi, out, ctx);
                match t.next {
                    Some(n) => if n > lo {
                        emitted(t.m, n, hi, t.out, pend, ctx)
                    } else {
                        StepV { m: t.m, out: t.out, pend }
                    },
                    None => {
                        let l = labelled(t.m, lo, t.out);
                        let s = stepped(l.m, op, lo, pend);
                        emitted(s.m, lo + len_at(m.proto, lo), hi, l.body + s.out, s.pend, ctx)
                    },
                }
            },
        }
    }
}

/// The label at `pc`, where there is one, after the statements `out`.
pub open spec fn labelled(m: MachineV, pc: int, out: Block) -> BodyV {
    match label_at(m.proto, pc) {
        Some(l) => BodyV { m: forgotten(m), body: settled(m, out).push(StmtV::Label(l)) },
        None => BodyV { m, body: out },
    }
}

/// The range `lo..hi` as a block of its own.
pub open spec fn body_of(m: MachineV, lo: int, hi: int, ctx: LoopCtx) -> BodyV
    decreases size(lo, hi), 6nat, 0nat,
{
    let e = emitted(m, lo, hi, Seq::empty(), None, ctx);
    BodyV { m: forgotten(e.m), body: settled(e.m, e.out) }
}

/// The loop or branch that begins at `pc`, where there is one.
pub open spec fn structured(m: MachineV, op: Opcode, pc: int, hi: int, out: Block, ctx: LoopCtx) -> TryV
    decreases size(pc, hi), 4nat, 0nat,
{
    let t = if op == Opcode::ForNPrep {
        numeric_for(m, pc, hi, out)
    } else if for_in_prep(op) {
        generic_for(m, pc, hi, out)
    } else {
        failed(m, out)
    };
    if t.next is Some {
        t
    } else if loop_at(t.m, pc) is Some {
        let u = looped(t.m, pc, hi, t.out);
        if u.next is Some {
            u
        } else {
            branched(u.m, op, pc, hi, u.out, ctx, true)
        }
    } else {
        branched(t.m, op, pc, hi, t.out, ctx, false)
    }
}

/// The branch that begins at `pc`, where there is one; `header` where a loop begins there too.
pub open spec fn branched(m: MachineV, op: Opcode, pc: int, hi: int, out: Block, ctx: LoopCtx, header: bool) -> TryV
    decreases size(pc, hi), 3nat, 0nat,
{
    let t = loop_exit(m, op, pc, out, ctx);
    if t.next is Some || !conditional(op) {
        t
    } else {
        let u = stored_outcome(t.m, op, pc, hi, t.out);
        if u.next is Some || header {
            u
        } else {
            let v = guard_chain(u.m, pc, hi, u.out, ctx);
            if v.next is Some {
                v
            } else {
                if_stmt(v.m, op, pc, hi, v.out, ctx)
            }
        }
    }
}

/// A numeric `for` whose setup stands at `pc`.
pub open spec fn numeric_for(m: MachineV, pc: int, hi: int, out: Block) -> TryV
    decreases size(pc, hi), 1nat, 0nat,
{
    let p = m.proto;
    match target_at(p, pc) {
        None => failed(m, out),
        Some(exit) => {
            let last = exit - 1;
            if exit > hi || last <= pc || op_at(p, last) != Some(Opcode::ForNLoop) || target_at(p, last) != Some(pc + 1) {
                failed(m, out)
            } else {
                let a = p.code@[pc].a;
                let v = wrap8(a + 2);
                let name = loop_var(m, v, pc + 1);
                let m1 = range_forgotten(loop_var_named(m, v, pc + 1), a, 3);
                let b = body_of(with_name(forgotten(m1), v, Some(name)), pc + 1, last, Some((last, exit)));
                let head = LoopHead::Numeric {
                    var: name,
                    start: reg(m, v),
                    limit: reg(m, a),
                    step: Some(reg(m, wrap8(a + 1))),
                };
                TryV {
                    next: Some(exit),
                    m: with_name(b.m, v, None),
                    out: settled(m1, out).push(StmtV::Loop { head, body: b.body }),
                }
            }
        },
    }
}

/// A generic `for` whose setup stands at `pc`.
pub open spec fn generic_for(m: MachineV, pc: int, hi: int, out: Block) -> TryV
    decreases size(pc, hi), 1nat, 0nat,
{
    let p = m.proto;
    match target_at(p, pc) {
        None => failed(m, out),
        Some(last) => {
            let count = aux_at(p, last).raw as u8;
            if last <= pc || last >= hi || op_at(p, last) != Some(Opcode::ForGLoop) || count == 0 {
                failed(m, out)
            } else {
                let a = p.code@[pc].a;
                let call = iterator_call(m, a, out);
                let (es, rest) = match call {
                    Some(e) => (seq![e], out.drop_last()),
                    None => (seq![reg(m, a), reg(m, wrap8(a + 1)), reg(m, wrap8(a + 2))], out),
                };
                let m1 = range_forgotten(m, a, (count + 3) as nat);
                let (m2, names) = vars_named(forgotten(m1), wrap8(a + 3), pc + 1, count as nat);
                let b = body_of(m2, pc + 1, last, Some((last, last + 2)));
                TryV {
                    next: Some(last + 2),
                    m: names_dropped(b.m, wrap8(a + 3), count as nat),
                    out: settled(m1, rest).push(
                        StmtV::Loop { head: LoopHead::Generic { vars: names, exprs: es }, body: b.body },
                    ),
                }
            }
        },
    }
}

/// A loop whose first instruction stands at `pc`.
pub open spec fn looped(m: MachineV, pc: int, hi: int, out: Block) -> TryV
    decreases size(pc, hi), 2nat, 0nat,
{
    match loop_at(m, pc) {
        None => failed(m, out),
        Some(back) => match op_at(m.proto, back) {
            None => failed(m, out),
            Some(op) => if back >= hi || back < pc {
                failed(m, out)
            } else {
                let exit = back + len_at(m.proto, back);
                let n = with_loop(m, pc, None);
                let t = if op == Opcode::JumpBack {
                    jumpback_loop(n, pc, back, exit, hi, out)
                } else if conditional(op) {
                    condback_loop(n, op, pc, back, exit, hi, out)
                } else {
                    failed(n, out)
                };
                if t.next is Some {
                    t
                } else {
                    TryV { m: with_loop(t.m, pc, Some(back)), ..t }
                }
            },
        },
    }
}

/// A loop that jumps back unconditionally: `repeat` where its test stands right before the jump,
/// `while` where it stands at the top, and endless where there is none.
pub open spec fn jumpback_loop(m: MachineV, pc: int, back: int, exit: int, hi: int, out: Block) -> TryV
    decreases size(pc, hi), 1nat, 0nat,
{
    let p = m.proto;
    if back >= hi || back < pc {
        failed(m, out)
    } else {
        match loop_test(p, pc, back, exit) {
            Some(t) => match op_at(p, t) {
                None => failed(m, out),
                Some(op) => {
                    let after = t + len_at(p, t);
                    if t < pc || t >= back {
                        failed(m, out)
                    } else if after == back && t > pc {
                        let e = emitted(forgotten(m), pc, t, Seq::empty(), None, Some((pc, exit)));
                        let head = LoopHead::Repeat(taken(e.m, op, t));
                        TryV {
                            next: Some(exit),
                            m: forgotten(e.m),
                            out: settled(m, out).push(StmtV::Loop { head, body: settled(e.m, e.out) }),
                        }
                    } else {
                        let s = setup(m, pc, t, Seq::empty(), None);
                        if !s.done {
                            failed(s.m, out)
                        } else if s.out.len() > 0 {
                            failed(MachineV { regs: m.regs, ..s.m }, out)
                        } else {
                            let head = LoopHead::While(not_taken(s.m, op, t));
                            let b = body_of(forgotten(s.m), after, back, Some((pc, exit)));
                            TryV {
                                next: Some(exit),
                                m: b.m,
                                out: settled(s.m, out).push(StmtV::Loop { head, body: b.body }),
                            }
                        }
                    }
                },
            },
            None => {
                let b = body_of(forgotten(m), pc, back, Some((pc, exit)));
                let head = LoopHead::While(ExprV::Bool(true));
                TryV { next: Some(exit), m: b.m, out: settled(m, out).push(StmtV::Loop { head, body: b.body }) }
            },
        }
    }
}

/// A loop that jumps back on a condition.
pub open spec fn condback_loop(m: MachineV, op: Opcode, pc: int, back: int, exit: int, hi: int, out: Block) -> TryV
    decreases size(pc, hi), 1nat, 0nat,
{
    if back >= hi || back < pc {
        failed(m, out)
    } else {
        let e = emitted(forgotten(m), pc, back, Seq::empty(), None, Some((pc, exit)));
        let head = LoopHead::Repeat(opposite(taken(e.m, op, back)));
        TryV {
            next: Some(exit),
            m: forgotten(e.m),
            out: settled(m, out).push(StmtV::Loop { head, body: settled(e.m, e.out) }),
        }
    }
}

/// An `if` whose test stands at `pc`.
pub open spec fn if_stmt(m: MachineV, op: Opcode, pc: int, hi: int, out: Block, ctx: LoopCtx) -> TryV
    decreases size(pc, hi), 1nat, 0nat,
{
    let p = m.proto;
    match target_at(p, pc) {
        None => failed(m, out),
        Some(t) => if t <= pc || t > hi {
            failed(m, out)
        } else {
            let lo = pc + len_at(p, pc);
            match else_end(p, lo, t, hi, ctx) {
                Some((last, end)) => if last <= pc || last >= t || end <= t || end > hi {
                    failed(m, out)
                } else {
                    let b = body_of(forgotten(m), lo, last, ctx);
                    let c = body_of(b.m, t, end, ctx);
                    TryV {
                        next: Some(end),
                        m: c.m,
                        out: settled(m, out).push(
                            StmtV::If { cond: not_taken(m, op, pc), then_body: b.body, else_body: c.body },
                        ),
                    }
                },
                None => {
                    let b = body_of(forgotten(m), lo, t, ctx);
                    TryV {
                        next: Some(t),
                        m: b.m,
                        out: settled(m, out).push(spec_if(not_taken(m, op, pc), b.body)),
                    }
                },
            }
        },
    }
}

/// Where the jump over an `else` that begins at `t` stands, and where it leads.
pub open spec fn else_end(p: Proto, lo: int, t: int, hi: int, ctx: LoopCtx) -> Option<(int, int)> {
    match last_before(p, lo, t) {
        Some(last) => if op_at(p, last) == Some(Opcode::Jump) {
            match target_at(p, last) {
                Some(end) => if end > t && end <= hi && keyword_for(Some(end), ctx) is None {
                    Some((last, end))
                } else {
                    None
                },
                None => None,
            }
        } else {
            None
        },
        None => None,
    }
}

/// Several tests that guard one block: see the three shapes below.
pub open spec fn guard_chain(m: MachineV, pc: int, hi: int, out: Block, ctx: LoopCtx) -> TryV
    decreases size(pc, hi), 2nat, 0nat,
{
    let p = m.proto;
    match (chain(p, pc, hi), target_at(p, pc)) {
        (Some(jumps), Some(guard)) => if jumps.len() < 2 || guard <= pc {
            failed(m, out)
        } else {
            match target_at(p, jumps.last()) {
                None => failed(m, out),
                Some(end) => if end == guard {
                    let t = else_join(m, jumps, guard, pc, hi, out, ctx);
                    if t.next is Some {
                        t
                    } else {
                        fallback_guards(t.m, jumps, guard, pc, hi, t.out, ctx)
                    }
                } else if end <= guard || end > hi || !all_lead_to(p, jumps, jumps.len() - 1, guard)
                    || jumps.last() + len_at(p, jumps.last()) != guard || !leaves(p, guard, end, ctx) {
                    failed(m, out)
                } else if apart(p, jumps) {
                    let g = body_of(forgotten(m), guard, end, ctx);
                    let s = guards(g.m, jumps, 0, guard, g.body, pc, hi, settled(m, out), ctx);
                    TryV { next: Some(end), m: s.m, out: s.body }
                } else {
                    let g = body_of(forgotten(m), guard, end, ctx);
                    let cond = not_of(all_pass(forgotten(m), jumps, jumps.len() as int));
                    TryV { next: Some(end), m: g.m, out: settled(m, out).push(spec_if(cond, g.body)) }
                },
            }
        },
        _ => failed(m, out),
    }
}

/// The condition on which control gets past the first `k` tests; the last one jumps on to what
/// follows the guarded block, the others into it.
pub open spec fn all_pass(m: MachineV, jumps: Seq<int>, k: int) -> ExprV
    decreases k,
{
    if k <= 1 {
        pass_at(m, jumps, 0)
    } else {
        binary("and"@, all_pass(m, jumps, k - 1), pass_at(m, jumps, k - 1))
    }
}

/// The condition on which control gets past the test number `i`.
pub open spec fn pass_at(m: MachineV, jumps: Seq<int>, i: int) -> ExprV {
    match op_at(m.proto, jumps[i]) {
        Some(op) => if i == jumps.len() - 1 {
            taken(m, op, jumps[i])
        } else {
            not_taken(m, op, jumps[i])
        },
        None => ExprV::Nil,
    }
}

/// The tests from number `i` on, each with a copy of the guarded block `body`, and what stands
/// between them.
pub open spec fn guards(
    m: MachineV,
    jumps: Seq<int>,
    i: int,
    guard: int,
    body: Block,
    pc: int,
    hi: int,
    out: Block,
    ctx: LoopCtx,
) -> BodyV
    decreases size(pc, hi), 0nat, jumps.len() - i,
{
    if i < 0 || i >= jumps.len() {
        BodyV { m, body: out }
    } else {
        let j = jumps[i];
        let cond = match op_at(m.proto, j) {
            Some(op) => if target_at(m.proto, j) == Some(guard) {
                taken(m, op, j)
            } else {
                not_taken(m, op, j)
            },
            None => ExprV::Nil,
        };
        let next = out.push(spec_if(cond, body));
        let after = j + len_at(m.proto, j);
        if i + 1 < jumps.len() && after != jumps[i + 1] && pc < after && jumps[i + 1] < hi && pc < hi {
            let b = body_of(m, after, jumps[i + 1], ctx);
            guards(b.m, jumps, i + 1, guard, body, pc, hi, next + b.body, ctx)
        } else {
            guards(m, jumps, i + 1, guard, body, pc, hi, next, ctx)
        }
    }
}

/// Tests that all lead to a block after what they guard, which control cannot get past: each test
/// gets a copy of that block.
pub open spec fn fallback_guards(
    m: MachineV,
    jumps: Seq<int>,
    guard: int,
    pc: int,
    hi: int,
    out: Block,
    ctx: LoopCtx,
) -> TryV
    decreases size(pc, hi), 1nat, 0nat,
{
    let p = m.proto;
    let start = jumps.last() + len_at(p, jumps.last());
    if !all_lead_to(p, jumps, jumps.len() as int, guard) || start >= guard || guard > hi || guard <= pc || start <= pc
        || !leaves(p, guard, hi, ctx) {
        failed(m, out)
    } else {
        let g = body_of(forgotten(m), guard, hi, ctx);
        let s = guards(g.m, jumps, 0, guard, g.body, pc, hi, settled(m, out), ctx);
        let b = body_of(s.m, start, guard, ctx);
        TryV { next: Some(hi), m: b.m, out: s.body + b.body }
    }
}

/// Tests that all lead to an `else`, which what they guard jumps over.
pub open spec fn else_join(
    m: MachineV,
    jumps: Seq<int>,
    start: int,
    pc: int,
    hi: int,
    out: Block,
    ctx: LoopCtx,
) -> TryV
    decreases size(pc, hi), 1nat, 0nat,
{
    let p = m.proto;
    let lo = jumps.last() + len_at(p, jumps.last());
    match else_end(p, lo, start, hi, ctx) {
        Some((last, end)) => if !all_lead_to(p, jumps, jumps.len() as int, start) || lo <= pc || last < lo || last >= start
            || start <= pc || start > hi || end > hi {
            failed(m, out)
        } else {
            let a = body_of(forgotten(m), lo, last, ctx);
            let e = body_of(a.m, start, end, ctx);
            let before = settled(m, out);
            if a.body.len() == 0 && e.body.len() == 0 {
                failed(e.m, before)
            } else {
                let s = nested_tests(e.m, jumps, jumps.len() as int, lo, e.body, pc, hi, a.body, ctx);
                TryV { next: Some(end), m: s.m, out: before + s.body }
            }
        },
        None => failed(m, out),
    }
}

/// `body` inside the first `k` tests, each with the `else` `other`, and what stands between them.
pub open spec fn nested_tests(
    m: MachineV,
    jumps: Seq<int>,
    k: int,
    lo: int,
    other: Block,
    pc: int,
    hi: int,
    body: Block,
    ctx: LoopCtx,
) -> BodyV
    decreases size(pc, hi), 0nat, k,
{
    if k <= 0 || k > jumps.len() {
        BodyV { m, body }
    } else {
        let j = jumps[k - 1];
        let after = j + len_at(m.proto, j);
        let next = if k < jumps.len() {
            jumps[k]
        } else {
            lo
        };
        let b = if pc < after < next <= hi {
            let i = body_of(m, after, next, ctx);
            BodyV { m: i.m, body: i.body + body }
        } else {
            BodyV { m, body }
        };
        let cond = match op_at(m.proto, j) {
            Some(op) => taken(b.m, op, j),
            None => ExprV::Nil,
        };
        nested_tests(
            b.m,
            jumps,
            k - 1,
            lo,
            other,
            pc,
            hi,
            seq![StmtV::If { cond, then_body: other, else_body: b.body }],
            ctx,
        )
    }
}

// ---- reading ------------------------------------------------------------------------------------------------

/// Whether positions in the code of `m` can be computed with.
pub open spec fn addressable(m: MachineV) -> bool {
    m.proto.code.len() + 255 <= usize::MAX
}

/// What an attempt promises.
pub open spec fn attempt_ok(r: Option<usize>, pc: int, t: TryV, m: MachineV, out: Block) -> bool {
    &&& opt_index(r) == t.next
    &&& m == t.m
    &&& out == t.out
    &&& r matches Some(n) ==> pc < n
}

fn maybe_label(m: &mut Machine, pc: usize, out: &mut Vec<Stmt>)
    ensures
        final(m)@ == labelled(old(m)@, pc as int, block(old(out)@)).m,
        block(final(out)@) == labelled(old(m)@, pc as int, block(old(out)@)).body,
        final(m)@.proto == old(m)@.proto,
{
    let p = m.proto();
    if pc < p.labels.len() {
        if let Some(id) = p.labels[pc] {
            m.flush_inline(out);
            let ghost o = block(out@);
            push_stmt(out, Stmt::Label(number_name("L", id as u128)));
            assert(block(out@) =~= o.push(StmtV::Label(numbered("L"@, id as nat))));
        }
    }
}

/// Appends one statement.
fn push_last(out: &mut Vec<Stmt>, s: Stmt)
    ensures
        block(final(out)@) == block(old(out)@).push(s@),
{
    let ghost o = block(out@);
    push_stmt(out, s);
    assert(block(out@) =~= o.push(s@));
}

fn keyword_of(t: Option<usize>, ctx: Option<(usize, usize)>) -> (r: Option<Stmt>)
    ensures
        match r {
            Some(s) => keyword_for(opt_index(t), ctx_of(ctx)) == Some(s@),
            None => keyword_for(opt_index(t), ctx_of(ctx)) is None,
        },
{
    match (t, ctx) {
        (Some(t), Some((cont, brk))) => {
            if t == brk {
                Some(Stmt::Break)
            } else if t == cont {
                Some(Stmt::Continue)
            } else {
                None
            }
        },
        _ => None,
    }
}

fn try_loop_exit(
    m: &mut Machine,
    op: Opcode,
    pc: usize,
    out: &mut Vec<Stmt>,
    ctx: Option<(usize, usize)>,
) -> (r: Option<usize>)
    requires
        pc < old(m)@.proto.code.len(),
        addressable(old(m)@),
    ensures
        attempt_ok(
            r,
            pc as int,
            loop_exit(old(m)@, op, pc as int, block(old(out)@), ctx_of(ctx)),
            final(m)@,
            block(final(out)@),
        ),
        final(m)@.proto == old(m)@.proto,
{
    let p = m.proto();
    match keyword_of(p.target(pc), ctx) {
        Some(kw) => {
            if op == Opcode::Jump || op == Opcode::JumpBack {
                m.flush_inline(out);
                push_last(out, kw);
                Some(p.after(pc))
            } else if is_conditional_jump(op) {
                let cond = taken_condition(m, op, pc);
                m.flush_inline(out);
                push_last(out, if_then(cond, one(kw)));
                Some(p.after(pc))
            } else {
                None
            }
        },
        None => None,
    }
}

fn is_stored_outcome(p: &Proto, pc: usize, hi: usize) -> (r: bool)
    requires
        pc < hi <= p.code.len(),
        p.code.len() + 255 <= usize::MAX,
    ensures
        r == stores_outcome(*p, pc as int, hi as int),
{
    let next: usize = p.after(pc);
    match p.target(pc) {
        Some(t) => {
            if t != next + 1 || next + 1 >= hi {
                return false;
            }
            let f = p.code[next];
            let g = p.code[next + 1];
            f.op == Some(Opcode::LoadB) && f.c == 1 && g.op == Some(Opcode::LoadB) && g.a == f.a && g.c == 0 && (g.b != 0)
                != (f.b != 0)
        },
        None => false,
    }
}

fn try_bool_materialize(m: &mut Machine, op: Opcode, pc: usize, hi: usize, out: &mut Vec<Stmt>) -> (r: Option<usize>)
    requires
        pc < hi <= old(m)@.proto.code.len(),
        addressable(old(m)@),
    ensures
        attempt_ok(
            r,
            pc as int,
            stored_outcome(old(m)@, op, pc as int, hi as int, block(old(out)@)),
            final(m)@,
            block(final(out)@),
        ),
        final(m)@.proto == old(m)@.proto,
{
    let p = m.proto();
    if !is_stored_outcome(p, pc, hi) {
        return None;
    }
    let next: usize = p.after(pc);
    let cond = taken_condition(m, op, pc);
    let e = if p.code[next + 1].b != 0 {
        cond
    } else {
        negate(cond)
    };
    let ghost o = block(out@);
    let ghost mv = m@;
    let a: u8 = p.code[next].a;
    m.assign(a, e, out);
    assert(block(out@) =~= o.push(assign(reg_name(mv, a), e@)));
    Some(next + 2)
}

fn run_setup(m: &mut Machine, from: usize, end: usize) -> (r: (bool, Vec<Stmt>))
    requires
        end <= old(m)@.proto.code.len(),
        addressable(old(m)@),
    ensures
        ({
            let s = setup(old(m)@, from as int, end as int, Seq::empty(), None);
            r.0 == s.done && block(r.1@) == s.out && final(m)@ == s.m
        }),
        final(m)@.proto == old(m)@.proto,
{
    let p = m.proto();
    let ghost m0 = m@;
    let mut out: Vec<Stmt> = Vec::new();
    let mut pend: Option<(u8, Expr, String)> = None;
    let mut q: usize = from;
    assert(block(out@) =~= Seq::<StmtV>::empty());
    let ghost whole = setup(m0, from as int, end as int, Seq::empty(), None);
    while q < end
        invariant
            end <= p.code.len(),
            addressable(m@),
            m@.proto == *p,
            m0.proto == *p,
            m0 == old(m)@,
            whole == setup(m0, from as int, end as int, Seq::empty(), None),
            whole == setup(m@, q as int, end as int, block(out@), pending_of(pend)),
        decreases size(q as int, end as int),
    {
        match p.op(q) {
            None => {
                return (false, out);
            },
            Some(op) => {
                proof {
                    stepped_keeps(m@, op, q as int, pending_of(pend));
                }
                step(m, op, q, &mut out, &mut pend);
                q = p.after(q);
            },
        }
    }
    (true, out)
}

fn iterator_of(m: &Machine, a: u8, out: &Vec<Stmt>) -> (r: Option<Expr>)
    ensures
        crate::ast::opt_expr_view(r) == iterator_call(m@, a, block(out@)),
        r is Some ==> out.len() > 0,
{
    assert(block(out@).len() == out@.len());
    if out.len() == 0 {
        return None;
    }
    let n: usize = out.len();
    assert(block(out@).last() == out@[n - 1]@);
    match &out[n - 1] {
        Stmt::Assign { targets, values } => {
            assert(exprs(targets@).len() == targets@.len());
            assert(exprs(values@).len() == values@.len());
            if values.len() != 1 || targets.len() != 3 {
                return None;
            }
            assert(exprs(targets@)[0] == targets@[0]@);
            assert(exprs(targets@)[1] == targets@[1]@);
            assert(exprs(targets@)[2] == targets@[2]@);
            assert(exprs(values@)[0] == values@[0]@);
            if is_var_named(&targets[0], &m.reg_name(a)) && is_var_named(&targets[1], &m.reg_name(reg_after(a, 1)))
                && is_var_named(&targets[2], &m.reg_name(reg_after(a, 2))) {
                Some(values[0].clone())
            } else {
                None
            }
        },
        _ => None,
    }
}

fn is_var_named(e: &Expr, n: &str) -> (r: bool)
    ensures
        r == (e@ == ExprV::Var(n@)),
{
    match as_var(e) {
        Some(m) => str_eq(m, n),
        None => false,
    }
}

fn three(a: Expr, b: Expr, c: Expr) -> (r: Vec<Expr>)
    ensures
        exprs(r@) == seq![a@, b@, c@],
{
    let mut v: Vec<Expr> = Vec::new();
    v.push(a);
    v.push(b);
    v.push(c);
    assert(exprs(v@) =~= seq![a@, b@, c@]);
    v
}

fn forget_regs(m: &mut Machine, a: u8, n: u16)
    requires
        n <= 300,
    ensures
        final(m)@ == range_forgotten(old(m)@, a, n as nat),
        final(m)@.proto == old(m)@.proto,
{
    let ghost m0 = m@;
    let mut i: u16 = 0;
    while i < n
        invariant
            i <= n <= 300,
            m@ == range_forgotten(m0, a, i as nat),
            m@.proto == m0.proto,
            m0 == old(m)@,
        decreases n - i,
    {
        let r: u8 = ((a as u16 + i) % 256) as u8;
        m.clear_inline(r);
        i += 1;
    }
}

fn name_vars(m: &mut Machine, a: u8, pc: usize, n: u8) -> (r: Vec<String>)
    ensures
        ({
            let v = vars_named(old(m)@, a, pc as int, n as nat);
            final(m)@ == v.0 && texts(r@) == v.1
        }),
        final(m)@.proto == old(m)@.proto,
{
    let ghost m0 = m@;
    let mut names: Vec<String> = Vec::new();
    let mut i: u8 = 0;
    assert(texts(names@) =~= Seq::<Text>::empty());
    while i < n
        invariant
            i <= n,
            m@ == vars_named(m0, a, pc as int, i as nat).0,
            texts(names@) == vars_named(m0, a, pc as int, i as nat).1,
            m@.proto == m0.proto,
            m0 == old(m)@,
        decreases n - i,
    {
        let r: u8 = reg_after(a, i);
        let name = m.loop_var_name(r, pc);
        m.set_name(r, Some(name.clone()));
        let ghost o = texts(names@);
        names.push(name);
        assert(texts(names@) =~= o.push(name@));
        i += 1;
    }
    names
}

fn drop_names(m: &mut Machine, a: u8, n: u8)
    ensures
        final(m)@ == names_dropped(old(m)@, a, n as nat),
        final(m)@.proto == old(m)@.proto,
{
    let ghost m0 = m@;
    let mut i: u8 = 0;
    while i < n
        invariant
            i <= n,
            m@ == names_dropped(m0, a, i as nat),
            m@.proto == m0.proto,
            m0 == old(m)@,
        decreases n - i,
    {
        m.set_name(reg_after(a, i), None);
        i += 1;
    }
}

/// Reads the range `lo..hi` from top to bottom.
pub fn emit_range(
    m: &mut Machine,
    lo: usize,
    hi: usize,
    out: &mut Vec<Stmt>,
    pend: &mut Option<(u8, Expr, String)>,
    ctx: Option<(usize, usize)>,
)
    requires
        hi <= old(m)@.proto.code.len(),
        addressable(old(m)@),
    ensures
        ({
            let e = emitted(old(m)@, lo as int, hi as int, block(old(out)@), pending_of(*old(pend)), ctx_of(ctx));
            final(m)@ == e.m && block(final(out)@) == e.out && pending_of(*final(pend)) == e.pend
        }),
        final(m)@.proto == old(m)@.proto,
    decreases size(lo as int, hi as int), 5nat, 0nat,
{
    let p = m.proto();
    let ghost e0 = emitted(m@, lo as int, hi as int, block(out@), pending_of(*pend), ctx_of(ctx));
    let mut pc: usize = lo;
    while pc < hi
        invariant
            lo <= pc,
            hi <= p.code.len(),
            addressable(m@),
            m@.proto == *p,
            old(m)@.proto == *p,
            e0 == emitted(old(m)@, lo as int, hi as int, block(old(out)@), pending_of(*old(pend)), ctx_of(ctx)),
            e0 == emitted(m@, pc as int, hi as int, block(out@), pending_of(*pend), ctx_of(ctx)),
        decreases size(pc as int, hi as int),
    {
        match p.op(pc) {
            None => {
                pc += 1;
            },
            Some(op) => {
                match try_structure(m, op, pc, hi, out, ctx) {
                    Some(next) => {
                        pc = next;
                    },
                    None => {
                        maybe_label(m, pc, out);
                        proof {
                            stepped_keeps(m@, op, pc as int, pending_of(*pend));
                        }
                        step(m, op, pc, out, pend);
                        pc = p.after(pc);
                    },
                }
            },
        }
    }
}

fn emit_body(m: &mut Machine, lo: usize, hi: usize, ctx: Option<(usize, usize)>) -> (r: Vec<Stmt>)
    requires
        hi <= old(m)@.proto.code.len(),
        addressable(old(m)@),
    ensures
        ({
            let b = body_of(old(m)@, lo as int, hi as int, ctx_of(ctx));
            final(m)@ == b.m && block(r@) == b.body
        }),
        final(m)@.proto == old(m)@.proto,
    decreases size(lo as int, hi as int), 6nat, 0nat,
{
    let mut body: Vec<Stmt> = Vec::new();
    assert(block(body@) =~= Seq::<StmtV>::empty());
    let mut pend: Option<(u8, Expr, String)> = None;
    emit_range(m, lo, hi, &mut body, &mut pend, ctx);
    m.flush_inline(&mut body);
    body
}

fn try_structure(
    m: &mut Machine,
    op: Opcode,
    pc: usize,
    hi: usize,
    out: &mut Vec<Stmt>,
    ctx: Option<(usize, usize)>,
) -> (r: Option<usize>)
    requires
        pc < hi <= old(m)@.proto.code.len(),
        addressable(old(m)@),
    ensures
        attempt_ok(
            r,
            pc as int,
            structured(old(m)@, op, pc as int, hi as int, block(old(out)@), ctx_of(ctx)),
            final(m)@,
            block(final(out)@),
        ),
        final(m)@.proto == old(m)@.proto,
    decreases size(pc as int, hi as int), 4nat, 0nat,
{
    if op == Opcode::ForNPrep {
        if let Some(next) = try_numeric_for(m, pc, hi, out) {
            return Some(next);
        }
    } else if is_for_in_prep(op) {
        if let Some(next) = try_generic_for(m, pc, hi, out) {
            return Some(next);
        }
    }
    if m.loop_back(pc).is_some() {
        if let Some(next) = try_loop(m, pc, hi, out) {
            return Some(next);
        }
        try_branch(m, op, pc, hi, out, ctx, true)
    } else {
        try_branch(m, op, pc, hi, out, ctx, false)
    }
}

fn try_branch(
    m: &mut Machine,
    op: Opcode,
    pc: usize,
    hi: usize,
    out: &mut Vec<Stmt>,
    ctx: Option<(usize, usize)>,
    header: bool,
) -> (r: Option<usize>)
    requires
        pc < hi <= old(m)@.proto.code.len(),
        addressable(old(m)@),
    ensures
        attempt_ok(
            r,
            pc as int,
            branched(old(m)@, op, pc as int, hi as int, block(old(out)@), ctx_of(ctx), header),
            final(m)@,
            block(final(out)@),
        ),
        final(m)@.proto == old(m)@.proto,
    decreases size(pc as int, hi as int), 3nat, 0nat,
{
    if let Some(next) = try_loop_exit(m, op, pc, out, ctx) {
        return Some(next);
    }
    if !is_conditional_jump(op) {
        return None;
    }
    if let Some(next) = try_bool_materialize(m, op, pc, hi, out) {
        return Some(next);
    }
    if header {
        return None;
    }
    if let Some(next) = try_guard_chain(m, pc, hi, out, ctx) {
        return Some(next);
    }
    try_if(m, op, pc, hi, out, ctx)
}

fn try_numeric_for(m: &mut Machine, pc: usize, hi: usize, out: &mut Vec<Stmt>) -> (r: Option<usize>)
    requires
        pc < hi <= old(m)@.proto.code.len(),
        addressable(old(m)@),
    ensures
        attempt_ok(
            r,
            pc as int,
            numeric_for(old(m)@, pc as int, hi as int, block(old(out)@)),
            final(m)@,
            block(final(out)@),
        ),
        final(m)@.proto == old(m)@.proto,
    decreases size(pc as int, hi as int), 1nat, 0nat,
{
    let p = m.proto();
    let exit = match p.target(pc) {
        Some(t) => t,
        None => {
            return None;
        },
    };
    if exit == 0 || exit > hi || exit - 1 <= pc {
        return None;
    }
    let last: usize = exit - 1;
    match (p.op(last), p.target(last)) {
        (Some(Opcode::ForNLoop), Some(t)) => {
            if t != pc + 1 {
                return None;
            }
        },
        _ => {
            return None;
        },
    }
    let a: u8 = p.code[pc].a;
    let v: u8 = reg_after(a, 2);
    let start = m.reg(v);
    let limit = m.reg(a);
    let step_by = m.reg(reg_after(a, 1));
    let name = m.loop_var_name(v, pc + 1);
    forget_regs(m, a, 3);
    m.flush_inline(out);
    m.set_name(v, Some(name.clone()));
    let body = emit_body(m, pc + 1, last, Some((last, exit)));
    m.set_name(v, None);
    push_last(out, Stmt::NumericFor { var: name, start, limit, step: Some(step_by), body });
    Some(exit)
}

fn try_generic_for(m: &mut Machine, pc: usize, hi: usize, out: &mut Vec<Stmt>) -> (r: Option<usize>)
    requires
        pc < hi <= old(m)@.proto.code.len(),
        addressable(old(m)@),
    ensures
        attempt_ok(
            r,
            pc as int,
            generic_for(old(m)@, pc as int, hi as int, block(old(out)@)),
            final(m)@,
            block(final(out)@),
        ),
        final(m)@.proto == old(m)@.proto,
    decreases size(pc as int, hi as int), 1nat, 0nat,
{
    let p = m.proto();
    let last = match p.target(pc) {
        Some(t) => t,
        None => {
            return None;
        },
    };
    if last <= pc || last >= hi || p.op(last) != Some(Opcode::ForGLoop) {
        return None;
    }
    let count: u8 = p.aux(last).raw as u8;
    if count == 0 {
        return None;
    }
    let a: u8 = p.code[pc].a;
    let call = iterator_of(m, a, out);
    let es = match call {
        Some(e) => {
            let ghost o = out@;
            let _ = out.pop();
            assert(block(out@) =~= block(o).drop_last());
            one_expr(e)
        },
        None => three(m.reg(a), m.reg(reg_after(a, 1)), m.reg(reg_after(a, 2))),
    };
    forget_regs(m, a, count as u16 + 3);
    m.flush_inline(out);
    let first: u8 = reg_after(a, 3);
    let vars = name_vars(m, first, pc + 1, count);
    let body = emit_body(m, pc + 1, last, Some((last, last + 2)));
    drop_names(m, first, count);
    push_last(out, Stmt::GenericFor { vars, exprs: es, body });
    Some(last + 2)
}

fn try_loop(m: &mut Machine, pc: usize, hi: usize, out: &mut Vec<Stmt>) -> (r: Option<usize>)
    requires
        pc < hi <= old(m)@.proto.code.len(),
        addressable(old(m)@),
    ensures
        attempt_ok(
            r,
            pc as int,
            looped(old(m)@, pc as int, hi as int, block(old(out)@)),
            final(m)@,
            block(final(out)@),
        ),
        final(m)@.proto == old(m)@.proto,
    decreases size(pc as int, hi as int), 2nat, 0nat,
{
    let p = m.proto();
    let back = match m.loop_back(pc) {
        Some(b) => b,
        None => {
            return None;
        },
    };
    let op = match p.op(back) {
        Some(op) => op,
        None => {
            return None;
        },
    };
    if back >= hi || back < pc {
        return None;
    }
    let exit: usize = p.after(back);
    m.set_loop_back(pc, None);
    let result = if op == Opcode::JumpBack {
        structure_jumpback_loop(m, pc, back, exit, hi, out)
    } else if is_conditional_jump(op) {
        structure_condback_repeat(m, op, pc, back, exit, hi, out)
    } else {
        None
    };
    if result.is_none() {
        m.set_loop_back(pc, Some(back));
    }
    result
}

fn structure_jumpback_loop(
    m: &mut Machine,
    pc: usize,
    back: usize,
    exit: usize,
    hi: usize,
    out: &mut Vec<Stmt>,
) -> (r: Option<usize>)
    requires
        pc <= back < hi <= old(m)@.proto.code.len(),
        back < exit,
        addressable(old(m)@),
    ensures
        attempt_ok(
            r,
            pc as int,
            jumpback_loop(old(m)@, pc as int, back as int, exit as int, hi as int, block(old(out)@)),
            final(m)@,
            block(final(out)@),
        ),
        final(m)@.proto == old(m)@.proto,
    decreases size(pc as int, hi as int), 1nat, 0nat,
{
    let p = m.proto();
    match find_loop_test(p, pc, back, exit) {
        Some(t) => {
            let op = match p.op(t) {
                Some(op) => op,
                None => {
                    return None;
                },
            };
            let after: usize = p.after(t);
            if after == back && t > pc {
                m.flush_inline(out);
                let mut body: Vec<Stmt> = Vec::new();
                assert(block(body@) =~= Seq::<StmtV>::empty());
                let mut pend: Option<(u8, Expr, String)> = None;
                emit_range(m, pc, t, &mut body, &mut pend, Some((pc, exit)));
                let cond = taken_condition(m, op, t);
                m.flush_inline(&mut body);
                push_last(out, Stmt::Repeat { body, cond });
                Some(exit)
            } else {
                let snapshot = m.copy_regs();
                let (done, ahead) = run_setup(m, pc, t);
                assert(block(ahead@).len() == ahead@.len());
                if !done {
                    return None;
                }
                if ahead.len() > 0 {
                    m.restore_regs(snapshot);
                    return None;
                }
                let cond = fallthrough_condition(m, op, t);
                m.flush_inline(out);
                let body = emit_body(m, after, back, Some((pc, exit)));
                push_last(out, Stmt::While { cond, body });
                Some(exit)
            }
        },
        None => {
            m.flush_inline(out);
            let body = emit_body(m, pc, back, Some((pc, exit)));
            push_last(out, Stmt::While { cond: Expr::Bool(true), body });
            Some(exit)
        },
    }
}

fn structure_condback_repeat(
    m: &mut Machine,
    op: Opcode,
    pc: usize,
    back: usize,
    exit: usize,
    hi: usize,
    out: &mut Vec<Stmt>,
) -> (r: Option<usize>)
    requires
        pc <= back < hi <= old(m)@.proto.code.len(),
        back < exit,
        addressable(old(m)@),
    ensures
        attempt_ok(
            r,
            pc as int,
            condback_loop(old(m)@, op, pc as int, back as int, exit as int, hi as int, block(old(out)@)),
            final(m)@,
            block(final(out)@),
        ),
        final(m)@.proto == old(m)@.proto,
    decreases size(pc as int, hi as int), 1nat, 0nat,
{
    m.flush_inline(out);
    let mut body: Vec<Stmt> = Vec::new();
    assert(block(body@) =~= Seq::<StmtV>::empty());
    let mut pend: Option<(u8, Expr, String)> = None;
    emit_range(m, pc, back, &mut body, &mut pend, Some((pc, exit)));
    let cond = negate(taken_condition(m, op, back));
    m.flush_inline(&mut body);
    push_last(out, Stmt::Repeat { body, cond });
    Some(exit)
}

fn find_else(p: &Proto, lo: usize, t: usize, hi: usize, ctx: Option<(usize, usize)>) -> (r: Option<(usize, usize)>)
    requires
        t <= hi <= p.code.len(),
        p.code.len() + 255 <= usize::MAX,
    ensures
        ctx_of(r) == else_end(*p, lo as int, t as int, hi as int, ctx_of(ctx)),
        r matches Some((last, end)) ==> lo <= last < t < end <= hi,
{
    match last_instr_before(p, lo, t) {
        Some(last) => {
            if p.op(last) != Some(Opcode::Jump) {
                return None;
            }
            match p.target(last) {
                Some(end) => {
                    if end > t && end <= hi && keyword_of(Some(end), ctx).is_none() {
                        Some((last, end))
                    } else {
                        None
                    }
                },
                None => None,
            }
        },
        None => None,
    }
}

fn try_if(
    m: &mut Machine,
    op: Opcode,
    pc: usize,
    hi: usize,
    out: &mut Vec<Stmt>,
    ctx: Option<(usize, usize)>,
) -> (r: Option<usize>)
    requires
        pc < hi <= old(m)@.proto.code.len(),
        addressable(old(m)@),
    ensures
        attempt_ok(
            r,
            pc as int,
            if_stmt(old(m)@, op, pc as int, hi as int, block(old(out)@), ctx_of(ctx)),
            final(m)@,
            block(final(out)@),
        ),
        final(m)@.proto == old(m)@.proto,
    decreases size(pc as int, hi as int), 1nat, 0nat,
{
    let p = m.proto();
    let t = match p.target(pc) {
        Some(t) => t,
        None => {
            return None;
        },
    };
    if t <= pc || t > hi {
        return None;
    }
    let lo: usize = p.after(pc);
    match find_else(p, lo, t, hi, ctx) {
        Some((last, end)) => {
            let cond = fallthrough_condition(m, op, pc);
            m.flush_inline(out);
            let then_body = emit_body(m, lo, last, ctx);
            let else_body = emit_body(m, t, end, ctx);
            push_last(out, Stmt::If { cond, then_body, else_body });
            Some(end)
        },
        None => {
            let cond = fallthrough_condition(m, op, pc);
            m.flush_inline(out);
            let then_body = emit_body(m, lo, t, ctx);
            push_last(out, if_then(cond, then_body));
            Some(t)
        },
    }
}

/// Jumps that stand in the range, in ascending order.
pub open spec fn jumps_ok(p: Proto, jumps: Seq<usize>, pc: int, hi: int) -> bool {
    forall|i: int| 0 <= i < jumps.len() ==> pc <= #[trigger] jumps[i] < hi && op_at(p, jumps[i] as int) is Some
}

fn pass_condition(m: &Machine, jumps: &Vec<usize>, i: usize) -> (r: Expr)
    requires
        i < jumps.len(),
        jumps_ok(m@.proto, jumps@, 0, m@.proto.code.len() as int),
    ensures
        r@ == pass_at(m@, ints(jumps@), i as int),
{
    let j: usize = jumps[i];
    assert(ints(jumps@)[i as int] == j);
    assert(jumps@[i as int] < m@.proto.code.len());
    match m.proto().op(j) {
        Some(op) => {
            if i == jumps.len() - 1 {
                taken_condition(m, op, j)
            } else {
                fallthrough_condition(m, op, j)
            }
        },
        None => Expr::Nil,
    }
}

fn all_pass_condition(m: &Machine, jumps: &Vec<usize>) -> (r: Expr)
    requires
        jumps.len() > 0,
        jumps_ok(m@.proto, jumps@, 0, m@.proto.code.len() as int),
    ensures
        r@ == all_pass(m@, ints(jumps@), jumps.len() as int),
{
    let mut e = pass_condition(m, jumps, 0);
    let mut k: usize = 1;
    while k < jumps.len()
        invariant
            1 <= k <= jumps.len(),
            jumps_ok(m@.proto, jumps@, 0, m@.proto.code.len() as int),
            e@ == all_pass(m@, ints(jumps@), k as int),
        decreases jumps.len() - k,
    {
        e = binary_expr("and", e, pass_condition(m, jumps, k));
        k += 1;
    }
    e
}

fn guard_condition(m: &Machine, j: usize, guard: usize) -> (r: Expr)
    requires
        j < m@.proto.code.len(),
    ensures
        r@ == (match op_at(m@.proto, j as int) {
            Some(op) => if target_at(m@.proto, j as int) == Some(guard as int) {
                taken(m@, op, j as int)
            } else {
                not_taken(m@, op, j as int)
            },
            None => ExprV::Nil,
        }),
{
    let p = m.proto();
    match p.op(j) {
        Some(op) => {
            if let Some(t) = p.target(j) {
                if t == guard {
                    return taken_condition(m, op, j);
                }
            }
            fallthrough_condition(m, op, j)
        },
        None => Expr::Nil,
    }
}

/// Appends a block.
fn push_block(out: &mut Vec<Stmt>, more: Vec<Stmt>)
    ensures
        block(final(out)@) == block(old(out)@) + block(more@),
{
    let mut rest = more;
    let ghost o = out@;
    out.append(&mut rest);
    assert(block(out@) =~= block(o) + block(more@));
}

fn emit_guards(
    m: &mut Machine,
    jumps: &Vec<usize>,
    guard: usize,
    body: &Vec<Stmt>,
    pc: usize,
    hi: usize,
    out: &mut Vec<Stmt>,
    ctx: Option<(usize, usize)>,
)
    requires
        pc < hi <= old(m)@.proto.code.len(),
        addressable(old(m)@),
        jumps_ok(old(m)@.proto, jumps@, pc as int, hi as int),
    ensures
        ({
            let g = guards(
                old(m)@,
                ints(jumps@),
                0,
                guard as int,
                block(body@),
                pc as int,
                hi as int,
                block(old(out)@),
                ctx_of(ctx),
            );
            final(m)@ == g.m && block(final(out)@) == g.body
        }),
        final(m)@.proto == old(m)@.proto,
    decreases size(pc as int, hi as int), 0nat, 0nat,
{
    let p = m.proto();
    let ghost v = ints(jumps@);
    let n: usize = jumps.len();
    let ghost whole = guards(m@, v, 0, guard as int, block(body@), pc as int, hi as int, block(out@), ctx_of(ctx));
    let mut i: usize = 0;
    while i < n
        invariant
            i <= n,
            n == jumps.len(),
            v == ints(jumps@),
            pc < hi <= p.code.len(),
            m@.proto == *p,
            old(m)@.proto == *p,
            addressable(m@),
            jumps_ok(*p, jumps@, pc as int, hi as int),
            whole == guards(
                old(m)@,
                v,
                0,
                guard as int,
                block(body@),
                pc as int,
                hi as int,
                block(old(out)@),
                ctx_of(ctx),
            ),
            whole == guards(
                m@,
                v,
                i as int,
                guard as int,
                block(body@),
                pc as int,
                hi as int,
                block(out@),
                ctx_of(ctx),
            ),
        decreases n - i,
    {
        let j: usize = jumps[i];
        assert(v[i as int] == jumps@[i as int] as int);
        assert(pc <= jumps@[i as int] < hi);
        let cond = guard_condition(m, j, guard);
        push_last(out, if_then(cond, clone_block(body)));
        let after: usize = p.after(j);
        if i + 1 < n && after != jumps[i + 1] {
            assert(v[i + 1] == jumps@[i + 1] as int);
            assert(pc <= jumps@[i + 1] < hi);
            let between = emit_body(m, after, jumps[i + 1], ctx);
            push_block(out, between);
        }
        i += 1;
    }
}

fn emit_fallback_guards(
    m: &mut Machine,
    jumps: &Vec<usize>,
    guard: usize,
    pc: usize,
    hi: usize,
    out: &mut Vec<Stmt>,
    ctx: Option<(usize, usize)>,
) -> (r: Option<usize>)
    requires
        pc < hi <= old(m)@.proto.code.len(),
        addressable(old(m)@),
        jumps.len() > 0,
        jumps_ok(old(m)@.proto, jumps@, pc as int, hi as int),
        pc < guard,
    ensures
        attempt_ok(
            r,
            pc as int,
            fallback_guards(
                old(m)@,
                ints(jumps@),
                guard as int,
                pc as int,
                hi as int,
                block(old(out)@),
                ctx_of(ctx),
            ),
            final(m)@,
            block(final(out)@),
        ),
        final(m)@.proto == old(m)@.proto,
    decreases size(pc as int, hi as int), 1nat, 0nat,
{
    let p = m.proto();
    let ghost v = ints(jumps@);
    let n: usize = jumps.len();
    let last: usize = jumps[n - 1];
    assert(v.last() == jumps@[n - 1] as int);
    assert(pc <= jumps@[n - 1] < hi);
    let start: usize = p.after(last);
    if !jumps_lead_to(p, jumps, n, guard) || start >= guard || guard > hi || !block_is_terminated(p, guard, hi, ctx) {
        return None;
    }
    m.flush_inline(out);
    let body = emit_body(m, guard, hi, ctx);
    emit_guards(m, jumps, guard, &body, pc, hi, out, ctx);
    let accepted = emit_body(m, start, guard, ctx);
    push_block(out, accepted);
    Some(hi)
}

fn nest_tests(
    m: &mut Machine,
    jumps: &Vec<usize>,
    lo: usize,
    other: &Vec<Stmt>,
    pc: usize,
    hi: usize,
    body: Vec<Stmt>,
    ctx: Option<(usize, usize)>,
) -> (r: Vec<Stmt>)
    requires
        pc < hi <= old(m)@.proto.code.len(),
        addressable(old(m)@),
        jumps_ok(old(m)@.proto, jumps@, pc as int, hi as int),
        lo <= hi,
    ensures
        ({
            let s = nested_tests(
                old(m)@,
                ints(jumps@),
                jumps.len() as int,
                lo as int,
                block(other@),
                pc as int,
                hi as int,
                block(body@),
                ctx_of(ctx),
            );
            final(m)@ == s.m && block(r@) == s.body
        }),
        final(m)@.proto == old(m)@.proto,
    decreases size(pc as int, hi as int), 0nat, 0nat,
{
    let p = m.proto();
    let ghost v = ints(jumps@);
    let n: usize = jumps.len();
    let ghost b0 = block(body@);
    let ghost whole = nested_tests(
        m@,
        v,
        n as int,
        lo as int,
        block(other@),
        pc as int,
        hi as int,
        b0,
        ctx_of(ctx),
    );
    let mut inner = body;
    let mut k: usize = n;
    while k > 0
        invariant
            k <= n,
            n == jumps.len(),
            v == ints(jumps@),
            pc < hi <= p.code.len(),
            lo <= hi,
            m@.proto == *p,
            old(m)@.proto == *p,
            addressable(m@),
            jumps_ok(*p, jumps@, pc as int, hi as int),
            whole == nested_tests(
                old(m)@,
                v,
                n as int,
                lo as int,
                block(other@),
                pc as int,
                hi as int,
                b0,
                ctx_of(ctx),
            ),
            whole == nested_tests(
                m@,
                v,
                k as int,
                lo as int,
                block(other@),
                pc as int,
                hi as int,
                block(inner@),
                ctx_of(ctx),
            ),
        decreases k,
    {
        let j: usize = jumps[k - 1];
        assert(v[k - 1] == jumps@[k - 1] as int);
        assert(pc <= jumps@[k - 1] < hi);
        let after: usize = p.after(j);
        let next: usize = if k < n {
            assert(pc <= jumps@[k as int] < hi);
            assert(v[k as int] == jumps@[k as int] as int);
            jumps[k]
        } else {
            lo
        };
        if after < next {
            let mut between = emit_body(m, after, next, ctx);
            push_block(&mut between, inner);
            inner = between;
        }
        let cond = match p.op(j) {
            Some(op) => taken_condition(m, op, j),
            None => Expr::Nil,
        };
        inner = one(Stmt::If { cond, then_body: clone_block(other), else_body: inner });
        k -= 1;
    }
    inner
}

fn try_all_jumps_to_else_join(
    m: &mut Machine,
    jumps: &Vec<usize>,
    start: usize,
    pc: usize,
    hi: usize,
    out: &mut Vec<Stmt>,
    ctx: Option<(usize, usize)>,
) -> (r: Option<usize>)
    requires
        pc < hi <= old(m)@.proto.code.len(),
        addressable(old(m)@),
        jumps.len() > 0,
        jumps_ok(old(m)@.proto, jumps@, pc as int, hi as int),
        pc < start,
    ensures
        attempt_ok(
            r,
            pc as int,
            else_join(
                old(m)@,
                ints(jumps@),
                start as int,
                pc as int,
                hi as int,
                block(old(out)@),
                ctx_of(ctx),
            ),
            final(m)@,
            block(final(out)@),
        ),
        final(m)@.proto == old(m)@.proto,
    decreases size(pc as int, hi as int), 1nat, 0nat,
{
    let p = m.proto();
    let ghost v = ints(jumps@);
    let n: usize = jumps.len();
    let last_jump: usize = jumps[n - 1];
    assert(v.last() == jumps@[n - 1] as int);
    assert(pc <= jumps@[n - 1] < hi);
    let lo: usize = p.after(last_jump);
    if start > hi {
        return None;
    }
    match find_else(p, lo, start, hi, ctx) {
        Some((last, end)) => {
            if !jumps_lead_to(p, jumps, n, start) {
                return None;
            }
            m.flush_inline(out);
            let accepted = emit_body(m, lo, last, ctx);
            let other = emit_body(m, start, end, ctx);
            assert(block(accepted@).len() == accepted@.len());
            assert(block(other@).len() == other@.len());
            if accepted.len() == 0 && other.len() == 0 {
                return None;
            }
            let body = nest_tests(m, jumps, lo, &other, pc, hi, accepted, ctx);
            push_block(out, body);
            Some(end)
        },
        None => None,
    }
}

fn try_guard_chain(
    m: &mut Machine,
    pc: usize,
    hi: usize,
    out: &mut Vec<Stmt>,
    ctx: Option<(usize, usize)>,
) -> (r: Option<usize>)
    requires
        pc < hi <= old(m)@.proto.code.len(),
        addressable(old(m)@),
    ensures
        attempt_ok(
            r,
            pc as int,
            guard_chain(old(m)@, pc as int, hi as int, block(old(out)@), ctx_of(ctx)),
            final(m)@,
            block(final(out)@),
        ),
        final(m)@.proto == old(m)@.proto,
    decreases size(pc as int, hi as int), 2nat, 0nat,
{
    let p = m.proto();
    let jumps = match chain_jumps(p, pc, hi) {
        Some(j) => j,
        None => {
            return None;
        },
    };
    let guard = match p.target(pc) {
        Some(g) => g,
        None => {
            return None;
        },
    };
    let ghost v = ints(jumps@);
    let n: usize = jumps.len();
    assert(v.len() == n);
    if n < 2 || guard <= pc {
        return None;
    }
    assert(jumps_ok(*p, jumps@, pc as int, hi as int));
    assert(v.last() == jumps@[n - 1] as int);
    let end = match p.target(jumps[n - 1]) {
        Some(e) => e,
        None => {
            return None;
        },
    };
    if end == guard {
        if let Some(next) = try_all_jumps_to_else_join(m, &jumps, guard, pc, hi, out, ctx) {
            return Some(next);
        }
        return emit_fallback_guards(m, &jumps, guard, pc, hi, out, ctx);
    }
    if end <= guard || end > hi || !jumps_lead_to(p, &jumps, n - 1, guard) {
        return None;
    }
    if p.after(jumps[n - 1]) != guard || !block_is_terminated(p, guard, end, ctx) {
        return None;
    }
    if has_intervening(p, &jumps) {
        m.flush_inline(out);
        let body = emit_body(m, guard, end, ctx);
        emit_guards(m, &jumps, guard, &body, pc, hi, out, ctx);
        Some(end)
    } else {
        m.flush_inline(out);
        assert(jumps_ok(*p, jumps@, 0, p.code.len() as int)) by {
            assert forall|i: int| 0 <= i < jumps.len() implies 0 <= #[trigger] jumps@[i] < p.code.len() && op_at(
                *p,
                jumps@[i] as int,
            ) is Some by {
                assert(pc <= jumps@[i] < hi);
            }
        }
        let cond = not_expr(all_pass_condition(m, &jumps));
        let body = emit_body(m, guard, end, ctx);
        push_last(out, if_then(cond, body));
        Some(end)
    }
}

// ---- edges ----------------------------------------------------------------------------------------------------

/// Whether nothing is remembered of any register.
pub open spec fn blank(m: MachineV) -> bool {
    forall|r: int| 0 <= r < m.regs.len() ==> (#[trigger] m.regs[r]) is None
}

/// A block that is read on its own leaves nothing remembered.
pub proof fn bodies_leave_nothing(m: MachineV, lo: int, hi: int, ctx: LoopCtx)
    ensures
        blank(body_of(m, lo, hi, ctx).m),
{
}

/// Nothing is remembered at a label: control may come from elsewhere.
pub proof fn labels_leave_nothing(m: MachineV, pc: int, out: Block)
    ensures
        label_at(m.proto, pc) is Some ==> blank(labelled(m, pc, out).m),
{
}

proof fn names_dropped_regs(m: MachineV, a: u8, n: nat)
    ensures
        names_dropped(m, a, n).regs == m.regs,
    decreases n,
{
    if n > 0 {
        names_dropped_regs(m, a, (n - 1) as nat);
    }
}

proof fn guards_leave_nothing(
    m: MachineV,
    jumps: Seq<int>,
    i: int,
    guard: int,
    body: Block,
    pc: int,
    hi: int,
    out: Block,
    ctx: LoopCtx,
)
    requires
        blank(m),
    ensures
        blank(guards(m, jumps, i, guard, body, pc, hi, out, ctx).m),
    decreases jumps.len() - i,
{
    if 0 <= i < jumps.len() {
        let j = jumps[i];
        let cond = match op_at(m.proto, j) {
            Some(op) => if target_at(m.proto, j) == Some(guard) {
                taken(m, op, j)
            } else {
                not_taken(m, op, j)
            },
            None => ExprV::Nil,
        };
        let next = out.push(spec_if(cond, body));
        let after = j + len_at(m.proto, j);
        if i + 1 < jumps.len() && after != jumps[i + 1] && pc < after && jumps[i + 1] < hi && pc < hi {
            let b = body_of(m, after, jumps[i + 1], ctx);
            bodies_leave_nothing(m, after, jumps[i + 1], ctx);
            guards_leave_nothing(b.m, jumps, i + 1, guard, body, pc, hi, next + b.body, ctx);
        } else {
            guards_leave_nothing(m, jumps, i + 1, guard, body, pc, hi, next, ctx);
        }
    }
}

proof fn nested_tests_leave_nothing(
    m: MachineV,
    jumps: Seq<int>,
    k: int,
    lo: int,
    other: Block,
    pc: int,
    hi: int,
    body: Block,
    ctx: LoopCtx,
)
    requires
        blank(m),
    ensures
        blank(nested_tests(m, jumps, k, lo, other, pc, hi, body, ctx).m),
    decreases k,
{
    if 0 < k <= jumps.len() {
        let j = jumps[k - 1];
        let after = j + len_at(m.proto, j);
        let next = if k < jumps.len() {
            jumps[k]
        } else {
            lo
        };
        let b = if pc < after < next <= hi {
            let i = body_of(m, after, next, ctx);
            BodyV { m: i.m, body: i.body + body }
        } else {
            BodyV { m, body }
        };
        if pc < after < next <= hi {
            bodies_leave_nothing(m, after, next, ctx);
        }
        let cond = match op_at(m.proto, j) {
            Some(op) => taken(b.m, op, j),
            None => ExprV::Nil,
        };
        nested_tests_leave_nothing(
            b.m,
            jumps,
            k - 1,
            lo,
            other,
            pc,
            hi,
            seq![StmtV::If { cond, then_body: other, else_body: b.body }],
            ctx,
        );
    }
}

proof fn else_join_leaves_nothing(m: MachineV, jumps: Seq<int>, start: int, pc: int, hi: int, out: Block, ctx: LoopCtx)
    ensures
        else_join(m, jumps, start, pc, hi, out, ctx).next is Some ==> blank(
            else_join(m, jumps, start, pc, hi, out, ctx).m,
        ),
{
    let p = m.proto;
    let lo = jumps.last() + len_at(p, jumps.last());
    if else_join(m, jumps, start, pc, hi, out, ctx).next is Some {
        let (last, end) = else_end(p, lo, start, hi, ctx)->Some_0;
        let a = body_of(forgotten(m), lo, last, ctx);
        let e = body_of(a.m, start, end, ctx);
        bodies_leave_nothing(a.m, start, end, ctx);
        nested_tests_leave_nothing(e.m, jumps, jumps.len() as int, lo, e.body, pc, hi, a.body, ctx);
    }
}

proof fn guard_chain_leaves_nothing(m: MachineV, pc: int, hi: int, out: Block, ctx: LoopCtx)
    ensures
        guard_chain(m, pc, hi, out, ctx).next is Some ==> blank(guard_chain(m, pc, hi, out, ctx).m),
{
    let p = m.proto;
    if guard_chain(m, pc, hi, out, ctx).next is Some {
        let jumps = chain(p, pc, hi)->Some_0;
        let guard = target_at(p, pc)->Some_0;
        let end = target_at(p, jumps.last())->Some_0;
        if end == guard {
            let t = else_join(m, jumps, guard, pc, hi, out, ctx);
            else_join_leaves_nothing(m, jumps, guard, pc, hi, out, ctx);
            if t.next is None {
                let start = jumps.last() + len_at(t.m.proto, jumps.last());
                let g = body_of(forgotten(t.m), guard, hi, ctx);
                let s = guards(g.m, jumps, 0, guard, g.body, pc, hi, settled(t.m, t.out), ctx);
                bodies_leave_nothing(s.m, start, guard, ctx);
            }
        } else {
            let g = body_of(forgotten(m), guard, end, ctx);
            bodies_leave_nothing(forgotten(m), guard, end, ctx);
            if apart(p, jumps) {
                guards_leave_nothing(g.m, jumps, 0, guard, g.body, pc, hi, settled(m, out), ctx);
            }
        }
    }
}

proof fn branched_leaves_nothing(m: MachineV, op: Opcode, pc: int, hi: int, out: Block, ctx: LoopCtx, header: bool)
    ensures
        branched(m, op, pc, hi, out, ctx, header).next is Some && !stores_outcome(m.proto, pc, hi) ==> blank(
            branched(m, op, pc, hi, out, ctx, header).m,
        ),
{
    let t = loop_exit(m, op, pc, out, ctx);
    if t.next is None && conditional(op) {
        let u = stored_outcome(t.m, op, pc, hi, t.out);
        if u.next is None && !header {
            guard_chain_leaves_nothing(u.m, pc, hi, u.out, ctx);
            let v = guard_chain(u.m, pc, hi, u.out, ctx);
            if v.next is None {
                let r = if_stmt(v.m, op, pc, hi, v.out, ctx);
                if r.next is Some {
                    let p = v.m.proto;
                    let e = target_at(p, pc)->Some_0;
                    let lo = pc + len_at(p, pc);
                    match else_end(p, lo, e, hi, ctx) {
                        Some((last, end)) => {
                            let b = body_of(forgotten(v.m), lo, last, ctx);
                            bodies_leave_nothing(b.m, e, end, ctx);
                        },
                        None => {
                            bodies_leave_nothing(forgotten(v.m), lo, e, ctx);
                        },
                    }
                }
            }
        }
    }
}

proof fn looped_leaves_nothing(m: MachineV, pc: int, hi: int, out: Block)
    ensures
        looped(m, pc, hi, out).next is Some ==> blank(looped(m, pc, hi, out).m),
{
    if looped(m, pc, hi, out).next is Some {
        let back = loop_at(m, pc)->Some_0;
        let op = op_at(m.proto, back)->Some_0;
        let exit = back + len_at(m.proto, back);
        let n = with_loop(m, pc, None);
        if op == Opcode::JumpBack {
            let p = n.proto;
            match loop_test(p, pc, back, exit) {
                Some(t) => {
                    let after = t + len_at(p, t);
                    if !(after == back && t > pc) {
                        let s = setup(n, pc, t, Seq::empty(), None);
                        bodies_leave_nothing(forgotten(s.m), after, back, Some((pc, exit)));
                    }
                },
                None => {
                    bodies_leave_nothing(forgotten(n), pc, back, Some((pc, exit)));
                },
            }
        }
    }
}

proof fn for_leaves_nothing(m: MachineV, pc: int, hi: int, out: Block)
    ensures
        numeric_for(m, pc, hi, out).next is Some ==> blank(numeric_for(m, pc, hi, out).m),
        generic_for(m, pc, hi, out).next is Some ==> blank(generic_for(m, pc, hi, out).m),
{
    let p = m.proto;
    let a = p.code@[pc].a;
    if numeric_for(m, pc, hi, out).next is Some {
        let exit = target_at(p, pc)->Some_0;
        let last = exit - 1;
        let v = wrap8(a + 2);
        let m1 = range_forgotten(loop_var_named(m, v, pc + 1), a, 3);
        let n = with_name(forgotten(m1), v, Some(loop_var(m, v, pc + 1)));
        bodies_leave_nothing(n, pc + 1, last, Some((last, exit)));
    }
    if generic_for(m, pc, hi, out).next is Some {
        let last = target_at(p, pc)->Some_0;
        let count = aux_at(p, last).raw as u8;
        let m1 = range_forgotten(m, a, (count + 3) as nat);
        let (m2, names) = vars_named(forgotten(m1), wrap8(a + 3), pc + 1, count as nat);
        let b = body_of(m2, pc + 1, last, Some((last, last + 2)));
        bodies_leave_nothing(m2, pc + 1, last, Some((last, last + 2)));
        names_dropped_regs(b.m, wrap8(a + 3), count as nat);
    }
}

pub proof fn setup_keeps(m: MachineV, q: int, end: int, out: Block, pend: PendingV)
    ensures
        setup(m, q, end, out, pend).m.proto == m.proto,
    decreases size(q, end),
{
    if q < end {
        if let Some(op) = op_at(m.proto, q) {
            let s = stepped(m, op, q, pend);
            stepped_keeps(m, op, q, pend);
            setup_keeps(s.m, q + len_at(m.proto, q), end, out + s.out, s.pend);
        }
    }
}

proof fn failed_loop_keeps(m: MachineV, pc: int, hi: int, out: Block)
    ensures
        looped(m, pc, hi, out).next is None ==> looped(m, pc, hi, out).m.proto == m.proto,
{
    if let Some(back) = loop_at(m, pc) {
        if let Some(op) = op_at(m.proto, back) {
            let exit = back + len_at(m.proto, back);
            let n = with_loop(m, pc, None);
            if op == Opcode::JumpBack {
                if let Some(t) = loop_test(n.proto, pc, back, exit) {
                    setup_keeps(n, pc, t, Seq::empty(), None);
                }
            }
        }
    }
}

proof fn failed_for_keeps(m: MachineV, pc: int, hi: int, out: Block)
    ensures
        numeric_for(m, pc, hi, out).next is None ==> numeric_for(m, pc, hi, out) == failed(m, out),
        generic_for(m, pc, hi, out).next is None ==> generic_for(m, pc, hi, out) == failed(m, out),
{
}

/// Nothing is remembered behind a loop, a branch or a jump out of a loop, so no value crosses an
/// edge of the control flow; a test whose outcome is only stored is no such edge.
pub proof fn edges_leave_nothing(m: MachineV, op: Opcode, pc: int, hi: int, out: Block, ctx: LoopCtx)
    ensures
        structured(m, op, pc, hi, out, ctx).next is Some && !stores_outcome(m.proto, pc, hi) ==> blank(
            structured(m, op, pc, hi, out, ctx).m,
        ),
{
    for_leaves_nothing(m, pc, hi, out);
    failed_for_keeps(m, pc, hi, out);
    looped_leaves_nothing(m, pc, hi, out);
    failed_loop_keeps(m, pc, hi, out);
    let u = looped(m, pc, hi, out);
    branched_leaves_nothing(u.m, op, pc, hi, u.out, ctx, true);
    branched_leaves_nothing(m, op, pc, hi, out, ctx, false);
}

// ---- one function -------------------------------------------------------------------------------------------

pub proof fn vars_named_keeps(m: MachineV, a: u8, pc: int, n: nat)
    ensures
        vars_named(m, a, pc, n).0.proto == m.proto,
    decreases n,
{
    if n > 0 {
        vars_named_keeps(m, a, pc, (n - 1) as nat);
    }
}

proof fn names_dropped_keeps(m: MachineV, a: u8, n: nat)
    ensures
        names_dropped(m, a, n).proto == m.proto,
    decreases n,
{
    if n > 0 {
        names_dropped_keeps(m, a, (n - 1) as nat);
    }
}

pub proof fn range_forgotten_keeps(m: MachineV, a: u8, n: nat)
    ensures
        range_forgotten(m, a, n).proto == m.proto,
    decreases n,
{
    if n > 0 {
        range_forgotten_keeps(m, a, (n - 1) as nat);
    }
}

/// Reading a range goes on in the same function.
pub proof fn emitted_keeps(m: MachineV, lo: int, hi: int, out: Block, pend: PendingV, ctx: LoopCtx)
    ensures
        emitted(m, lo, hi, out, pend, ctx).m.proto == m.proto,
    decreases size(lo, hi), 5nat, 0nat,
{
    if 0 <= lo < hi {
        match op_at(m.proto, lo) {
            None => {
                emitted_keeps(m, lo + 1, hi, out, pend, ctx);
            },
            Some(op) => {
                let t = structured(m, op, lo, hi, out, ctx);
                structured_keeps(m, op, lo, hi, out, ctx);
                match t.next {
                    Some(n) => {
                        if n > lo {
                            emitted_keeps(t.m, n, hi, t.out, pend, ctx);
                        }
                    },
                    None => {
                        let l = labelled(t.m, lo, t.out);
                        let s = stepped(l.m, op, lo, pend);
                        stepped_keeps(l.m, op, lo, pend);
                        emitted_keeps(s.m, lo + len_at(m.proto, lo), hi, l.body + s.out, s.pend, ctx);
                    },
                }
            },
        }
    }
}

/// Reading a block goes on in the same function.
pub proof fn body_of_keeps(m: MachineV, lo: int, hi: int, ctx: LoopCtx)
    ensures
        body_of(m, lo, hi, ctx).m.proto == m.proto,
    decreases size(lo, hi), 6nat, 0nat,
{
    emitted_keeps(m, lo, hi, Seq::empty(), None, ctx);
}

proof fn structured_keeps(m: MachineV, op: Opcode, pc: int, hi: int, out: Block, ctx: LoopCtx)
    requires
        0 <= pc < hi,
    ensures
        structured(m, op, pc, hi, out, ctx).m.proto == m.proto,
    decreases size(pc, hi), 4nat, 0nat,
{
    let t = if op == Opcode::ForNPrep {
        numeric_for(m, pc, hi, out)
    } else if for_in_prep(op) {
        generic_for(m, pc, hi, out)
    } else {
        failed(m, out)
    };
    if op == Opcode::ForNPrep {
        numeric_for_keeps(m, pc, hi, out);
    } else if for_in_prep(op) {
        generic_for_keeps(m, pc, hi, out);
    }
    if t.next is None {
        if loop_at(t.m, pc) is Some {
            let u = looped(t.m, pc, hi, t.out);
            looped_keeps(t.m, pc, hi, t.out);
            branched_keeps(u.m, op, pc, hi, u.out, ctx, true);
        } else {
            branched_keeps(t.m, op, pc, hi, t.out, ctx, false);
        }
    }
}

proof fn numeric_for_keeps(m: MachineV, pc: int, hi: int, out: Block)
    requires
        0 <= pc < hi,
    ensures
        numeric_for(m, pc, hi, out).m.proto == m.proto,
    decreases size(pc, hi), 1nat, 0nat,
{
    let p = m.proto;
    if let Some(exit) = target_at(p, pc) {
        let last = exit - 1;
        if !(exit > hi || last <= pc || op_at(p, last) != Some(Opcode::ForNLoop) || target_at(p, last) != Some(pc + 1)) {
            let a = p.code@[pc].a;
            let v = wrap8(a + 2);
            let name = loop_var(m, v, pc + 1);
            let m1 = range_forgotten(loop_var_named(m, v, pc + 1), a, 3);
            range_forgotten_keeps(loop_var_named(m, v, pc + 1), a, 3);
            body_of_keeps(with_name(forgotten(m1), v, Some(name)), pc + 1, last, Some((last, exit)));
        }
    }
}

proof fn generic_for_keeps(m: MachineV, pc: int, hi: int, out: Block)
    requires
        0 <= pc < hi,
    ensures
        generic_for(m, pc, hi, out).m.proto == m.proto,
    decreases size(pc, hi), 1nat, 0nat,
{
    let p = m.proto;
    if let Some(last) = target_at(p, pc) {
        let count = aux_at(p, last).raw as u8;
        if !(last <= pc || last >= hi || op_at(p, last) != Some(Opcode::ForGLoop) || count == 0) {
            let a = p.code@[pc].a;
            let m1 = range_forgotten(m, a, (count + 3) as nat);
            range_forgotten_keeps(m, a, (count + 3) as nat);
            let m2 = vars_named(forgotten(m1), wrap8(a + 3), pc + 1, count as nat).0;
            vars_named_keeps(forgotten(m1), wrap8(a + 3), pc + 1, count as nat);
            let b = body_of(m2, pc + 1, last, Some((last, last + 2)));
            body_of_keeps(m2, pc + 1, last, Some((last, last + 2)));
            names_dropped_keeps(b.m, wrap8(a + 3), count as nat);
        }
    }
}

proof fn looped_keeps(m: MachineV, pc: int, hi: int, out: Block)
    requires
        0 <= pc < hi,
    ensures
        looped(m, pc, hi, out).m.proto == m.proto,
    decreases size(pc, hi), 2nat, 0nat,
{
    if let Some(back) = loop_at(m, pc) {
        if let Some(op) = op_at(m.proto, back) {
            if !(back >= hi || back < pc) {
                let exit = back + len_at(m.proto, back);
                let n = with_loop(m, pc, None);
                if op == Opcode::JumpBack {
                    jumpback_keeps(n, pc, back, exit, hi, out);
                } else if conditional(op) {
                    emitted_keeps(forgotten(n), pc, back, Seq::empty(), None, Some((pc, exit)));
                }
            }
        }
    }
}

proof fn jumpback_keeps(m: MachineV, pc: int, back: int, exit: int, hi: int, out: Block)
    requires
        0 <= pc <= back < hi,
    ensures
        jumpback_loop(m, pc, back, exit, hi, out).m.proto == m.proto,
    decreases size(pc, hi), 1nat, 0nat,
{
    let p = m.proto;
    match loop_test(p, pc, back, exit) {
        Some(t) => {
            if op_at(p, t) is Some && pc <= t < back {
                let after = t + len_at(p, t);
                if after == back && t > pc {
                    emitted_keeps(forgotten(m), pc, t, Seq::empty(), None, Some((pc, exit)));
                } else {
                    let s = setup(m, pc, t, Seq::empty(), None);
                    setup_keeps(m, pc, t, Seq::empty(), None);
                    body_of_keeps(forgotten(s.m), after, back, Some((pc, exit)));
                }
            }
        },
        None => {
            body_of_keeps(forgotten(m), pc, back, Some((pc, exit)));
        },
    }
}

proof fn branched_keeps(m: MachineV, op: Opcode, pc: int, hi: int, out: Block, ctx: LoopCtx, header: bool)
    requires
        0 <= pc < hi,
    ensures
        branched(m, op, pc, hi, out, ctx, header).m.proto == m.proto,
    decreases size(pc, hi), 3nat, 0nat,
{
    let t = loop_exit(m, op, pc, out, ctx);
    let u = stored_outcome(t.m, op, pc, hi, t.out);
    if !(t.next is Some || !conditional(op)) && !(u.next is Some || header) {
        let v = guard_chain(u.m, pc, hi, u.out, ctx);
        guard_chain_keeps(u.m, pc, hi, u.out, ctx);
        if_stmt_keeps(v.m, op, pc, hi, v.out, ctx);
    }
}

proof fn if_stmt_keeps(m: MachineV, op: Opcode, pc: int, hi: int, out: Block, ctx: LoopCtx)
    requires
        0 <= pc < hi,
    ensures
        if_stmt(m, op, pc, hi, out, ctx).m.proto == m.proto,
    decreases size(pc, hi), 1nat, 0nat,
{
    let p = m.proto;
    if let Some(t) = target_at(p, pc) {
        if !(t <= pc || t > hi) {
            let lo = pc + len_at(p, pc);
            match else_end(p, lo, t, hi, ctx) {
                Some((last, end)) => {
                    if !(last <= pc || last >= t || end <= t || end > hi) {
                        let b = body_of(forgotten(m), lo, last, ctx);
                        body_of_keeps(forgotten(m), lo, last, ctx);
                        body_of_keeps(b.m, t, end, ctx);
                    }
                },
                None => {
                    body_of_keeps(forgotten(m), lo, t, ctx);
                },
            }
        }
    }
}

proof fn guard_chain_keeps(m: MachineV, pc: int, hi: int, out: Block, ctx: LoopCtx)
    requires
        0 <= pc < hi,
    ensures
        guard_chain(m, pc, hi, out, ctx).m.proto == m.proto,
    decreases size(pc, hi), 2nat, 0nat,
{
    let p = m.proto;
    if let (Some(jumps), Some(guard)) = (chain(p, pc, hi), target_at(p, pc)) {
        if !(jumps.len() < 2 || guard <= pc) {
            if let Some(end) = target_at(p, jumps.last()) {
                if end == guard {
                    let t = else_join(m, jumps, guard, pc, hi, out, ctx);
                    else_join_keeps(m, jumps, guard, pc, hi, out, ctx);
                    fallback_guards_keeps(t.m, jumps, guard, pc, hi, t.out, ctx);
                } else if !(end <= guard || end > hi) {
                    let g = body_of(forgotten(m), guard, end, ctx);
                    body_of_keeps(forgotten(m), guard, end, ctx);
                    guards_keeps(g.m, jumps, 0, guard, g.body, pc, hi, settled(m, out), ctx);
                }
            }
        }
    }
}

proof fn guards_keeps(
    m: MachineV,
    jumps: Seq<int>,
    i: int,
    guard: int,
    body: Block,
    pc: int,
    hi: int,
    out: Block,
    ctx: LoopCtx,
)
    ensures
        guards(m, jumps, i, guard, body, pc, hi, out, ctx).m.proto == m.proto,
    decreases size(pc, hi), 0nat, jumps.len() - i,
{
    if 0 <= i < jumps.len() {
        let j = jumps[i];
        let cond = match op_at(m.proto, j) {
            Some(op) => if target_at(m.proto, j) == Some(guard) {
                taken(m, op, j)
            } else {
                not_taken(m, op, j)
            },
            None => ExprV::Nil,
        };
        let next = out.push(spec_if(cond, body));
        let after = j + len_at(m.proto, j);
        if i + 1 < jumps.len() && after != jumps[i + 1] && pc < after && jumps[i + 1] < hi && pc < hi {
            let b = body_of(m, after, jumps[i + 1], ctx);
            body_of_keeps(m, after, jumps[i + 1], ctx);
            guards_keeps(b.m, jumps, i + 1, guard, body, pc, hi, next + b.body, ctx);
        } else {
            guards_keeps(m, jumps, i + 1, guard, body, pc, hi, next, ctx);
        }
    }
}

proof fn fallback_guards_keeps(
    m: MachineV,
    jumps: Seq<int>,
    guard: int,
    pc: int,
    hi: int,
    out: Block,
    ctx: LoopCtx,
)
    requires
        0 <= pc < hi,
    ensures
        fallback_guards(m, jumps, guard, pc, hi, out, ctx).m.proto == m.proto,
    decreases size(pc, hi), 1nat, 0nat,
{
    let p = m.proto;
    let start = jumps.last() + len_at(p, jumps.last());
    if !(start >= guard || guard > hi || guard <= pc || start <= pc) {
        let g = body_of(forgotten(m), guard, hi, ctx);
        body_of_keeps(forgotten(m), guard, hi, ctx);
        let s = guards(g.m, jumps, 0, guard, g.body, pc, hi, settled(m, out), ctx);
        guards_keeps(g.m, jumps, 0, guard, g.body, pc, hi, settled(m, out), ctx);
        body_of_keeps(s.m, start, guard, ctx);
    }
}

proof fn else_join_keeps(m: MachineV, jumps: Seq<int>, start: int, pc: int, hi: int, out: Block, ctx: LoopCtx)
    requires
        0 <= pc < hi,
    ensures
        else_join(m, jumps, start, pc, hi, out, ctx).m.proto == m.proto,
    decreases size(pc, hi), 1nat, 0nat,
{
    let p = m.proto;
    let lo = jumps.last() + len_at(p, jumps.last());
    if let Some((last, end)) = else_end(p, lo, start, hi, ctx) {
        if !(lo <= pc || last < lo || last >= start || start <= pc || start > hi || end > hi) {
            let a = body_of(forgotten(m), lo, last, ctx);
            body_of_keeps(forgotten(m), lo, last, ctx);
            let e = body_of(a.m, start, end, ctx);
            body_of_keeps(a.m, start, end, ctx);
            nested_tests_keeps(e.m, jumps, jumps.len() as int, lo, e.body, pc, hi, a.body, ctx);
        }
    }
}

proof fn nested_tests_keeps(
    m: MachineV,
    jumps: Seq<int>,
    k: int,
    lo: int,
    other: Block,
    pc: int,
    hi: int,
    body: Block,
    ctx: LoopCtx,
)
    ensures
        nested_tests(m, jumps, k, lo, other, pc, hi, body, ctx).m.proto == m.proto,
    decreases size(pc, hi), 0nat, k,
{
    if 0 < k <= jumps.len() {
        let j = jumps[k - 1];
        let after = j + len_at(m.proto, j);
        let next = if k < jumps.len() {
            jumps[k]
        } else {
            lo
        };
        let b = if pc < after < next <= hi {
            let i = body_of(m, after, next, ctx);
            BodyV { m: i.m, body: i.body + body }
        } else {
            BodyV { m, body }
        };
        if pc < after < next <= hi {
            body_of_keeps(m, after, next, ctx);
        }
        let cond = match op_at(m.proto, j) {
            Some(op) => taken(b.m, op, j),
            None => ExprV::Nil,
        };
        nested_tests_keeps(
            b.m,
            jumps,
            k - 1,
            lo,
            other,
            pc,
            hi,
            seq![StmtV::If { cond, then_body: other, else_body: b.body }],
            ctx,
        );
    }
}

} // verus!
