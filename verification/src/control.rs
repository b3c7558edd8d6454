//! Loops and branches go where the jumps of the code go.
use vstd::prelude::*;

use crate::ast::{Block, ExprV, StmtV};
use crate::bytecode::{conditional, len_at, op_at, target_at, Opcode, Proto};
use crate::conditions::not_of;
use crate::machine::{flushed, flushed_from, forgotten, reg, reg_name, MachineV};
use crate::meaning::{
    eval, exec, lawful, run, run_concat, run_one, unary_val, with_var, EvalV, Lang, OutcomeV, RunV, StateV,
};
use crate::query::expr_reads;
use crate::structure::{
    all_lead_to, all_pass, body_of, body_of_keeps, else_end, else_join, guard_chain, guards, if_stmt, keyword_for,
    last_before, loop_exit, nested_tests, settled, stored_outcome, LoopCtx,
};
use crate::sweeps::assign;
use crate::text::Text;
use crate::vm::{
    agrees, apart, gives, names_register, outside_names, run_assign, spelled, test_constant_there, tests_agree,
    vm_jumps, VmV,
};

verus! {

// ---- where control goes -----------------------------------------------------------------------------------

/// Where control goes from the test at `pc`.
pub open spec fn lands(l: Lang, p: Proto, pc: int, vm: VmV) -> Option<int> {
    if vm_jumps(l, p, pc, vm) {
        target_at(p, pc)
    } else {
        Some(pc + len_at(p, pc))
    }
}

/// Whether the test at `pc` can be held against the machine.
pub open spec fn testable(l: Lang, m: MachineV, pc: int) -> bool {
    &&& lawful(l)
    &&& spelled(l, m.proto)
    &&& 0 <= pc < m.proto.code.len()
    &&& m.proto.code@[pc].op is Some && conditional(m.proto.code@[pc].op->Some_0)
    &&& test_constant_there(m.proto, pc)
    &&& outside_names(m, pc)
}

/// The branch of the `if` statement `s` that runs.
pub open spec fn arm(l: Lang, s: StmtV, st: StateV) -> Block {
    match s {
        StmtV::If { cond, then_body, else_body } => if (l.truthy)(eval(l, cond, st.env, st.w).v) {
            then_body
        } else {
            else_body
        },
        _ => Seq::empty(),
    }
}

/// Whether `b` is what is read from the code from `lo` up to `hi`.
#[verifier::opaque]
pub open spec fn is_code(p: Proto, b: Block, lo: int, hi: int, ctx: LoopCtx) -> bool {
    exists|m: MachineV| m.proto == p && b == (#[trigger] body_of(m, lo, hi, ctx)).body
}

/// What is read from a range is its code.
pub proof fn code_read(m: MachineV, lo: int, hi: int, ctx: LoopCtx)
    ensures
        is_code(m.proto, body_of(m, lo, hi, ctx).body, lo, hi, ctx),
{
    reveal(is_code);
}

/// Whether control gets from `hi` to `next`, at once or by a jump that stands there.
pub open spec fn goes_on(p: Proto, hi: int, next: int) -> bool {
    hi == next || (op_at(p, hi) == Some(Opcode::Jump) && target_at(p, hi) == Some(next))
}

/// Whether `b` is what runs from `start` until control gets to `next`.
pub open spec fn leads(p: Proto, b: Block, start: int, next: int, ctx: LoopCtx) -> bool {
    if start == next {
        b.len() == 0
    } else {
        exists|hi: int| #[trigger] is_code(p, b, start, hi, ctx) && goes_on(p, hi, next)
    }
}

// ---- what is remembered is written down -------------------------------------------------------------------

/// Writing down what is remembered from `r` on changes nothing but that it need not be remembered.
proof fn flush_from_agrees(l: Lang, m: MachineV, vm: VmV, st: StateV, r: int, fuel: nat)
    requires
        agrees(l, m, vm, st),
        apart(m),
        0 <= r <= m.regs.len() <= 256,
        forall|x: u8| x < r ==> #[trigger] (st.env)(reg_name(m, x)) == (vm.regs)(x),
    ensures
        ({
            let t = run(l, flushed_from(m, r), st, fuel);
            &&& t.out is Normal
            &&& agrees(l, m, vm, t.st)
            &&& forall|x: u8| x < m.regs.len() ==> #[trigger] (t.st.env)(reg_name(m, x)) == (vm.regs)(x)
        }),
    decreases m.regs.len() - r,
{
    if r < m.regs.len() {
        let x = r as u8;
        assert(gives(l, reg(m, x), st.env, (vm.regs)(x)));
        assert(eval(l, reg(m, x), st.env, st.w) == (EvalV { v: (vm.regs)(x), w: st.w }));
        assert(!reg_name(m, x).contains('.'));
        match m.regs[r] {
            Some(e) => {
                let n = reg_name(m, x);
                let s = assign(n, e);
                run_assign(l, n, e, st, fuel);
                run_concat(l, seq![s], flushed_from(m, r + 1), st, fuel);
                let v = (vm.regs)(x);
                let st2 = StateV { env: with_var(st.env, n, v), w: st.w };
                rewritten_agrees(l, m, vm, st, x);
                assert forall|y: u8| y < r + 1 implies #[trigger] (st2.env)(reg_name(m, y)) == (vm.regs)(y) by {
                    if y != x {
                        assert(reg_name(m, y) != reg_name(m, x));
                        assert((st.env)(reg_name(m, y)) == (vm.regs)(y));
                    }
                }
                flush_from_agrees(l, m, vm, st2, r + 1, fuel);
            },
            None => {
                assert forall|y: u8| y < r + 1 implies #[trigger] (st.env)(reg_name(m, y)) == (vm.regs)(y) by {
                    if y == x {
                        assert(reg(m, x) == ExprV::Var(reg_name(m, x)));
                    }
                }
                flush_from_agrees(l, m, vm, st, r + 1, fuel);
            },
        }
    } else {
        assert(run(l, Seq::<StmtV>::empty(), st, fuel).st == st);
    }
}

/// Assigning a register what it holds changes nothing.
proof fn rewritten_agrees(l: Lang, m: MachineV, vm: VmV, st: StateV, r: u8)
    requires
        agrees(l, m, vm, st),
        apart(m),
    ensures
        agrees(l, m, vm, StateV { env: with_var(st.env, reg_name(m, r), (vm.regs)(r)), w: st.w }),
{
    let n = reg_name(m, r);
    let v = (vm.regs)(r);
    let env = with_var(st.env, n, v);
    assert forall|x: u8| gives(l, #[trigger] reg(m, x), env, (vm.regs)(x)) by {
        assert(gives(l, reg(m, x), st.env, (vm.regs)(x)));
        assert(!reg_name(m, x).contains('.'));
        if x < m.regs.len() && m.regs[x as int] is Some {
            assert(expr_reads(m.regs[x as int]->Some_0, reg_name(m, r)) == 0);
            crate::vm::gives_still(l, reg(m, x), st.env, (vm.regs)(x), n, v);
        } else if x != r {
            assert(reg_name(m, x) != reg_name(m, r));
            crate::vm::gives_still(l, reg(m, x), st.env, (vm.regs)(x), n, v);
        } else {
            crate::vm::name_gives(l, n, env);
        }
    }
    assert forall|x: Text| !names_register(m, x) implies #[trigger] env(x) == (vm.vars)(x) by {
        assert(reg_name(m, r) == n);
        assert((st.env)(x) == (vm.vars)(x));
    }
}

/// Writing down what is remembered makes every register hold under its name what the machine has
/// in it, so that nothing needs to be remembered.
pub proof fn flushing_agrees(l: Lang, m: MachineV, vm: VmV, st: StateV, fuel: nat)
    requires
        agrees(l, m, vm, st),
        apart(m),
        m.regs.len() <= 256,
    ensures
        ({
            let t = run(l, flushed(m), st, fuel);
            &&& t.out is Normal
            &&& agrees(l, m, vm, t.st)
            &&& agrees(l, forgotten(m), vm, t.st)
        }),
{
    flush_from_agrees(l, m, vm, st, 0, fuel);
    let t = run(l, flushed(m), st, fuel).st;
    let n = forgotten(m);
    assert forall|x: u8| #[trigger] reg_name(n, x) == reg_name(m, x) by {}
    assert forall|x: u8| gives(l, #[trigger] reg(n, x), t.env, (vm.regs)(x)) by {
        assert(gives(l, reg(m, x), t.env, (vm.regs)(x)));
        assert(!reg_name(m, x).contains('.'));
        if x < m.regs.len() {
            assert(n.regs[x as int] is None);
            crate::vm::name_gives(l, reg_name(m, x), t.env);
            assert((t.env)(reg_name(m, x)) == (vm.regs)(x));
        }
    }
    assert forall|x: Text| !names_register(n, x) implies #[trigger] (t.env)(x) == (vm.vars)(x) by {
        if names_register(m, x) {
            let q = choose|q: u8| #[trigger] reg_name(m, q) == x;
            assert(reg_name(n, q) == x);
        }
    }
}

// ---- branches ---------------------------------------------------------------------------------------------

/// Of an `if` that is read from a test, the branch that runs is read from the code that control
/// goes to, whichever way the test turns out, and both branches end where reading goes on.
pub proof fn branches_agree(
    l: Lang,
    m: MachineV,
    op: Opcode,
    pc: int,
    hi: int,
    out: Block,
    ctx: LoopCtx,
    vm: VmV,
    st: StateV,
)
    requires
        testable(l, m, pc),
        m.proto.code@[pc].op == Some(op),
        agrees(l, m, vm, st),
    ensures
        ({
            let t = if_stmt(m, op, pc, hi, out, ctx);
            t.next matches Some(next) ==> {
                &&& t.out.len() > 0 && t.out.drop_last() == settled(m, out) && t.out.last() is If
                &&& eval(l, t.out.last()->cond, st.env, st.w).w == st.w
                &&& lands(l, m.proto, pc, vm) matches Some(start) && leads(
                    m.proto,
                    arm(l, t.out.last(), st),
                    start,
                    next,
                    ctx,
                )
            }
        }),
{
    let p = m.proto;
    let t = if_stmt(m, op, pc, hi, out, ctx);
    tests_agree(l, m, op, pc, vm, st);
    if let Some(next) = t.next {
        let target = target_at(p, pc)->Some_0;
        let lo = pc + len_at(p, pc);
        let b = body_of(forgotten(m), lo, if else_end(p, lo, target, hi, ctx) is Some {
            else_end(p, lo, target, hi, ctx)->Some_0.0
        } else {
            target
        }, ctx);
        assert(t.out.drop_last() =~= settled(m, out));
        body_keeps_proto(forgotten(m), lo, if else_end(p, lo, target, hi, ctx) is Some {
            else_end(p, lo, target, hi, ctx)->Some_0.0
        } else {
            target
        }, ctx);
        match else_end(p, lo, target, hi, ctx) {
            Some((last, end)) => {
                let c = body_of(b.m, target, end, ctx);
                code_read(forgotten(m), lo, last, ctx);
                code_read(b.m, target, end, ctx);
                assert(is_code(p, b.body, lo, last, ctx));
                assert(is_code(p, c.body, target, end, ctx));
                assert(goes_on(p, last, end));
                assert(leads(p, c.body, target, end, ctx));
                last_is_inside(p, lo, target);
                assert(leads(p, b.body, lo, end, ctx));
            },
            None => {
                code_read(forgotten(m), lo, target, ctx);
                assert(is_code(p, b.body, lo, target, ctx));
                if lo == target {
                    assert(b.body =~= flushed(forgotten(m)));
                    nothing_to_flush(forgotten(m), 0);
                }
                assert(leads(p, b.body, lo, target, ctx));
            },
        }
    }
}

/// Where nothing is remembered, nothing is written down.
proof fn nothing_to_flush(m: MachineV, r: int)
    requires
        0 <= r,
        forall|i: int| 0 <= i < m.regs.len() ==> (#[trigger] m.regs[i]) is None,
    ensures
        flushed_from(m, r).len() == 0,
    decreases m.regs.len() - r,
{
    if r < m.regs.len() {
        nothing_to_flush(m, r + 1);
    }
}

proof fn last_is_inside(p: Proto, q: int, end: int)
    ensures
        last_before(p, q, end) matches Some(x) ==> q <= x < end,
    decreases crate::structure::size(q, end),
{
    if q < end && op_at(p, q) is Some && q + len_at(p, q) != end {
        last_is_inside(p, q + len_at(p, q), end);
    }
}

/// Reading goes on in the same function.
proof fn body_keeps_proto(m: MachineV, lo: int, hi: int, ctx: LoopCtx)
    ensures
        body_of(m, lo, hi, ctx).m.proto == m.proto,
{
    crate::structure::body_of_keeps(m, lo, hi, ctx);
}

// ---- jumps out of loops -----------------------------------------------------------------------------------

/// A jump out of a loop, or to its next round, is taken exactly where the machine jumps there.
pub proof fn exits_agree(l: Lang, m: MachineV, op: Opcode, pc: int, out: Block, ctx: LoopCtx, vm: VmV, st: StateV, fuel: nat)
    requires
        agrees(l, m, vm, st),
        conditional(op) ==> testable(l, m, pc) && m.proto.code@[pc].op == Some(op),
    ensures
        ({
            let t = loop_exit(m, op, pc, out, ctx);
            t.next matches Some(next) ==> {
                let jumps = !conditional(op) || vm_jumps(l, m.proto, pc, vm);
                let r = exec(l, t.out.last(), st, fuel);
                &&& next == pc + len_at(m.proto, pc)
                &&& t.out.len() > 0 && t.out.drop_last() == settled(m, out)
                &&& r.st.w == st.w && r.st.env == st.env
                &&& !jumps ==> r.out is Normal
                &&& jumps ==> (ctx matches Some((cont, brk)) && target_at(m.proto, pc) == (if r.out is Break {
                    Some(brk)
                } else {
                    Some(cont)
                }) && (r.out is Break || r.out is Continue))
            }
        }),
{
    let t = loop_exit(m, op, pc, out, ctx);
    if t.next is Some {
        assert(t.out.drop_last() =~= settled(m, out));
        let kw = keyword_for(target_at(m.proto, pc), ctx)->Some_0;
        if conditional(op) && !(op == Opcode::Jump || op == Opcode::JumpBack) {
            tests_agree(l, m, op, pc, vm, st);
            run_one(l, kw, StateV { env: st.env, w: st.w }, fuel);
            assert(run(l, Seq::<StmtV>::empty(), st, fuel) == (RunV { out: OutcomeV::Normal, st }));
        }
    }
}

/// A test whose outcome is stored: what is stored counts as true where the load that control gets
/// to loads `true`. The first of the two loads skips the second.
pub proof fn outcomes_agree(l: Lang, m: MachineV, op: Opcode, pc: int, hi: int, out: Block, vm: VmV, st: StateV)
    requires
        agrees(l, m, vm, st),
        testable(l, m, pc),
        m.proto.code@[pc].op == Some(op),
    ensures
        ({
            let p = m.proto;
            let t = stored_outcome(m, op, pc, hi, out);
            t.next matches Some(next) ==> {
                &&& t.out.len() > 0 && t.out.drop_last() == out
                &&& lands(l, p, pc, vm) matches Some(q) && {
                    &&& op_at(p, q) == Some(Opcode::LoadB) && q + 1 + p.code@[q].c == next
                    &&& t.out.last() matches StmtV::Assign { targets, values } && {
                        &&& targets == seq![ExprV::Var(reg_name(m, p.code@[q].a))] && values.len() == 1
                        &&& (l.truthy)(eval(l, values[0], st.env, st.w).v) == (p.code@[q].b != 0)
                    }
                }
            }
        }),
{
    let t = stored_outcome(m, op, pc, hi, out);
    if t.next is Some {
        assert(t.out.drop_last() =~= out);
        tests_agree(l, m, op, pc, vm, st);
    }
}

// ---- several tests ----------------------------------------------------------------------------------------

/// Where control gets to from test number `i` of `jumps` on, where the tests follow each other at
/// once.
pub open spec fn walk(l: Lang, p: Proto, jumps: Seq<int>, i: int, vm: VmV) -> Option<int>
    decreases jumps.len() - i,
{
    if vm_jumps(l, p, jumps[i], vm) || i < 0 || i + 1 >= jumps.len() {
        lands(l, p, jumps[i], vm)
    } else {
        walk(l, p, jumps, i + 1, vm)
    }
}

/// Whether each of the tests can be held against the machine.
pub open spec fn all_testable(l: Lang, m: MachineV, jumps: Seq<int>) -> bool {
    forall|i: int| 0 <= i < jumps.len() ==> testable(l, m, #[trigger] jumps[i])
}

/// The first `k` tests are passed where none of them jumps, but for the last of all, which does.
pub open spec fn passes(l: Lang, p: Proto, jumps: Seq<int>, k: int, vm: VmV) -> bool {
    forall|i: int|
        0 <= i < k ==> vm_jumps(l, p, #[trigger] jumps[i], vm) == (i == jumps.len() - 1)
}

proof fn all_pass_agrees(l: Lang, m: MachineV, jumps: Seq<int>, k: int, vm: VmV, st: StateV)
    requires
        agrees(l, m, vm, st),
        all_testable(l, m, jumps),
        1 <= k <= jumps.len(),
    ensures
        (l.truthy)(eval(l, all_pass(m, jumps, k), st.env, st.w).v) == passes(l, m.proto, jumps, k, vm),
        eval(l, all_pass(m, jumps, k), st.env, st.w).w == st.w,
    decreases k,
{
    let p = m.proto;
    let j = jumps[k - 1];
    assert(testable(l, m, j));
    tests_agree(l, m, op_at(p, j)->Some_0, j, vm, st);
    crate::vm::comparison_literals();
    if k > 1 {
        all_pass_agrees(l, m, jumps, k - 1, vm, st);
        assert(passes(l, p, jumps, k, vm) == (passes(l, p, jumps, k - 1, vm) && (vm_jumps(l, p, j, vm) == (k - 1
            == jumps.len() - 1)))) by {
            if passes(l, p, jumps, k - 1, vm) && (vm_jumps(l, p, j, vm) == (k - 1 == jumps.len() - 1)) {
                assert forall|i: int| 0 <= i < k implies vm_jumps(l, p, #[trigger] jumps[i], vm) == (i == jumps.len()
                    - 1) by {}
            }
        }
    } else {
        assert(passes(l, p, jumps, 1, vm) == (vm_jumps(l, p, jumps[0], vm) == (jumps.len() == 1)));
    }
}

proof fn walk_passes(l: Lang, p: Proto, jumps: Seq<int>, i: int, guard: int, end: int, vm: VmV)
    requires
        0 <= i < jumps.len(),
        all_lead_to(p, jumps, jumps.len() - 1, guard),
        target_at(p, jumps.last()) == Some(end),
        jumps.last() + len_at(p, jumps.last()) == guard,
        guard != end,
    ensures
        walk(l, p, jumps, i, vm) == Some(guard) || walk(l, p, jumps, i, vm) == Some(end),
        walk(l, p, jumps, i, vm) == Some(end) <==> (forall|k: int|
            i <= k < jumps.len() ==> vm_jumps(l, p, #[trigger] jumps[k], vm) == (k == jumps.len() - 1)),
    decreases jumps.len() - i,
{
    let all = forall|k: int| i <= k < jumps.len() ==> vm_jumps(l, p, #[trigger] jumps[k], vm) == (k == jumps.len() - 1);
    if i + 1 < jumps.len() {
        assert(target_at(p, jumps[i]) == Some(guard));
        walk_passes(l, p, jumps, i + 1, guard, end, vm);
        let rest = forall|k: int|
            i + 1 <= k < jumps.len() ==> vm_jumps(l, p, #[trigger] jumps[k], vm) == (k == jumps.len() - 1);
        if vm_jumps(l, p, jumps[i], vm) {
            assert(!all);
        } else {
            if rest {
                assert forall|k: int| i <= k < jumps.len() implies vm_jumps(l, p, #[trigger] jumps[k], vm) == (k
                    == jumps.len() - 1) by {}
            }
            assert(all ==> rest);
        }
    } else {
        assert(jumps[i] == jumps.last());
    }
}

/// Of several tests in a row that guard one block, the guarded block runs exactly where control
/// gets to it from the first test on; where control gets past it, reading goes on there.
pub proof fn guards_agree(l: Lang, m: MachineV, pc: int, hi: int, out: Block, ctx: LoopCtx, vm: VmV, st: StateV)
    requires
        agrees(l, forgotten(m), vm, st),
        lawful(l),
        ({
            let jumps = crate::structure::chain(m.proto, pc, hi)->Some_0;
            &&& crate::structure::chain(m.proto, pc, hi) is Some && all_testable(l, forgotten(m), jumps)
            &&& !crate::structure::apart(m.proto, jumps)
            &&& jumps.len() > 0 && target_at(m.proto, jumps.last()) != target_at(m.proto, pc)
        }),
    ensures
        ({
            let p = m.proto;
            let jumps = crate::structure::chain(p, pc, hi)->Some_0;
            let t = guard_chain(m, pc, hi, out, ctx);
            t.next matches Some(next) ==> {
                &&& t.out.len() > 0 && t.out.last() is If && t.out.drop_last() == settled(m, out)
                &&& walk(l, p, jumps, 0, vm) matches Some(start) && leads(
                    p,
                    arm(l, t.out.last(), st),
                    start,
                    next,
                    ctx,
                )
            }
        }),
{
    let p = m.proto;
    let f = forgotten(m);
    let jumps = crate::structure::chain(p, pc, hi)->Some_0;
    let t = guard_chain(m, pc, hi, out, ctx);
    if t.next is Some {
        let guard = target_at(p, pc)->Some_0;
        let end = target_at(p, jumps.last())->Some_0;
        assert(t.out.drop_last() =~= settled(m, out));
        let g = body_of(f, guard, end, ctx);
        code_read(f, guard, end, ctx);
        all_pass_agrees(l, f, jumps, jumps.len() as int, vm, st);
        walk_passes(l, p, jumps, 0, guard, end, vm);
        let cond = not_of(all_pass(f, jumps, jumps.len() as int));
        assert(eval(l, cond, st.env, st.w).v == unary_val(
            l,
            "not "@,
            eval(l, all_pass(f, jumps, jumps.len() as int), st.env, st.w).v,
        ));
        assert(leads(p, g.body, guard, end, ctx));
    }
}

/// Whether the first `k` tests follow each other at once, and the last of all is followed by `lo`.
pub open spec fn in_a_row(p: Proto, jumps: Seq<int>, k: int, lo: int) -> bool {
    forall|i: int|
        0 <= i < k ==> #[trigger] jumps[i] + len_at(p, jumps[i]) == if i + 1 < jumps.len() {
            jumps[i + 1]
        } else {
            lo
        }
}

/// Whether one of the first `k` tests jumps.
pub open spec fn some_jump(l: Lang, p: Proto, jumps: Seq<int>, k: int, vm: VmV) -> bool {
    exists|i: int| 0 <= i < k && vm_jumps(l, p, #[trigger] jumps[i], vm)
}

/// Tests inside each other run the one block where a test jumps, and the other where none does.
proof fn nested_tests_agree(
    l: Lang,
    m: MachineV,
    jumps: Seq<int>,
    k: int,
    lo: int,
    other: Block,
    pc: int,
    hi: int,
    body: Block,
    ctx: LoopCtx,
    vm: VmV,
    st: StateV,
    fuel: nat,
)
    requires
        agrees(l, m, vm, st),
        all_testable(l, m, jumps),
        in_a_row(m.proto, jumps, jumps.len() as int, lo),
        0 <= k <= jumps.len(),
    ensures
        ({
            let n = nested_tests(m, jumps, k, lo, other, pc, hi, body, ctx).body;
            run(l, n, st, fuel) == run(
                l,
                if some_jump(l, m.proto, jumps, k, vm) {
                    other
                } else {
                    body
                },
                st,
                fuel,
            )
        }),
    decreases k,
{
    if k > 0 {
        let p = m.proto;
        let j = jumps[k - 1];
        let op = op_at(p, j)->Some_0;
        assert(testable(l, m, j));
        assert(j + len_at(p, j) == if k < jumps.len() {
            jumps[k]
        } else {
            lo
        });
        tests_agree(l, m, op, j, vm, st);
        let s = StmtV::If { cond: crate::step::taken(m, op, j), then_body: other, else_body: body };
        run_one(l, s, st, fuel);
        let a = eval(l, s->cond, st.env, st.w);
        assert(StateV { env: st.env, w: a.w } == st);
        nested_tests_agree(l, m, jumps, k - 1, lo, other, pc, hi, seq![s], ctx, vm, st, fuel);
        assert(some_jump(l, p, jumps, k, vm) == (some_jump(l, p, jumps, k - 1, vm) || vm_jumps(l, p, j, vm))) by {
            if some_jump(l, p, jumps, k, vm) && !vm_jumps(l, p, j, vm) {
                let i = choose|i: int| 0 <= i < k && vm_jumps(l, p, #[trigger] jumps[i], vm);
                assert(0 <= i < k - 1);
            }
            if some_jump(l, p, jumps, k - 1, vm) {
                let i = choose|i: int| 0 <= i < k - 1 && vm_jumps(l, p, #[trigger] jumps[i], vm);
                assert(vm_jumps(l, p, jumps[i], vm));
            }
            if vm_jumps(l, p, j, vm) {
                assert(vm_jumps(l, p, jumps[k - 1], vm));
            }
        }
    }
}

proof fn walk_joins(l: Lang, p: Proto, jumps: Seq<int>, i: int, start: int, vm: VmV)
    requires
        0 <= i < jumps.len(),
        all_lead_to(p, jumps, jumps.len() as int, start),
    ensures
        walk(l, p, jumps, i, vm) == if (exists|k: int| i <= k < jumps.len() && vm_jumps(l, p, #[trigger] jumps[k], vm)) {
            Some(start)
        } else {
            Some(jumps.last() + len_at(p, jumps.last()))
        },
    decreases jumps.len() - i,
{
    assert(target_at(p, jumps[i]) == Some(start));
    let some = exists|k: int| i <= k < jumps.len() && vm_jumps(l, p, #[trigger] jumps[k], vm);
    if vm_jumps(l, p, jumps[i], vm) {
        assert(some);
    } else if i + 1 < jumps.len() {
        walk_joins(l, p, jumps, i + 1, start, vm);
        let rest = exists|k: int| i + 1 <= k < jumps.len() && vm_jumps(l, p, #[trigger] jumps[k], vm);
        if some {
            let k = choose|k: int| i <= k < jumps.len() && vm_jumps(l, p, #[trigger] jumps[k], vm);
            assert(i + 1 <= k);
            assert(rest);
        }
    } else {
        assert(jumps[i] == jumps.last());
    }
}

/// What an `else` that several tests lead to is written as.
proof fn join_shape(m: MachineV, jumps: Seq<int>, start: int, pc: int, hi: int, out: Block, ctx: LoopCtx)
    ensures
        ({
            let p = m.proto;
            let t = else_join(m, jumps, start, pc, hi, out, ctx);
            let lo = jumps.last() + len_at(p, jumps.last());
            let end = else_end(p, lo, start, hi, ctx)->Some_0;
            let a = body_of(forgotten(m), lo, end.0, ctx);
            let e = body_of(a.m, start, end.1, ctx);
            t.next matches Some(next) ==> {
                &&& else_end(p, lo, start, hi, ctx) is Some && next == end.1
                &&& lo <= end.0 < start < end.1
                &&& all_lead_to(p, jumps, jumps.len() as int, start)
                &&& t.out == settled(m, out) + nested_tests(
                    e.m,
                    jumps,
                    jumps.len() as int,
                    lo,
                    e.body,
                    pc,
                    hi,
                    a.body,
                    ctx,
                ).body
            }
        }),
{
}

/// What an `else` that several tests lead to runs, of given blocks.
proof fn join_runs(
    l: Lang,
    n: MachineV,
    jumps: Seq<int>,
    start: int,
    last: int,
    end: int,
    pc: int,
    hi: int,
    a: Block,
    e: Block,
    ctx: LoopCtx,
    vm: VmV,
    st: StateV,
    fuel: nat,
) -> (b: Block)
    requires
        jumps.len() > 0,
        agrees(l, n, vm, st),
        all_testable(l, n, jumps),
        ({
            let lo = jumps.last() + len_at(n.proto, jumps.last());
            &&& in_a_row(n.proto, jumps, jumps.len() as int, lo)
            &&& is_code(n.proto, a, lo, last, ctx)
            &&& lo <= last < start < end
        }),
        all_lead_to(n.proto, jumps, jumps.len() as int, start),
        is_code(n.proto, e, start, end, ctx),
        goes_on(n.proto, last, end),
    ensures
        walk(l, n.proto, jumps, 0, vm) is Some,
        leads(n.proto, b, walk(l, n.proto, jumps, 0, vm)->Some_0, end, ctx),
        ({
            let lo = jumps.last() + len_at(n.proto, jumps.last());
            run(l, nested_tests(n, jumps, jumps.len() as int, lo, e, pc, hi, a, ctx).body, st, fuel) == run(l, b, st, fuel)
        }),
{
    let p = n.proto;
    let k = jumps.len() as int;
    let lo = jumps.last() + len_at(p, jumps.last());
    nested_tests_agree(l, n, jumps, k, lo, e, pc, hi, a, ctx, vm, st, fuel);
    walk_joins(l, p, jumps, 0, start, vm);
    assert(leads(p, a, lo, end, ctx));
    assert(leads(p, e, start, end, ctx));
    assert(some_jump(l, p, jumps, k, vm) == (exists|i: int|
        0 <= i < jumps.len() && vm_jumps(l, p, #[trigger] jumps[i], vm)));
    if some_jump(l, p, jumps, k, vm) {
        e
    } else {
        a
    }
}

/// Of several tests in a row that all lead to one `else`, what runs is read from the code that
/// control gets to from the first test on, and it ends where reading goes on. The machine that has
/// to agree is the one that is known where the tests are written.
pub proof fn joins_agree(
    l: Lang,
    m: MachineV,
    jumps: Seq<int>,
    start: int,
    pc: int,
    hi: int,
    out: Block,
    ctx: LoopCtx,
    vm: VmV,
    st: StateV,
    fuel: nat,
) -> (b: Block)
    requires
        jumps.len() > 0,
        else_join(m, jumps, start, pc, hi, out, ctx).next is Some,
        ({
            let p = m.proto;
            let lo = jumps.last() + len_at(p, jumps.last());
            let end = else_end(p, lo, start, hi, ctx)->Some_0;
            let n = body_of(body_of(forgotten(m), lo, end.0, ctx).m, start, end.1, ctx).m;
            &&& agrees(l, n, vm, st) && all_testable(l, n, jumps)
            &&& in_a_row(p, jumps, jumps.len() as int, lo)
        }),
    ensures
        ({
            let p = m.proto;
            let t = else_join(m, jumps, start, pc, hi, out, ctx);
            let before = settled(m, out);
            &&& t.out.len() >= before.len() && t.out.take(before.len() as int) == before
            &&& walk(l, p, jumps, 0, vm) is Some
            &&& leads(p, b, walk(l, p, jumps, 0, vm)->Some_0, t.next->Some_0, ctx)
            &&& run(l, t.out.skip(before.len() as int), st, fuel) == run(l, b, st, fuel)
        }),
{
    let p = m.proto;
    let t = else_join(m, jumps, start, pc, hi, out, ctx);
    let lo = jumps.last() + len_at(p, jumps.last());
    join_shape(m, jumps, start, pc, hi, out, ctx);
    let (last, end) = else_end(p, lo, start, hi, ctx)->Some_0;
    let f = forgotten(m);
    let a = body_of(f, lo, last, ctx);
    let e = body_of(a.m, start, end, ctx);
    body_of_keeps(f, lo, last, ctx);
    body_of_keeps(a.m, start, end, ctx);
    code_read(f, lo, last, ctx);
    code_read(a.m, start, end, ctx);
    else_goes_on(p, lo, start, hi, ctx);
    let before = settled(m, out);
    let nest = nested_tests(e.m, jumps, jumps.len() as int, lo, e.body, pc, hi, a.body, ctx).body;
    assert(t.out.take(before.len() as int) =~= before);
    assert(t.out.skip(before.len() as int) =~= nest);
    join_runs(l, e.m, jumps, start, last, end, pc, hi, a.body, e.body, ctx, vm, st, fuel)
}

/// Code that ends before an `else` goes on after it.
proof fn else_goes_on(p: Proto, lo: int, start: int, hi: int, ctx: LoopCtx)
    ensures
        else_end(p, lo, start, hi, ctx) matches Some(end) ==> goes_on(p, end.0, end.1),
{
    last_is_inside(p, lo, start);
}

/// Whether control gets from the test at `j` to `guard`.
pub open spec fn goes_to(l: Lang, p: Proto, j: int, guard: int, vm: VmV) -> bool {
    lands(l, p, j, vm) == Some(guard)
}

/// Tests one after the other, each before a copy of the guarded block, which control cannot get
/// past: the block runs exactly where control gets to it from one of the tests, and otherwise
/// nothing happens.
pub proof fn guards_in_a_row_agree(
    l: Lang,
    m: MachineV,
    jumps: Seq<int>,
    i: int,
    guard: int,
    body: Block,
    pc: int,
    hi: int,
    out: Block,
    ctx: LoopCtx,
    vm: VmV,
    begin: StateV,
    fuel: nat,
)
    requires
        0 <= i <= jumps.len(),
        agrees(l, m, vm, run(l, out, begin, fuel).st),
        run(l, out, begin, fuel).out is Normal,
        all_testable(l, m, jumps),
        in_a_row(m.proto, jumps, jumps.len() - 1, guard),
        forall|k: int|
            0 <= k < jumps.len() ==> (target_at(m.proto, #[trigger] jumps[k]) == Some(guard)) != (jumps[k] + len_at(
                m.proto,
                jumps[k],
            ) == guard),
        !(run(l, body, run(l, out, begin, fuel).st, fuel).out is Normal),
    ensures
        ({
            let st = run(l, out, begin, fuel).st;
            let g = guards(m, jumps, i, guard, body, pc, hi, out, ctx);
            run(l, g.body, begin, fuel) == if (exists|k: int|
                i <= k < jumps.len() && goes_to(l, m.proto, #[trigger] jumps[k], guard, vm)) {
                run(l, body, st, fuel)
            } else {
                run(l, out, begin, fuel)
            }
        }),
    decreases jumps.len() - i,
{
    let p = m.proto;
    let some = exists|k: int| i <= k < jumps.len() && goes_to(l, p, #[trigger] jumps[k], guard, vm);
    if i < jumps.len() {
        let st = run(l, out, begin, fuel).st;
        let j = jumps[i];
        let op = op_at(p, j)->Some_0;
        assert(testable(l, m, j));
        tests_agree(l, m, op, j, vm, st);
        let leading = target_at(p, j) == Some(guard);
        let cond = if leading {
            crate::step::taken(m, op, j)
        } else {
            crate::step::not_taken(m, op, j)
        };
        let s = crate::ast::spec_if(cond, body);
        let next = out.push(s);
        assert((l.truthy)(eval(l, cond, st.env, st.w).v) == goes_to(l, p, j, guard, vm));
        assert(StateV { env: st.env, w: eval(l, cond, st.env, st.w).w } == st);
        assert(next.drop_last() =~= out);
        assert(next.last() == s);
        assert(run(l, Seq::<StmtV>::empty(), st, fuel) == (RunV { out: OutcomeV::Normal, st }));
        assert(s == StmtV::If { cond, then_body: body, else_body: Seq::empty() });
        assert(exec(l, s, st, fuel) == if goes_to(l, p, j, guard, vm) {
            run(l, body, st, fuel)
        } else {
            RunV { out: OutcomeV::Normal, st }
        });
        if i + 1 < jumps.len() {
            assert(j + len_at(p, j) == jumps[i + 1]);
        }
        if goes_to(l, p, j, guard, vm) {
            assert(some);
            assert(run(l, next, begin, fuel) == run(l, body, st, fuel));
            stuck_guards(l, m, jumps, i + 1, guard, body, pc, hi, next, ctx, begin, fuel);
        } else {
            assert(run(l, next, begin, fuel) == run(l, out, begin, fuel));
            guards_in_a_row_agree(l, m, jumps, i + 1, guard, body, pc, hi, next, ctx, vm, begin, fuel);
            if some {
                let k = choose|k: int| i <= k < jumps.len() && goes_to(l, p, #[trigger] jumps[k], guard, vm);
                assert(i + 1 <= k);
            }
        }
    }
}

/// What comes after a block that control cannot get past does not run.
proof fn stuck_guards(
    l: Lang,
    m: MachineV,
    jumps: Seq<int>,
    i: int,
    guard: int,
    body: Block,
    pc: int,
    hi: int,
    out: Block,
    ctx: LoopCtx,
    begin: StateV,
    fuel: nat,
)
    requires
        0 <= i <= jumps.len(),
        in_a_row(m.proto, jumps, jumps.len() - 1, guard),
        !(run(l, out, begin, fuel).out is Normal),
    ensures
        run(l, guards(m, jumps, i, guard, body, pc, hi, out, ctx).body, begin, fuel) == run(
            l,
            out,
            begin,
            fuel,
        ),
    decreases jumps.len() - i,
{
    if i < jumps.len() {
        let p = m.proto;
        let j = jumps[i];
        let cond = match op_at(p, j) {
            Some(op) => if target_at(p, j) == Some(guard) {
                crate::step::taken(m, op, j)
            } else {
                crate::step::not_taken(m, op, j)
            },
            None => ExprV::Nil,
        };
        let next = out.push(crate::ast::spec_if(cond, body));
        assert(next.drop_last() =~= out);
        if i + 1 < jumps.len() {
            assert(j + len_at(p, j) == jumps[i + 1]);
        }
        stuck_guards(l, m, jumps, i + 1, guard, body, pc, hi, next, ctx, begin, fuel);
    }
}

} // verus!
