//! Loops repeat the code that the jumps of the code repeat.
use vstd::prelude::*;

use crate::ast::{Block, ExprV, LoopHead, StmtV};
use crate::bytecode::{conditional, len_at, op_at, target_at, Opcode, Proto};
use crate::conditions::opposite;
use crate::control::{code_read, is_code, testable};
use crate::machine::{forgotten, loop_var, reg, reg_name, with_name, MachineV};
use crate::meaning::{begun, eval, eval_all, EvalV, Lang, RoundV, StateV};
use crate::step::{not_taken, range_forgotten, taken, wrap8};
use crate::structure::{
    body_of, condback_loop, emitted, generic_for, iterator_call, jumpback_loop, loop_test, numeric_for, setup,
};
use crate::vm::{agrees, gives, tests_agree, vm_jumps, VmV};

verus! {

/// A numeric `for` counts from what the machine has as the index up to its limit, by its step. Its
/// body is read from the code between the two instructions of the loop, where the variable is the
/// index register. `continue` leads to the second of them, and `break` behind it.
pub proof fn numeric_loops_agree(l: Lang, m: MachineV, pc: int, hi: int, out: Block, vm: VmV, st: StateV)
    requires
        agrees(l, m, vm, st),
        m.names.len() == 256,
    ensures
        ({
            let p = m.proto;
            let t = numeric_for(m, pc, hi, out);
            let a = p.code@[pc].a;
            t.next matches Some(next) ==> {
                &&& target_at(p, pc) == Some(next) && op_at(p, next - 1) == Some(Opcode::ForNLoop) && target_at(
                    p,
                    next - 1,
                ) == Some(pc + 1)
                &&& t.out.len() > 0
                &&& t.out.last() matches StmtV::Loop { head, body } && {
                    &&& begun(l, head, st).0 == (RoundV::Count {
                        at: (vm.regs)(wrap8(a + 2)),
                        limit: (vm.regs)(a),
                        step: (vm.regs)(wrap8(a + 1)),
                    })
                    &&& begun(l, head, st).1.w == st.w
                    &&& exists|n: MachineV|
                        n.proto == p && body == (#[trigger] body_of(n, pc + 1, next - 1, Some((next - 1, next)))).body
                            && (head matches LoopHead::Numeric { var, .. } && reg_name(n, wrap8(a + 2)) == var)
                }
            }
        }),
{
    let p = m.proto;
    let t = numeric_for(m, pc, hi, out);
    let a = p.code@[pc].a;
    if let Some(next) = t.next {
        let v = wrap8(a + 2);
        let s = wrap8(a + 1);
        assert(gives(l, reg(m, v), st.env, (vm.regs)(v)));
        assert(gives(l, reg(m, a), st.env, (vm.regs)(a)));
        assert(gives(l, reg(m, s), st.env, (vm.regs)(s)));
        assert(eval(l, reg(m, v), st.env, st.w) == (EvalV { v: (vm.regs)(v), w: st.w }));
        assert(eval(l, reg(m, a), st.env, st.w) == (EvalV { v: (vm.regs)(a), w: st.w }));
        assert(eval(l, reg(m, s), st.env, st.w) == (EvalV { v: (vm.regs)(s), w: st.w }));
        let name = loop_var(m, v, pc + 1);
        let m0 = crate::machine::loop_var_named(m, v, pc + 1);
        let m1 = range_forgotten(m0, a, 3);
        crate::structure::range_forgotten_keeps(m0, a, 3);
        range_forgotten_names_kept(m0, a, 3);
        let n = with_name(forgotten(m1), v, Some(name));
        let b = body_of(n, pc + 1, next - 1, Some((next - 1, next)));
        assert(t.out.last() == StmtV::Loop {
            head: LoopHead::Numeric {
                var: name,
                start: reg(m, v),
                limit: reg(m, a),
                step: Some(reg(m, s)),
            },
            body: b.body,
        });
        assert(n.proto == p && reg_name(n, v) == name);
    }
}

proof fn range_forgotten_names_kept(m: MachineV, a: u8, n: nat)
    ensures
        range_forgotten(m, a, n).names == m.names,
    decreases n,
{
    if n > 0 {
        range_forgotten_names_kept(m, a, (n - 1) as nat);
    }
}

/// Whether `s` is a generic `for` over `call`, where there is one, and over three registers
/// otherwise, whose body is read from the code from `lo` to `last`.
pub open spec fn iterating(
    l: Lang,
    p: Proto,
    s: StmtV,
    call: Option<ExprV>,
    a: u8,
    lo: int,
    last: int,
    vm: VmV,
    st: StateV,
) -> bool {
    match s {
        StmtV::Loop { head: LoopHead::Generic { exprs, .. }, body } => iterates(l, exprs, call, a, vm, st) && is_code(
            p,
            body,
            lo,
            last,
            Some((last, last + 2)),
        ),
        _ => false,
    }
}

/// A generic `for` iterates over the three registers of its setup, or over the call that filled
/// them. Its body is read from the code between setup and loop instruction; `continue` leads to the
/// loop instruction, and `break` behind it.
pub proof fn generic_loops_agree(l: Lang, m: MachineV, pc: int, hi: int, out: Block, vm: VmV, st: StateV)
    requires
        agrees(l, m, vm, st),
    ensures
        ({
            let p = m.proto;
            let t = generic_for(m, pc, hi, out);
            let a = p.code@[pc].a;
            t.next matches Some(next) ==> {
                &&& target_at(p, pc) == Some(next - 2) && op_at(p, next - 2) == Some(Opcode::ForGLoop)
                &&& t.out.len() > 0
                &&& iterating(l, p, t.out.last(), iterator_call(m, a, out), a, pc + 1, next - 2, vm, st)
            }
        }),
{
    generic_for_shape(m, pc, hi, out);
    if let Some(next) = generic_for(m, pc, hi, out).next {
        exprs_iterated(l, m, m.proto.code@[pc].a, out, vm, st);
        generic_stmt_iterates(l, m, pc, next - 2, out, vm, st);
    }
}

/// What a generic `for` iterates over.
pub open spec fn iterated(m: MachineV, a: u8, out: Block) -> Seq<ExprV> {
    match iterator_call(m, a, out) {
        Some(e) => seq![e],
        None => seq![reg(m, a), reg(m, wrap8(a + 1)), reg(m, wrap8(a + 2))],
    }
}

proof fn exprs_iterated(l: Lang, m: MachineV, a: u8, out: Block, vm: VmV, st: StateV)
    requires
        agrees(l, m, vm, st),
    ensures
        iterates(l, iterated(m, a, out), iterator_call(m, a, out), a, vm, st),
{
    registers_iterated(l, m, a, vm, st);
    reveal(iterates);
}

proof fn generic_stmt_iterates(l: Lang, m: MachineV, pc: int, last: int, out: Block, vm: VmV, st: StateV)
    requires
        iterates(l, iterated(m, m.proto.code@[pc].a, out), iterator_call(m, m.proto.code@[pc].a, out), m.proto.code@[
            pc].a, vm, st),
    ensures
        ({
            let a = m.proto.code@[pc].a;
            let s = generic_stmt(m, a, pc, last, out);
            iterating(l, m.proto, s, iterator_call(m, a, out), a, pc + 1, last, vm, st)
        }),
{
    let a = m.proto.code@[pc].a;
    let s = generic_stmt(m, a, pc, last, out);
    generic_body_keeps(m, pc, last);
    code_read(generic_body(m, pc, last), pc + 1, last, Some((last, last + 2)));
    iterating_intro(l, m.proto, s, iterator_call(m, a, out), a, pc + 1, last, vm, st);
}

proof fn iterating_intro(
    l: Lang,
    p: Proto,
    s: StmtV,
    call: Option<ExprV>,
    a: u8,
    lo: int,
    last: int,
    vm: VmV,
    st: StateV,
)
    requires
        s is Loop && s->head is Generic,
        iterates(l, s->head->exprs, call, a, vm, st),
        is_code(p, s->Loop_body, lo, last, Some((last, last + 2))),
    ensures
        iterating(l, p, s, call, a, lo, last, vm, st),
{
}

/// The generic `for` whose loop instruction stands at `last`.
pub open spec fn generic_stmt(m: MachineV, a: u8, pc: int, last: int, out: Block) -> StmtV {
    let count = crate::bytecode::aux_at(m.proto, last).raw as u8;
    StmtV::Loop {
        head: LoopHead::Generic {
            vars: crate::structure::vars_named(
                forgotten(range_forgotten(m, a, (count + 3) as nat)),
                wrap8(a + 3),
                pc + 1,
                count as nat,
            ).1,
            exprs: iterated(m, a, out),
        },
        body: body_of(generic_body(m, pc, last), pc + 1, last, Some((last, last + 2))).body,
    }
}

/// What is known of the machine where the body of a generic `for` begins.
pub open spec fn generic_body(m: MachineV, pc: int, last: int) -> MachineV {
    let a = m.proto.code@[pc].a;
    let count = crate::bytecode::aux_at(m.proto, last).raw as u8;
    crate::structure::vars_named(
        forgotten(range_forgotten(m, a, (count + 3) as nat)),
        wrap8(a + 3),
        pc + 1,
        count as nat,
    ).0
}

proof fn generic_body_keeps(m: MachineV, pc: int, last: int)
    ensures
        generic_body(m, pc, last).proto == m.proto,
{
    let a = m.proto.code@[pc].a;
    let count = crate::bytecode::aux_at(m.proto, last).raw as u8;
    let m1 = range_forgotten(m, a, (count + 3) as nat);
    crate::structure::range_forgotten_keeps(m, a, (count + 3) as nat);
    crate::structure::vars_named_keeps(forgotten(m1), wrap8(a + 3), pc + 1, count as nat);
}

proof fn generic_for_shape(m: MachineV, pc: int, hi: int, out: Block)
    ensures
        ({
            let p = m.proto;
            let a = p.code@[pc].a;
            let t = generic_for(m, pc, hi, out);
            t.next matches Some(next) ==> {
                &&& target_at(p, pc) == Some(next - 2) && op_at(p, next - 2) == Some(Opcode::ForGLoop)
                &&& t.out.len() > 0
                &&& t.out.last() == generic_stmt(m, a, pc, next - 2, out)
            }
        }),
{
    let a = m.proto.code@[pc].a;
    match iterator_call(m, a, out) {
        Some(e) => {},
        None => {},
    }
}

/// Whether a generic `for` iterates over `call`, where there is one, and over three registers
/// otherwise.
#[verifier::opaque]
pub open spec fn iterates(l: Lang, es: Seq<ExprV>, call: Option<ExprV>, a: u8, vm: VmV, st: StateV) -> bool {
    match call {
        Some(e) => es == seq![e],
        None => eval_all(l, es, st.env, st.w).vs == seq![
            (vm.regs)(a),
            (vm.regs)(wrap8(a + 1)),
            (vm.regs)(wrap8(a + 2)),
        ],
    }
}

proof fn registers_iterated(l: Lang, m: MachineV, a: u8, vm: VmV, st: StateV)
    requires
        agrees(l, m, vm, st),
    ensures
        iterates(l, seq![reg(m, a), reg(m, wrap8(a + 1)), reg(m, wrap8(a + 2))], None, a, vm, st),
{
    reveal(iterates);
    let es = seq![reg(m, a), reg(m, wrap8(a + 1)), reg(m, wrap8(a + 2))];
    assert(wrap8(a + 0) == a);
    assert(es =~= crate::step::reg_list(m, a as int, 3));
    crate::vm::list_read(l, m, vm, st, a as int, 3, st.w);
    assert(crate::vm::vm_list(vm, a as int, 3) =~= seq![
        (vm.regs)(a),
        (vm.regs)(wrap8(a + 1)),
        (vm.regs)(wrap8(a + 2)),
    ]);
}

proof fn loop_test_found(p: Proto, q: int, hi: int, exit: int)
    requires
        0 <= q,
    ensures
        loop_test(p, q, hi, exit) matches Some(t) ==> q <= t < hi && op_at(p, t) is Some && conditional(
            op_at(p, t)->Some_0,
        ) && target_at(p, t) == Some(exit),
    decreases crate::structure::size(q, hi),
{
    if q < hi && op_at(p, q) is Some {
        loop_test_found(p, q + len_at(p, q), hi, exit);
    }
}

/// Whether the loop from `pc` to `back` repeats `body`, the code up to the test at `q`, until `c`,
/// which holds where that test jumps to `exit`; `n` is what is known of the machine at the test.
pub open spec fn repeats_until(
    l: Lang,
    p: Proto,
    c: ExprV,
    body: Block,
    pc: int,
    back: int,
    exit: int,
    q: int,
    n: MachineV,
) -> bool {
    &&& n.proto == p && target_at(p, q) == Some(exit) && q + len_at(p, q) == back
    &&& is_code(p, body, pc, q, Some((pc, exit)))
    &&& tests_at(l, c, n, q, true)
}

/// Whether the loop from `pc` to `back` repeats `body`, the code behind the test at `q`, while `c`,
/// which holds where that test does not jump to `exit`; `n` is what is known of the machine at the
/// test.
pub open spec fn repeats_while(
    l: Lang,
    p: Proto,
    c: ExprV,
    body: Block,
    pc: int,
    back: int,
    exit: int,
    q: int,
    n: MachineV,
) -> bool {
    &&& n.proto == p && target_at(p, q) == Some(exit) && pc <= q
    &&& is_code(p, body, q + len_at(p, q), back, Some((pc, exit)))
    &&& tests_at(l, c, n, q, false)
}

/// Whether `s` is a loop over the code from `pc` to `back`: a `repeat`, a `while`, or one without
/// end.
pub open spec fn looping(l: Lang, p: Proto, s: StmtV, pc: int, back: int, exit: int) -> bool {
    match s {
        StmtV::Loop { head: LoopHead::Repeat(c), body } => exists|q: int, n: MachineV|
            #[trigger] repeats_until(l, p, c, body, pc, back, exit, q, n),
        StmtV::Loop { head: LoopHead::While(c), body } => (c == ExprV::Bool(true) && is_code(
            p,
            body,
            pc,
            back,
            Some((pc, exit)),
        )) || exists|q: int, n: MachineV| #[trigger] repeats_while(l, p, c, body, pc, back, exit, q, n),
        _ => false,
    }
}

/// A loop that jumps back unconditionally from `back` to `pc`. As a `repeat` it has its test right
/// before the jump and is left where the test jumps behind the loop. As a `while` it makes another
/// round where the test at its top does not jump behind the loop. Otherwise it has no end. What it
/// repeats is read from its code, and reading goes on behind it.
pub proof fn jumpback_loops_agree(l: Lang, m: MachineV, pc: int, back: int, exit: int, hi: int, out: Block)
    requires
        0 <= pc,
    ensures
        ({
            let t = jumpback_loop(m, pc, back, exit, hi, out);
            t.next is Some ==> t.next == Some(exit) && t.out.len() > 0 && looping(
                l,
                m.proto,
                t.out.last(),
                pc,
                back,
                exit,
            )
        }),
{
    let p = m.proto;
    let ctx = Some((pc, exit));
    loop_test_found(p, pc, back, exit);
    jumpback_shape(m, pc, back, exit, hi, out);
    if jumpback_loop(m, pc, back, exit, hi, out).next is Some {
        match loop_test(p, pc, back, exit) {
            Some(q) => {
                let op = op_at(p, q)->Some_0;
                let after = q + len_at(p, q);
                if after == back && q > pc {
                    let n = emitted(forgotten(m), pc, q, Seq::empty(), None, ctx).m;
                    crate::structure::emitted_keeps(forgotten(m), pc, q, Seq::empty(), None, ctx);
                    code_read(forgotten(m), pc, q, ctx);
                    tests_at_holds(l, n, q);
                    repeat_intro(
                        l,
                        p,
                        taken(n, op, q),
                        body_of(forgotten(m), pc, q, ctx).body,
                        pc,
                        back,
                        exit,
                        q,
                        n,
                    );
                } else {
                    let n = setup(m, pc, q, Seq::empty(), None).m;
                    crate::structure::setup_keeps(m, pc, q, Seq::empty(), None);
                    code_read(forgotten(n), after, back, ctx);
                    tests_at_holds(l, n, q);
                    while_intro(
                        l,
                        p,
                        not_taken(n, op, q),
                        body_of(forgotten(n), after, back, ctx).body,
                        pc,
                        back,
                        exit,
                        q,
                        n,
                    );
                }
            },
            None => {
                code_read(forgotten(m), pc, back, ctx);
            },
        }
    }
}

proof fn repeat_intro(l: Lang, p: Proto, c: ExprV, body: Block, pc: int, back: int, exit: int, q: int, n: MachineV)
    requires
        n.proto == p && target_at(p, q) == Some(exit) && q + len_at(p, q) == back,
        is_code(p, body, pc, q, Some((pc, exit))),
        tests_at(l, c, n, q, true),
    ensures
        looping(l, p, StmtV::Loop { head: LoopHead::Repeat(c), body }, pc, back, exit),
{
    assert(repeats_until(l, p, c, body, pc, back, exit, q, n));
    assert(exists|q: int, n: MachineV| #[trigger] repeats_until(l, p, c, body, pc, back, exit, q, n));
    let s = StmtV::Loop { head: LoopHead::Repeat(c), body };
    assert(s->Loop_body == body);
    assert(s->head == LoopHead::Repeat(c));
}

proof fn while_intro(l: Lang, p: Proto, c: ExprV, body: Block, pc: int, back: int, exit: int, q: int, n: MachineV)
    requires
        n.proto == p && target_at(p, q) == Some(exit) && pc <= q,
        is_code(p, body, q + len_at(p, q), back, Some((pc, exit))),
        tests_at(l, c, n, q, false),
    ensures
        looping(l, p, StmtV::Loop { head: LoopHead::While(c), body }, pc, back, exit),
{
    assert(repeats_while(l, p, c, body, pc, back, exit, q, n));
    assert(exists|q: int, n: MachineV| #[trigger] repeats_while(l, p, c, body, pc, back, exit, q, n));
    let s = StmtV::Loop { head: LoopHead::While(c), body };
    assert(s->Loop_body == body);
    assert(s->head == LoopHead::While(c));
}

proof fn jumpback_shape(m: MachineV, pc: int, back: int, exit: int, hi: int, out: Block)
    ensures
        ({
            let p = m.proto;
            let ctx = Some((pc, exit));
            let t = jumpback_loop(m, pc, back, exit, hi, out);
            t.next is Some ==> {
                &&& t.next == Some(exit) && t.out.len() > 0
                &&& match loop_test(p, pc, back, exit) {
                    Some(q) => op_at(p, q) matches Some(op) && t.out.last() == if q + len_at(p, q) == back && q > pc {
                        StmtV::Loop {
                            head: LoopHead::Repeat(
                                taken(emitted(forgotten(m), pc, q, Seq::empty(), None, ctx).m, op, q),
                            ),
                            body: body_of(forgotten(m), pc, q, ctx).body,
                        }
                    } else {
                        StmtV::Loop {
                            head: LoopHead::While(not_taken(setup(m, pc, q, Seq::empty(), None).m, op, q)),
                            body: body_of(
                                forgotten(setup(m, pc, q, Seq::empty(), None).m),
                                q + len_at(p, q),
                                back,
                                ctx,
                            ).body,
                        }
                    },
                    None => t.out.last() == (StmtV::Loop {
                        head: LoopHead::While(ExprV::Bool(true)),
                        body: body_of(forgotten(m), pc, back, ctx).body,
                    }),
                }
            }
        }),
{
}

/// Whether `c`, evaluated where `n` is known of the machine, holds exactly where the test at `q`
/// jumps (`jumping`), or exactly where it does not.
#[verifier::opaque]
pub open spec fn tests_at(l: Lang, c: ExprV, n: MachineV, q: int, jumping: bool) -> bool {
    forall|vm: VmV, st: StateV|
        testable(l, n, q) && #[trigger] agrees(l, n, vm, st) ==> (l.truthy)(eval(l, c, st.env, st.w).v) == (vm_jumps(
            l,
            n.proto,
            q,
            vm,
        ) == jumping) && eval(l, c, st.env, st.w).w == st.w
}

proof fn tests_at_holds(l: Lang, n: MachineV, q: int)
    requires
        op_at(n.proto, q) is Some,
    ensures
        ({
            let op = op_at(n.proto, q)->Some_0;
            &&& tests_at(l, taken(n, op, q), n, q, true)
            &&& tests_at(l, not_taken(n, op, q), n, q, false)
            &&& tests_at(l, opposite(taken(n, op, q)), n, q, false)
        }),
{
    reveal(tests_at);
    let op = op_at(n.proto, q)->Some_0;
    assert forall|vm: VmV, st: StateV| testable(l, n, q) && #[trigger] agrees(l, n, vm, st) implies (l.truthy)(
        eval(l, taken(n, op, q), st.env, st.w).v,
    ) == vm_jumps(l, n.proto, q, vm) && eval(l, taken(n, op, q), st.env, st.w).w == st.w && (l.truthy)(
        eval(l, not_taken(n, op, q), st.env, st.w).v,
    ) == !vm_jumps(l, n.proto, q, vm) && eval(l, not_taken(n, op, q), st.env, st.w).w == st.w by {
        tests_agree(l, n, op, q, vm, st);
    }
}

/// A loop that jumps back on a condition is left where the jump back is not taken; what it repeats
/// is read from the code before the jump.
pub proof fn condback_loops_agree(
    l: Lang,
    m: MachineV,
    op: Opcode,
    pc: int,
    back: int,
    exit: int,
    hi: int,
    out: Block,
)
    requires
        op_at(m.proto, back) == Some(op),
    ensures
        ({
            let p = m.proto;
            let t = condback_loop(m, op, pc, back, exit, hi, out);
            t.next matches Some(next) ==> {
                &&& next == exit
                &&& t.out.len() > 0
                &&& t.out.last() matches StmtV::Loop { head, body } && {
                    &&& is_code(p, body, pc, back, Some((pc, exit)))
                    &&& head matches LoopHead::Repeat(c) && exists|n: MachineV|
                        n.proto == p && #[trigger] tests_at(l, c, n, back, false)
                }
            }
        }),
{
    let p = m.proto;
    let ctx = Some((pc, exit));
    let t = condback_loop(m, op, pc, back, exit, hi, out);
    if t.next is Some {
        let e = emitted(forgotten(m), pc, back, Seq::empty(), None, ctx);
        crate::structure::emitted_keeps(forgotten(m), pc, back, Seq::empty(), None, ctx);
        let b = body_of(forgotten(m), pc, back, ctx);
        code_read(forgotten(m), pc, back, ctx);
        tests_at_holds(l, e.m, back);
        assert(tests_at(l, opposite(taken(e.m, op, back)), e.m, back, false));
    }
}

} // verus!
