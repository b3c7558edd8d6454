//! Straight code is read as statements that do what it does, in order.
use vstd::prelude::*;

use crate::ast::Block;
use crate::bytecode::{conditional, for_in_prep, len_at, target_at, Opcode, Proto};
use crate::machine::{loop_at, reg, MachineV};
use crate::meaning::{lawful, run, run_concat, Lang, StateV};
use crate::naming::builds_value;
use crate::step::{effect, stepped, PendingV};
use crate::structure::{emitted, label_at, size, LoopCtx};
use crate::vm::{
    agrees, apart, calls_agree, constants_there, loads_agree, outside_names, spelled, stored_values_agree,
    stores_agree, unremembered, vm_call, vm_load, vm_store, vm_stored, vm_value, with_reg, VmV,
};

verus! {

/// The machine after the instruction at `pc`, where it is a load, computes a value, stores one, or
/// calls a function with a fixed number of arguments for one value or none.
pub open spec fn vm_step(l: Lang, p: Proto, pc: int, vm: VmV) -> Option<VmV> {
    let w = p.code@[pc];
    if vm_load(l, p, pc, vm) is Some {
        Some(with_reg(vm, w.a, vm_load(l, p, pc, vm)->Some_0))
    } else if vm_value(l, p, pc, vm) is Some {
        Some(with_reg(vm, w.a, vm_value(l, p, pc, vm)->Some_0))
    } else if vm_store(l, p, pc, vm) is Some {
        Some(vm_stored(l, vm, vm_store(l, p, pc, vm)->Some_0))
    } else if w.op == Some(Opcode::Call) && 1 <= w.b && 1 <= w.c <= 2 && w.a + w.b <= 255 {
        Some(vm_call(l, vm, w, None))
    } else {
        None
    }
}

/// The machine after the instructions from `q` up to `hi`; `None` where one is of another kind.
pub open spec fn vm_run(l: Lang, p: Proto, q: int, hi: int, vm: VmV) -> Option<VmV>
    decreases size(q, hi),
{
    if q >= hi {
        Some(vm)
    } else {
        match vm_step(l, p, q, vm) {
            Some(next) => vm_run(l, p, q + len_at(p, q), hi, next),
            None => None,
        }
    }
}

/// Whether the instruction at `q`, where `m` is known, can be held against the machine: what it
/// refers to is there, names are kept apart, and nothing jumps there.
pub open spec fn readable_at(m: MachineV, q: int) -> bool {
    let p = m.proto;
    let w = p.code@[q];
    &&& 0 <= q < p.code.len() && w.op is Some
    &&& w.a < m.regs.len()
    &&& m.multret is None
    &&& constants_there(p, q) && outside_names(m, q)
    &&& w.op == Some(Opcode::SetGlobal) ==> unremembered(m, crate::bytecode::string_at(p, crate::bytecode::aux_at(p, q).raw as nat))
    &&& w.op == Some(Opcode::SetUpval) ==> unremembered(m, crate::bytecode::upvalue_name(p, w.b))
    &&& w.op == Some(Opcode::Call) ==> !builds_value(reg(m, w.a))
    &&& label_at(p, q) is None && loop_at(m, q) is None && target_at(p, q) is None
}

/// Whether that holds of every instruction from `q` up to `hi`.
pub open spec fn readable(m: MachineV, q: int, hi: int) -> bool
    decreases size(q, hi),
{
    q >= hi || (readable_at(m, q) && readable(
        stepped(m, m.proto.code@[q].op->Some_0, q, None).m,
        q + len_at(m.proto, q),
        hi,
    ))
}

/// One instruction: running what is read from it does what the machine does.
pub proof fn steps_agree(l: Lang, m: MachineV, q: int, vm: VmV, st: StateV, fuel: nat)
    requires
        lawful(l),
        spelled(l, m.proto),
        agrees(l, m, vm, st),
        apart(m),
        readable_at(m, q),
    ensures
        vm_step(l, m.proto, q, vm) matches Some(next) ==> ({
            let s = stepped(m, m.proto.code@[q].op->Some_0, q, None);
            let r = run(l, s.out, st, fuel);
            &&& r.out is Normal && agrees(l, s.m, next, r.st) && apart(s.m)
            &&& s.pend is None
        }),
{
    let p = m.proto;
    let w = p.code@[q];
    let op = w.op->Some_0;
    let none: PendingV = None;
    if vm_step(l, p, q, vm) is Some {
        let e = effect(m, op, q, None, none);
        assert(MachineV { multret: None, ..m } == m);
        assert(stepped(m, op, q, none) == e);
        if vm_load(l, p, q, vm) is Some {
            loads_agree(l, m, op, q, vm, st, none);
            assert(e.out =~= Seq::empty());
            assert(run(l, e.out, st, fuel).st == st);
        } else if vm_value(l, p, q, vm) is Some {
            stored_values_agree(l, m, op, q, vm, st, none, fuel);
        } else if vm_store(l, p, q, vm) is Some {
            stores_agree(l, m, op, q, vm, st, none, fuel);
        } else {
            calls_agree(l, m, q, vm, st, none, None, fuel);
        }
    }
}

/// Running what is read from straight code does what the machine does, instruction by instruction.
pub proof fn straight_code_agrees(
    l: Lang,
    m: MachineV,
    lo: int,
    hi: int,
    out: Block,
    ctx: LoopCtx,
    vm: VmV,
    start: StateV,
    fuel: nat,
)
    requires
        lawful(l),
        spelled(l, m.proto),
        apart(m),
        readable(m, lo, hi),
        run(l, out, start, fuel).out is Normal,
        agrees(l, m, vm, run(l, out, start, fuel).st),
    ensures
        vm_run(l, m.proto, lo, hi, vm) matches Some(end) ==> ({
            let e = emitted(m, lo, hi, out, None, ctx);
            let r = run(l, e.out, start, fuel);
            r.out is Normal && agrees(l, e.m, end, r.st)
        }),
    decreases size(lo, hi),
{
    if lo < hi && vm_run(l, m.proto, lo, hi, vm) is Some {
        let p = m.proto;
        let op = p.code@[lo].op->Some_0;
        let none: PendingV = None;
        let st = run(l, out, start, fuel).st;
        let s = stepped(m, op, lo, none);
        steps_agree(l, m, lo, vm, st, fuel);
        crate::step::stepped_keeps(m, op, lo, none);
        run_concat(l, out, s.out, start, fuel);
        plain_is_no_branch(l, m, lo, hi, out, ctx, vm);
        straight_code_agrees(
            l,
            s.m,
            lo + len_at(p, lo),
            hi,
            out + s.out,
            ctx,
            vm_step(l, p, lo, vm)->Some_0,
            start,
            fuel,
        );
    }
}

/// A plain instruction begins no loop and no branch.
proof fn plain_is_no_branch(l: Lang, m: MachineV, lo: int, hi: int, out: Block, ctx: LoopCtx, vm: VmV)
    requires
        lo < hi,
        readable_at(m, lo),
        vm_step(l, m.proto, lo, vm) is Some,
    ensures
        ({
            let s = stepped(m, m.proto.code@[lo].op->Some_0, lo, None);
            emitted(m, lo, hi, out, None, ctx) == emitted(
                s.m,
                lo + len_at(m.proto, lo),
                hi,
                out + s.out,
                s.pend,
                ctx,
            )
        }),
{
    let op = m.proto.code@[lo].op->Some_0;
    assert(!conditional(op) && op != Opcode::ForNPrep && !for_in_prep(op));
    let t = crate::structure::structured(m, op, lo, hi, out, ctx);
    assert(t == crate::structure::failed(m, out));
}

} // verus!
