//! Reading a whole function.
use vstd::prelude::*;

use crate::ast::{block, Block, Expr, Stmt, StmtV};
use crate::bytecode::{conditional, is_conditional_jump, len_at, op_at, target_at, CaptureKind, Opcode, Proto};
use crate::machine::{Machine, MachineV};
use crate::maps::TextMap;
use crate::query::{block_goto_names, goto_names_in_block};
use crate::step::words_left;
use crate::structure::{emit_range, emitted};
use crate::sweeps::{keep_labels, labels_kept};
use crate::text::Text;

verus! {

/// The loops that code from `pc` on jumps back to: where each begins, and where its last jump
/// back stands.
pub open spec fn loops_from(p: Proto, pc: int, acc: Seq<Option<int>>) -> Seq<Option<int>>
    decreases words_left(p, pc),
{
    if pc < 0 || pc >= p.code.len() {
        acc
    } else {
        match op_at(p, pc) {
            None => loops_from(p, pc + 1, acc),
            Some(op) => match target_at(p, pc) {
                Some(t) => if (op == Opcode::JumpBack || conditional(op)) && 0 <= t <= pc {
                    loops_from(p, pc + len_at(p, pc), acc.update(t, Some(pc)))
                } else {
                    loops_from(p, pc + len_at(p, pc), acc)
                },
                None => loops_from(p, pc + len_at(p, pc), acc),
            },
        }
    }
}

/// The registers that the capture instructions from `q` on capture.
pub open spec fn captured_by(p: Proto, q: int, acc: Seq<bool>) -> Seq<bool>
    decreases words_left(p, q),
{
    if q < 0 || q >= p.code.len() || op_at(p, q) != Some(Opcode::Capture) {
        acc
    } else if p.code@[q].capture == CaptureKind::Register {
        captured_by(p, q + 1, acc.update(p.code@[q].b as int, true))
    } else {
        captured_by(p, q + 1, acc)
    }
}

/// The registers that closures made from `pc` on capture.
pub open spec fn captured_from(p: Proto, pc: int, acc: Seq<bool>) -> Seq<bool>
    decreases words_left(p, pc),
{
    if pc < 0 || pc >= p.code.len() {
        acc
    } else {
        match op_at(p, pc) {
            None => captured_from(p, pc + 1, acc),
            Some(op) => if op == Opcode::NewClosure || op == Opcode::DupClosure {
                captured_from(p, pc + len_at(p, pc), captured_by(p, pc + len_at(p, pc), acc))
            } else {
                captured_from(p, pc + len_at(p, pc), acc)
            },
        }
    }
}

/// The state before the first instruction of `p`.
pub open spec fn started(p: Proto, nums: Map<Text, Text>) -> MachineV {
    MachineV {
        proto: p,
        nums,
        regs: Seq::new((p.max_stack_size + 1) as nat, |i: int| None),
        names: Seq::new(256, |i: int| None),
        loops: loops_from(p, 0, Seq::new(p.code@.len(), |i: int| None)),
        loopvars: 0,
        multret: None,
        globals: Seq::empty(),
        notes: Seq::empty(),
        requests: Seq::empty(),
        captured: captured_from(p, 0, Seq::new(256, |i: int| false)),
    }
}

/// The statements of the function, and what is known at its end.
#[verifier::ext_equal]
pub struct ReadV {
    pub m: MachineV,
    pub out: Block,
}

/// What reading the function `p` gives: labels that nothing jumps to are left out.
pub open spec fn read(p: Proto, nums: Map<Text, Text>) -> ReadV {
    let e = emitted(started(p, nums), 0, p.code@.len() as int, Seq::empty(), None, None);
    ReadV { m: e.m, out: labels_kept(e.out, block_goto_names(e.out)) }
}

fn compute_loop_back(p: &Proto) -> (r: Vec<Option<usize>>)
    requires
        p.code.len() + 255 <= usize::MAX,
    ensures
        crate::machine::opt_indices(r@) == loops_from(*p, 0, Seq::new(p.code@.len(), |i: int| None)),
{
    let n: usize = p.code.len();
    let mut acc: Vec<Option<usize>> = Vec::new();
    let mut i: usize = 0;
    while i < n
        invariant
            i <= n,
            acc.len() == i,
            forall|j: int| 0 <= j < i ==> acc@[j] is None,
        decreases n - i,
    {
        acc.push(None);
        i += 1;
    }
    let ghost start: Seq<Option<int>> = Seq::new(p.code@.len(), |i: int| None);
    assert(crate::machine::opt_indices(acc@) =~= start);
    let mut pc: usize = 0;
    while pc < n
        invariant
            n == p.code.len(),
            n + 255 <= usize::MAX,
            acc.len() == n,
            loops_from(*p, 0, start) == loops_from(*p, pc as int, crate::machine::opt_indices(acc@)),
        decreases words_left(*p, pc as int),
    {
        match p.op(pc) {
            None => {
                pc += 1;
            },
            Some(op) => {
                if op == Opcode::JumpBack || is_conditional_jump(op) {
                    if let Some(t) = p.target(pc) {
                        if t <= pc {
                            let ghost o = acc@;
                            acc.set(t, Some(pc));
                            assert(crate::machine::opt_indices(acc@) =~= crate::machine::opt_indices(o).update(
                                t as int,
                                Some(pc as int),
                            ));
                        }
                    }
                }
                pc = p.after(pc);
            },
        }
    }
    acc
}

fn compute_captured_regs(p: &Proto) -> (r: Vec<bool>)
    requires
        p.code.len() + 255 <= usize::MAX,
    ensures
        r@ == captured_from(*p, 0, Seq::new(256, |i: int| false)),
{
    let n: usize = p.code.len();
    let mut acc: Vec<bool> = Vec::new();
    let mut i: usize = 0;
    while i < 256
        invariant
            i <= 256,
            acc.len() == i,
            forall|j: int| 0 <= j < i ==> !acc@[j],
        decreases 256 - i,
    {
        acc.push(false);
        i += 1;
    }
    let ghost start: Seq<bool> = Seq::new(256, |i: int| false);
    assert(acc@ =~= start);
    let mut pc: usize = 0;
    while pc < n
        invariant
            n == p.code.len(),
            n + 255 <= usize::MAX,
            acc.len() == 256,
            captured_from(*p, 0, start) == captured_from(*p, pc as int, acc@),
        decreases words_left(*p, pc as int),
    {
        match p.op(pc) {
            None => {
                pc += 1;
            },
            Some(op) => {
                let next: usize = p.after(pc);
                if op == Opcode::NewClosure || op == Opcode::DupClosure {
                    let ghost a0 = acc@;
                    let mut q: usize = next;
                    while q < n && p.code[q].op == Some(Opcode::Capture)
                        invariant
                            n == p.code.len(),
                            acc.len() == 256,
                            next <= q,
                            captured_by(*p, next as int, a0) == captured_by(*p, q as int, acc@),
                        decreases words_left(*p, q as int),
                    {
                        let w = p.code[q];
                        if w.capture == CaptureKind::Register {
                            acc.set(w.b as usize, true);
                        }
                        q += 1;
                    }
                }
                pc = next;
            },
        }
    }
    acc
}

/// Reads the function `p`: its statements, and what is known at its end.
pub fn read_proto<'a>(p: &'a Proto, nums: &'a TextMap) -> (r: (Machine<'a>, Vec<Stmt>))
    requires
        p.code.len() + 255 <= usize::MAX,
    ensures
        r.0@ == read(*p, nums@).m,
        block(r.1@) == read(*p, nums@).out,
{
    let mut m = Machine::new(p, nums, compute_loop_back(p), compute_captured_regs(p));
    assert(m@ =~= started(*p, nums@));
    let mut out: Vec<Stmt> = Vec::new();
    assert(block(out@) =~= Seq::<StmtV>::empty());
    let mut pend: Option<(u8, Expr, String)> = None;
    let n: usize = p.code.len();
    emit_range(&mut m, 0, n, &mut out, &mut pend, None);
    let keep = goto_names_in_block(&out);
    let kept = keep_labels(&out, &keep);
    (m, kept)
}

// ---- what is known before reading -------------------------------------------------------------------------

/// Whether an instruction begins at `q`, where one begins at `pc`.
pub open spec fn met(p: Proto, pc: int, q: int) -> bool
    decreases words_left(p, pc),
{
    if pc < 0 || pc >= p.code.len() {
        false
    } else if q == pc {
        true
    } else if op_at(p, pc) is None {
        met(p, pc + 1, q)
    } else {
        met(p, pc + len_at(p, pc), q)
    }
}

proof fn met_later(p: Proto, pc: int, q: int)
    requires
        met(p, pc, q),
    ensures
        pc <= q < p.code.len(),
    decreases words_left(p, pc),
{
    if q != pc {
        if op_at(p, pc) is None {
            met_later(p, pc + 1, q);
        } else {
            met_later(p, pc + len_at(p, pc), q);
        }
    }
}

/// Whether the instruction at `q` jumps back to `t`.
pub open spec fn jumps_back(p: Proto, q: int, t: int) -> bool {
    &&& op_at(p, q) matches Some(op) && (op == Opcode::JumpBack || conditional(op))
    &&& target_at(p, q) == Some(t)
    &&& 0 <= t <= q
}

/// Whether `b` is the last of the instructions from `pc` on that jump back to `t`.
pub open spec fn last_back(p: Proto, pc: int, b: int, t: int) -> bool {
    &&& met(p, pc, b) && jumps_back(p, b, t)
    &&& forall|q: int| #[trigger] met(p, pc, q) && jumps_back(p, q, t) ==> q <= b
}

proof fn loops_found_from(p: Proto, pc: int, acc: Seq<Option<int>>, t: int)
    requires
        acc.len() == p.code@.len(),
        0 <= t < acc.len(),
        0 <= pc,
    ensures
        loops_from(p, pc, acc).len() == acc.len(),
        (forall|q: int| #[trigger] met(p, pc, q) ==> !jumps_back(p, q, t)) ==> loops_from(p, pc, acc)[t] == acc[t],
        (exists|q: int| #[trigger] met(p, pc, q) && jumps_back(p, q, t)) ==> {
            &&& loops_from(p, pc, acc)[t] is Some
            &&& last_back(p, pc, loops_from(p, pc, acc)[t]->Some_0, t)
        },
    decreases words_left(p, pc),
{
    if pc < p.code.len() {
        let next = if op_at(p, pc) is None {
            pc + 1
        } else {
            pc + len_at(p, pc)
        };
        let acc2 = match op_at(p, pc) {
            None => acc,
            Some(op) => match target_at(p, pc) {
                Some(t) => if (op == Opcode::JumpBack || conditional(op)) && 0 <= t <= pc {
                    acc.update(t, Some(pc))
                } else {
                    acc
                },
                None => acc,
            },
        };
        loops_found_from(p, next, acc2, t);
        let r = loops_from(p, pc, acc);
        assert(r == loops_from(p, next, acc2));
        assert(met(p, pc, pc));
        assert(jumps_back(p, pc, t) ==> acc2[t] == Some(pc));
        assert(!jumps_back(p, pc, t) ==> acc2[t] == acc[t]);
        assert forall|q: int| #[trigger] met(p, pc, q) implies q == pc || (met(p, next, q) && q > pc) by {
            if q != pc {
                met_later(p, next, q);
            }
        }
        let here = exists|q: int| #[trigger] met(p, pc, q) && jumps_back(p, q, t);
        if exists|q: int| #[trigger] met(p, next, q) && jumps_back(p, q, t) {
            let b = r[t]->Some_0;
            assert(last_back(p, next, b, t));
            met_later(p, next, b);
            assert(met(p, pc, b));
            assert(last_back(p, pc, b, t));
        } else if here {
            let q = choose|q: int| #[trigger] met(p, pc, q) && jumps_back(p, q, t);
            assert(q == pc);
            assert(last_back(p, pc, pc, t));
        } else {
            assert(!jumps_back(p, pc, t));
        }
    }
}

/// A loop begins exactly where an instruction jumps back to, and its end is the last instruction
/// that does.
pub proof fn loops_are_where_jumps_lead_back(p: Proto, nums: Map<Text, Text>, t: int)
    requires
        0 <= t < p.code@.len(),
    ensures
        match started(p, nums).loops[t] {
            Some(b) => last_back(p, 0, b, t),
            None => forall|q: int| #[trigger] met(p, 0, q) ==> !jumps_back(p, q, t),
        },
{
    loops_found_from(p, 0, Seq::new(p.code@.len(), |i: int| None), t);
    if exists|q: int| #[trigger] met(p, 0, q) && jumps_back(p, q, t) {
    } else {
        assert(forall|q: int| #[trigger] met(p, 0, q) ==> !jumps_back(p, q, t));
    }
}

/// Whether the instruction at `q` is one of the capture instructions from `s` on, and captures the
/// register `r` itself.
pub open spec fn takes_register(p: Proto, s: int, q: int, r: int) -> bool {
    &&& 0 <= s <= q < p.code@.len()
    &&& forall|k: int| s <= k <= q ==> #[trigger] op_at(p, k) == Some(Opcode::Capture)
    &&& p.code@[q].capture == CaptureKind::Register && p.code@[q].b == r
}

proof fn captured_by_is(p: Proto, s: int, acc: Seq<bool>, r: int)
    requires
        acc.len() == 256,
        0 <= s,
        0 <= r < 256,
    ensures
        captured_by(p, s, acc).len() == 256,
        captured_by(p, s, acc)[r] == (acc[r] || exists|q: int| #[trigger] takes_register(p, s, q, r)),
    decreases words_left(p, s),
{
    if s < p.code.len() && op_at(p, s) == Some(Opcode::Capture) {
        let acc2 = if p.code@[s].capture == CaptureKind::Register {
            acc.update(p.code@[s].b as int, true)
        } else {
            acc
        };
        captured_by_is(p, s + 1, acc2, r);
        if exists|q: int| #[trigger] takes_register(p, s, q, r) {
            let q = choose|q: int| #[trigger] takes_register(p, s, q, r);
            if q != s {
                assert(takes_register(p, s + 1, q, r));
            }
        }
        if exists|q: int| #[trigger] takes_register(p, s + 1, q, r) {
            let q = choose|q: int| #[trigger] takes_register(p, s + 1, q, r);
            assert(takes_register(p, s, q, r));
        }
        if acc2[r] && !acc[r] {
            assert(takes_register(p, s, s, r));
        }
    } else {
        if exists|q: int| #[trigger] takes_register(p, s, q, r) {
            let q = choose|q: int| #[trigger] takes_register(p, s, q, r);
            assert(op_at(p, s) == Some(Opcode::Capture));
        }
    }
}

/// Whether the instruction at `j` makes a closure that captures the register `r` itself.
pub open spec fn closes_over(p: Proto, j: int, r: int) -> bool {
    &&& op_at(p, j) == Some(Opcode::NewClosure) || op_at(p, j) == Some(Opcode::DupClosure)
    &&& exists|q: int| #[trigger] takes_register(p, j + len_at(p, j), q, r)
}

proof fn captured_from_is(p: Proto, pc: int, acc: Seq<bool>, r: int)
    requires
        acc.len() == 256,
        0 <= pc,
        0 <= r < 256,
    ensures
        captured_from(p, pc, acc).len() == 256,
        captured_from(p, pc, acc)[r] == (acc[r] || exists|j: int| #[trigger] met(p, pc, j) && closes_over(p, j, r)),
    decreases words_left(p, pc),
{
    if pc < p.code.len() {
        let next = if op_at(p, pc) is None {
            pc + 1
        } else {
            pc + len_at(p, pc)
        };
        let makes = op_at(p, pc) == Some(Opcode::NewClosure) || op_at(p, pc) == Some(Opcode::DupClosure);
        let acc2 = if makes {
            captured_by(p, next, acc)
        } else {
            acc
        };
        captured_by_is(p, next, acc, r);
        captured_from_is(p, next, acc2, r);
        assert(captured_from(p, pc, acc) == captured_from(p, next, acc2));
        assert(met(p, pc, pc));
        assert(acc2[r] == (acc[r] || closes_over(p, pc, r)));
        if exists|j: int| #[trigger] met(p, pc, j) && closes_over(p, j, r) {
            let j = choose|j: int| #[trigger] met(p, pc, j) && closes_over(p, j, r);
            if j != pc {
                assert(met(p, next, j));
            }
        }
        if exists|j: int| #[trigger] met(p, next, j) && closes_over(p, j, r) {
            let j = choose|j: int| #[trigger] met(p, next, j) && closes_over(p, j, r);
            met_later(p, next, j);
            assert(met(p, pc, j));
        }
    }
}

/// A register is taken to be captured exactly where some closure that the code makes captures the
/// register itself, not its value.
pub proof fn captured_registers_are_closed_over(p: Proto, nums: Map<Text, Text>, r: int)
    requires
        0 <= r < 256,
    ensures
        started(p, nums).captured[r] <==> exists|j: int| #[trigger] met(p, 0, j) && closes_over(p, j, r),
{
    captured_from_is(p, 0, Seq::new(256, |i: int| false), r);
}

} // verus!
