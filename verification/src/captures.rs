//! Function literals capture the variables that their instructions capture.
use vstd::prelude::*;

use crate::ast::{Capture, ExprV, StmtV};
use crate::bytecode::{len_at, numbered, op_at, source_upvalue, upvalue_name, CaptureKind, Opcode, Proto};
use crate::machine::{captures_flushed_from, forgotten, reg, reg_name, MachineV};
use crate::split::is_digit;
use crate::step::{captures_from, closure_effect, value_expr, PendingV};
use crate::text::{decimal, Text};
use crate::upvalues::{capture_name, digits_end, number_value, placeholder_at, renamed_to, substituted};

verus! {

/// Whether exactly `k` capture instructions stand from `s` on, and each says what it captures.
pub open spec fn captures_stand(p: Proto, s: int, k: int) -> bool {
    &&& 0 <= s && 0 <= k
    &&& forall|i: int| s <= i < s + k ==> (#[trigger] op_at(p, i)) == Some(Opcode::Capture) && !(p.code@[i].capture is Unknown)
    &&& op_at(p, s + k) != Some(Opcode::Capture)
}

/// Whether `n` is what the capture instruction at `q` captures: the name of the register, or the
/// name under which the function itself reads the upvalue.
pub open spec fn denotes(m: MachineV, rename: Map<Text, Text>, q: int, n: Text) -> bool {
    let w = m.proto.code@[q];
    match w.capture {
        CaptureKind::Register => reg(forgotten(m), w.b) matches ExprV::Var(x) && n == renamed_to(rename, x),
        CaptureKind::Upvalue => forall|g: int|
            op_at(m.proto, g) == Some(Opcode::GetUpval) && m.proto.code@[g].b == w.b ==> #[trigger] value_expr(
                m,
                Opcode::GetUpval,
                g,
            ) == ExprV::Var(n),
        CaptureKind::Unknown => true,
    }
}

proof fn captures_counted(p: Proto, s: int, k: int)
    requires
        captures_stand(p, s, k),
    ensures
        captures_from(p, s).len() == k,
        forall|i: int|
            0 <= i < k ==> match p.code@[s + i].capture {
                CaptureKind::Register => #[trigger] captures_from(p, s)[i] == Capture::Reg(p.code@[s + i].b),
                _ => captures_from(p, s)[i] == Capture::Upval(p.code@[s + i].b),
            },
    decreases k,
{
    if k > 0 {
        assert(op_at(p, s) == Some(Opcode::Capture));
        assert(captures_stand(p, s + 1, k - 1)) by {
            assert forall|i: int| s + 1 <= i < s + k implies (#[trigger] op_at(p, i)) == Some(Opcode::Capture)
                && !(p.code@[i].capture is Unknown) by {}
        }
        captures_counted(p, s + 1, k - 1);
        let rest = captures_from(p, s + 1);
        let all = captures_from(p, s);
        assert forall|i: int| 0 <= i < k implies match p.code@[s + i].capture {
            CaptureKind::Register => #[trigger] all[i] == Capture::Reg(p.code@[s + i].b),
            _ => all[i] == Capture::Upval(p.code@[s + i].b),
        } by {
            if i > 0 {
                assert(all[i] == rest[i - 1]);
                assert(p.code@[s + 1 + (i - 1)].capture == p.code@[s + i].capture);
            }
        }
    }
}

/// The names that are put in for the upvalues of a closure are, in order, those of the variables
/// that the capture instructions behind it capture. An upvalue that has a name of its own in the
/// source needs none to be put in.
pub proof fn captures_denote(m: MachineV, rename: Map<Text, Text>, pc: int, k: int, i: int)
    requires
        0 <= pc < m.proto.code.len(),
        captures_stand(m.proto, pc + len_at(m.proto, pc), k),
        0 <= i < k,
        forall|u: u8| (#[trigger] source_upvalue(m.proto, u)) is None,
    ensures
        ({
            let s = pc + len_at(m.proto, pc);
            let cs = captures_from(m.proto, s);
            cs.len() == k && denotes(m, rename, s + i, capture_name(m, rename, cs[i]))
        }),
{
    let s = pc + len_at(m.proto, pc);
    captures_counted(m.proto, s, k);
    let cs = captures_from(m.proto, s);
    let w = m.proto.code@[s + i];
    assert(op_at(m.proto, s + i) == Some(Opcode::Capture));
    match w.capture {
        CaptureKind::Register => {
            assert(cs[i] == Capture::Reg(w.b));
        },
        _ => {
            assert(cs[i] == Capture::Upval(w.b));
            assert(source_upvalue(m.proto, w.b) is None);
        },
    }
}

/// A closure instruction leaves in its register the literal of the function that it names, with
/// what the instructions behind it capture.
pub proof fn closures_agree(m: MachineV, op: Opcode, pc: int, pend: PendingV, k: int)
    requires
        0 <= pc < m.proto.code.len(),
        op == Opcode::NewClosure || op == Opcode::DupClosure,
        captures_stand(m.proto, pc + len_at(m.proto, pc), k),
        0 <= m.proto.code@[pc].d,
        op == Opcode::NewClosure ==> m.proto.code@[pc].d < m.proto.children.len(),
        op == Opcode::DupClosure ==> m.proto.code@[pc].d < m.proto.constants.len() && m.proto.constants@[m.proto.code@[
            pc].d as int] is Closure,
    ensures
        ({
            let w = m.proto.code@[pc];
            let s = closure_effect(m, op, pc, pend);
            let child = if op == Opcode::NewClosure {
                m.proto.children@[w.d as int]
            } else {
                m.proto.constants@[w.d as int]->proto
            };
            &&& s.m.requests.len() == m.requests.len() + 1 && s.m.requests.last().child == child
            &&& s.out.len() > 0
            &&& s.out.last() matches StmtV::Assign { targets, values } && {
                &&& targets == seq![ExprV::Var(reg_name(m, w.a))] && values.len() == 1
                &&& values[0] matches ExprV::Closure { text, captures } && text == crate::text::decimal(m.requests.len())
                    && captures.len() == k
            }
        }),
{
    captures_counted(m.proto, pc + len_at(m.proto, pc), k);
    let s = closure_effect(m, op, pc, pend);
    let before = captures_flushed_from(m, 0);
    assert(s.out =~= before.push(s.out.last()));
}

// ---- placeholders -------------------------------------------------------------------------------------------

/// Digits in decimal are the digits of the number.
proof fn decimal_value(s: Text, a: int, b: int, k: nat)
    requires
        0 <= a <= b <= s.len(),
        s.subrange(a, b) == decimal(k),
    ensures
        a < b,
        number_value(s, a, b) == k,
        forall|i: int| a <= i < b ==> is_digit(#[trigger] s[i]),
    decreases k,
{
    let d = s.subrange(a, b);
    if k < 10 {
        assert(d.len() == 1);
        assert(s[a] == d[0]);
        assert(number_value(s, a, a) == 0);
    } else {
        let front = decimal(k / 10);
        assert(d.len() == front.len() + 1);
        assert(s.subrange(a, b - 1) =~= front) by {
            assert forall|i: int| 0 <= i < front.len() implies s.subrange(a, b - 1)[i] == front[i] by {
                assert(d[i] == front[i]);
            }
        }
        decimal_value(s, a, b - 1, k / 10);
        assert(s[b - 1] == d[front.len() as int]);
        assert(k == (k / 10) * 10 + k % 10);
    }
}

proof fn digits_to_the_end(s: Text, a: int)
    requires
        0 <= a <= s.len(),
        forall|i: int| a <= i < s.len() ==> is_digit(#[trigger] s[i]),
    ensures
        digits_end(s, a) == s.len(),
    decreases s.len() - a,
{
    if a < s.len() {
        digits_to_the_end(s, a + 1);
    }
}

/// What a function prints for its upvalue number `k`, where the source gives it no name, becomes
/// the name of what was captured for that upvalue.
pub proof fn placeholders_resolve(p: Proto, u: u8, names: Seq<Text>)
    requires
        source_upvalue(p, u) is None,
        u < names.len(),
    ensures
        substituted(upvalue_name(p, u), 0, None, names) == names[u as int],
{
    let k = u as nat;
    let s = numbered("u"@, k);
    reveal_strlit("u");
    assert("u"@.len() == 1 && "u"@[0] == 'u');
    assert(s.subrange(1, s.len() as int) =~= decimal(k));
    assert(s[0] == 'u');
    decimal_value(s, 1, s.len() as int, k);
    digits_to_the_end(s, 1);
    assert(placeholder_at(s, 0));
    assert(substituted(s, s.len() as int, None, names) == Seq::<char>::empty());
    assert(substituted(s, 0, None, names) =~= names[k as int]);
}

} // verus!
