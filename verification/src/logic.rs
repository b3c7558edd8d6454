//! What conditions say when they are negated, joined, taken apart or shortened.
use vstd::prelude::*;

use crate::and_or::{assignment, guarded_and_or, joined_and_or, ternary};
use crate::ast::{spec_splice, Block, ExprV, StmtV};
use crate::conditions::{binary, body_goto, body_jumps, cond_goto, jump_of, negated, opposite, or_chain};
use crate::inlining::{definition_exec, pure_eval};
use crate::jumps::{only, sole_assign};
use crate::meaning::{
    eval, exec, lawful, run, run_concat, run_one, unread_eval, with_var, Env, EvalV, Lang, OutcomeV, RunV, StateV, Val,
    World,
};
use crate::naming::pure;
use crate::query::expr_reads;
use crate::render::{flipped, literal_expr};
use crate::rules::Rule;
use crate::simplify::{chain, distinct, not_operand, operands, simplified, NestedIf};
use crate::sweeps::assign;
use crate::text::Text;

verus! {

// ---- negation ---------------------------------------------------------------------------------------------------

proof fn connectives()
    ensures
        "and"@.len() == 3 && "or"@.len() == 2 && "not "@.len() == 4,
        "<"@.len() == 1 && ">"@.len() == 1 && "<="@.len() == 2 && ">="@.len() == 2 && "=="@.len() == 2 && "~="@.len() == 2,
        "<"@[0] == '<' && ">"@[0] == '>' && "<="@[0] == '<' && ">="@[0] == '>' && "=="@[0] == '=' && "~="@[0] == '~',
        "or"@[0] == 'o',
{
    reveal_strlit("and");
    reveal_strlit("or");
    reveal_strlit("not ");
    reveal_strlit("<");
    reveal_strlit("<=");
    reveal_strlit(">");
    reveal_strlit(">=");
    reveal_strlit("==");
    reveal_strlit("~=");
}

/// Whether `d` is evaluated as `e` is, and holds exactly where `e` does not.
pub open spec fn denies(l: Lang, e: ExprV, d: ExprV, env: Env, w: World) -> bool {
    let a = eval(l, e, env, w);
    let b = eval(l, d, env, w);
    b.w == a.w && (l.truthy)(b.v) == !(l.truthy)(a.v)
}

/// The negation of a condition calls what the condition calls, and holds exactly where it does not.
pub proof fn negations_deny(l: Lang, e: ExprV, env: Env, w: World)
    requires
        lawful(l),
    ensures
        denies(l, e, negated(e), env, w),
    decreases e,
{
    connectives();
    match e {
        ExprV::Binary(op, a, b) => {
            negations_deny(l, *a, env, w);
            negations_deny(l, *b, env, eval(l, *a, env, w).w);
        },
        _ => {},
    }
}

/// The opposite of a condition calls what the condition calls, and holds exactly where it does not.
pub proof fn opposites_deny(l: Lang, e: ExprV, env: Env, w: World)
    requires
        lawful(l),
    ensures
        denies(l, e, opposite(e), env, w),
{
    connectives();
}

// ---- guarded jumps ----------------------------------------------------------------------------------------------

/// Evaluates conditions one after the other until one holds: whether one does, and the world then.
pub open spec fn tried(l: Lang, cs: Seq<ExprV>, env: Env, w: World) -> (bool, World)
    decreases cs.len(),
{
    if cs.len() == 0 {
        (false, w)
    } else {
        let t = tried(l, cs.drop_last(), env, w);
        if t.0 {
            t
        } else {
            let a = eval(l, cs.last(), env, t.1);
            ((l.truthy)(a.v), a.w)
        }
    }
}

proof fn tried_first(l: Lang, cs: Seq<ExprV>, env: Env, w: World)
    requires
        cs.len() > 0,
    ensures
        tried(l, cs, env, w) == ({
            let a = eval(l, cs[0], env, w);
            if (l.truthy)(a.v) {
                (true, a.w)
            } else {
                tried(l, cs.subrange(1, cs.len() as int), env, a.w)
            }
        }),
    decreases cs.len(),
{
    let rest = cs.subrange(1, cs.len() as int);
    if cs.len() == 1 {
        assert(cs.drop_last() =~= Seq::<ExprV>::empty());
        assert(tried(l, cs.drop_last(), env, w) == (false, w));
        assert(rest =~= Seq::<ExprV>::empty());
    } else {
        tried_first(l, cs.drop_last(), env, w);
        assert(rest.drop_last() =~= cs.drop_last().subrange(1, cs.len() - 1));
        assert(rest.last() == cs.last());
    }
}

proof fn or_chain_tries(l: Lang, cs: Seq<ExprV>, env: Env, w: World)
    requires
        cs.len() > 0,
    ensures
        ({
            let a = eval(l, or_chain(cs), env, w);
            tried(l, cs, env, w) == ((l.truthy)(a.v), a.w)
        }),
    decreases cs.len(),
{
    connectives();
    tried_first(l, cs, env, w);
    let rest = cs.subrange(1, cs.len() as int);
    if cs.len() == 1 {
        assert(rest =~= Seq::<ExprV>::empty());
    } else {
        or_chain_tries(l, rest, env, eval(l, cs[0], env, w).w);
    }
}

/// What `if c then goto lbl end` does.
pub open spec fn jumps_if(l: Lang, c: ExprV, lbl: Text, st: StateV) -> RunV {
    let a = eval(l, c, st.env, st.w);
    RunV {
        out: if (l.truthy)(a.v) {
            OutcomeV::Goto(lbl)
        } else {
            OutcomeV::Normal
        },
        st: StateV { env: st.env, w: a.w },
    }
}

/// What is read as a guarded jump does what that guarded jump does.
pub proof fn guarded_jumps_jump(l: Lang, s: StmtV, req: Option<Text>, st: StateV, fuel: nat)
    requires
        lawful(l),
    ensures
        cond_goto(s, req) matches Some((c, lbl)) ==> exec(l, s, st, fuel) == jumps_if(l, c, lbl, st),
    decreases s, 0nat,
{
    connectives();
    if let StmtV::If { cond, then_body, else_body } = s {
        if else_body.len() == 0 && body_goto(then_body, req) is Some {
            let a = eval(l, cond, st.env, st.w);
            let t = StateV { env: st.env, w: a.w };
            let (cs, m) = body_jumps(then_body, req)->Some_0;
            body_jumps_run(l, then_body, req, t, fuel);
            or_chain_tries(l, cs, t.env, t.w);
            assert(run(l, else_body, t, fuel) == (RunV { out: OutcomeV::Normal, st: t }));
        }
    }
}

proof fn body_jumps_run(l: Lang, b: Block, req: Option<Text>, st: StateV, fuel: nat)
    requires
        lawful(l),
    ensures
        body_jumps(b, req) matches Some((cs, m)) ==> {
            let t = tried(l, cs, st.env, st.w);
            let r = run(l, b, st, fuel);
            &&& r.st == StateV { env: st.env, w: t.1 }
            &&& t.0 ==> m is Some && r.out == OutcomeV::Goto(m->Some_0)
            &&& !t.0 ==> r.out is Normal
        },
    decreases b, 0nat,
{
    if b.len() > 0 && body_jumps(b, req) is Some {
        body_jumps_run(l, b.drop_last(), req, st, fuel);
        let (cs, m) = body_jumps(b.drop_last(), req)->Some_0;
        let (c, lbl) = jump_of(b.last(), req)->Some_0;
        let r = run(l, b.drop_last(), st, fuel);
        assert(cs.push(c).drop_last() =~= cs);
        if !(b.last() is Goto) {
            guarded_jumps_jump(l, b.last(), req, r.st, fuel);
        }
    }
}

// ---- repeated conditions ----------------------------------------------------------------------------------------

/// Whether `e` holds.
pub open spec fn holds(l: Lang, e: ExprV, env: Env, w: World) -> bool {
    (l.truthy)(eval(l, e, env, w).v)
}

/// Whether all of `es` are effect-free.
pub open spec fn all_pure(es: Seq<ExprV>) -> bool {
    forall|i: int| 0 <= i < es.len() ==> pure(#[trigger] es[i])
}

/// Whether all of `es` hold, or for `or` one of them.
pub open spec fn together(l: Lang, op: Text, es: Seq<ExprV>, env: Env, w: World) -> bool {
    if op == "and"@ {
        forall|i: int| 0 <= i < es.len() ==> holds(l, #[trigger] es[i], env, w)
    } else {
        exists|i: int| 0 <= i < es.len() && holds(l, #[trigger] es[i], env, w)
    }
}

proof fn together_concat(l: Lang, op: Text, a: Seq<ExprV>, b: Seq<ExprV>, env: Env, w: World)
    ensures
        op == "and"@ ==> together(l, op, a + b, env, w) == (together(l, op, a, env, w) && together(l, op, b, env, w)),
        op != "and"@ ==> together(l, op, a + b, env, w) == (together(l, op, a, env, w) || together(l, op, b, env, w)),
        all_pure(a) && all_pure(b) <==> all_pure(a + b),
{
    let c = a + b;
    assert forall|i: int| 0 <= i < a.len() implies c[i] == #[trigger] a[i] by {}
    assert forall|i: int| 0 <= i < b.len() implies c[a.len() + i] == #[trigger] b[i] by {}
    assert forall|i: int| 0 <= i < c.len() implies #[trigger] c[i] == if i < a.len() {
        a[i]
    } else {
        b[i - a.len()]
    } by {}
    if op != "and"@ {
        if together(l, op, a, env, w) {
            let i = choose|i: int| 0 <= i < a.len() && holds(l, #[trigger] a[i], env, w);
            assert(holds(l, c[i], env, w));
        }
        if together(l, op, b, env, w) {
            let i = choose|i: int| 0 <= i < b.len() && holds(l, #[trigger] b[i], env, w);
            assert(holds(l, c[a.len() + i], env, w));
        }
    } else if together(l, op, c, env, w) {
        assert forall|i: int| 0 <= i < a.len() implies holds(l, #[trigger] a[i], env, w) by {
            assert(holds(l, c[i], env, w));
        }
        assert forall|i: int| 0 <= i < b.len() implies holds(l, #[trigger] b[i], env, w) by {
            assert(holds(l, c[a.len() + i], env, w));
        }
    }
    if all_pure(c) {
        assert forall|i: int| 0 <= i < a.len() implies pure(#[trigger] a[i]) by {
            assert(pure(c[i]));
        }
        assert forall|i: int| 0 <= i < b.len() implies pure(#[trigger] b[i]) by {
            assert(pure(c[a.len() + i]));
        }
    }
}

proof fn together_one(l: Lang, op: Text, e: ExprV, env: Env, w: World)
    ensures
        together(l, op, seq![e], env, w) == holds(l, e, env, w),
        all_pure(seq![e]) == pure(e),
{
    assert(seq![e][0] == e);
}

proof fn operands_hold(l: Lang, e: ExprV, op: Text, env: Env, w: World)
    requires
        op == "and"@ || op == "or"@,
        pure(e),
    ensures
        operands(e, op).len() > 0,
        all_pure(operands(e, op)),
        together(l, op, operands(e, op), env, w) == holds(l, e, env, w),
    decreases e,
{
    connectives();
    together_one(l, op, e, env, w);
    if let ExprV::Binary(o, a, b) = e {
        if o == op {
            operands_hold(l, *a, op, env, w);
            operands_hold(l, *b, op, env, w);
            together_concat(l, op, operands(*a, op), operands(*b, op), env, w);
            pure_eval(l, *a, env, w, w);
        }
    }
}

proof fn distinct_holds(l: Lang, es: Seq<ExprV>, op: Text, env: Env, w: World)
    requires
        all_pure(es),
    ensures
        all_pure(distinct(es)),
        es.len() > 0 ==> distinct(es).len() > 0,
        together(l, op, distinct(es), env, w) == together(l, op, es, env, w),
    decreases es.len(),
{
    if es.len() > 0 {
        let front = es.drop_last();
        let e = es.last();
        assert(es =~= front + seq![e]);
        together_concat(l, op, front, seq![e], env, w);
        together_one(l, op, e, env, w);
        distinct_holds(l, front, op, env, w);
        let d = distinct(front);
        assert(d.push(e) =~= d + seq![e]);
        together_concat(l, op, d, seq![e], env, w);
        if d.contains(e) {
            let i = choose|i: int| 0 <= i < d.len() && d[i] == e;
            assert(holds(l, d[i], env, w) == holds(l, e, env, w));
        }
    }
}

proof fn chain_holds(l: Lang, op: Text, es: Seq<ExprV>, env: Env, w: World)
    requires
        op == "and"@ || op == "or"@,
        es.len() > 0,
        all_pure(es),
    ensures
        pure(chain(op, es)),
        holds(l, chain(op, es), env, w) == together(l, op, es, env, w),
    decreases es.len(),
{
    connectives();
    let front = es.drop_last();
    let e = es.last();
    assert(es =~= front + seq![e]);
    together_concat(l, op, front, seq![e], env, w);
    together_one(l, op, e, env, w);
    if es.len() == 1 {
        assert(es =~= seq![e]);
    } else {
        chain_holds(l, op, front, env, w);
        pure_eval(l, chain(op, front), env, w, w);
    }
}

/// Whether `e` is made of `and`, `or` and `not` from effect-free parts in which there is nothing to
/// shorten.
pub open spec fn plain_condition(e: ExprV) -> bool
    decreases e,
{
    match e {
        ExprV::Binary(op, a, b) => if op == "and"@ || op == "or"@ {
            plain_condition(*a) && plain_condition(*b)
        } else {
            pure(e) && simplified(e).0 == e
        },
        ExprV::Unary(op, a) => if op == "not "@ {
            plain_condition(*a)
        } else {
            pure(e) && simplified(e).0 == e
        },
        _ => pure(e) && simplified(e).0 == e,
    }
}

/// A condition without its repetitions holds exactly where the condition does, and still calls
/// nothing.
pub proof fn shortened_conditions_hold(l: Lang, e: ExprV, env: Env, w: World)
    requires
        lawful(l),
        plain_condition(e),
    ensures
        pure(simplified(e).0),
        holds(l, simplified(e).0, env, w) == holds(l, e, env, w),
        eval(l, simplified(e).0, env, w).w == eval(l, e, env, w).w,
        e matches ExprV::Unary(op, _) && op == "not "@ ==> eval(l, simplified(e).0, env, w) == eval(l, e, env, w),
    decreases e,
{
    connectives();
    plain_is_pure(e);
    pure_eval(l, e, env, w, w);
    match e {
        ExprV::Binary(op, a, b) => if op == "and"@ || op == "or"@ {
            shortened_conditions_hold(l, *a, env, w);
            shortened_conditions_hold(l, *b, env, w);
            plain_is_pure(*a);
            pure_eval(l, *a, env, w, w);
            let x = simplified(*a).0;
            let y = simplified(*b).0;
            let c = binary(op, x, y);
            pure_eval(l, x, env, w, w);
            assert(pure(c));
            assert(holds(l, c, env, w) == holds(l, e, env, w));
            operands_hold(l, c, op, env, w);
            distinct_holds(l, operands(c, op), op, env, w);
            chain_holds(l, op, distinct(operands(c, op)), env, w);
        },
        ExprV::Unary(op, a) => if op == "not "@ {
            shortened_conditions_hold(l, *a, env, w);
            let x = simplified(*a).0;
            if let Some(y) = not_operand(x) {
                if let ExprV::Binary(_, p, q) = x {
                    pure_eval(l, *p, env, w, w);
                    assert(holds(l, x, env, w) == (holds(l, *p, env, w) || holds(l, *q, env, w)));
                    assert(y == *p || y == *q);
                    assert(!holds(l, ExprV::Nil, env, w));
                }
                assert(pure(y));
                pure_eval(l, y, env, w, w);
                assert(holds(l, y, env, w) == holds(l, x, env, w));
            }
        },
        _ => {},
    }
    pure_eval(l, simplified(e).0, env, w, w);
}

proof fn plain_is_pure(e: ExprV)
    requires
        plain_condition(e),
    ensures
        pure(e),
    decreases e,
{
    match e {
        ExprV::Binary(op, a, b) => if op == "and"@ || op == "or"@ {
            plain_is_pure(*a);
            plain_is_pure(*b);
        },
        ExprV::Unary(op, a) => if op == "not "@ {
            plain_is_pure(*a);
        },
        _ => {},
    }
}

// ---- statements -------------------------------------------------------------------------------------------------

/// A block in which a part is replaced by one that runs the same runs the same.
pub proof fn replaced_part_runs(l: Lang, b: Block, lo: int, hi: int, mid: Block, st: StateV, fuel: nat)
    requires
        0 <= lo <= hi <= b.len(),
        forall|t: StateV| #[trigger] run(l, b.subrange(lo, hi), t, fuel) == run(l, mid, t, fuel),
    ensures
        run(l, spec_splice(b, lo, hi, mid), st, fuel) == run(l, b, st, fuel),
{
    let head = b.subrange(0, lo);
    let part = b.subrange(lo, hi);
    let tail = b.subrange(hi, b.len() as int);
    assert(b =~= head + part + tail);
    run_concat(l, head + part, tail, st, fuel);
    run_concat(l, head, part, st, fuel);
    run_concat(l, head + mid, tail, st, fuel);
    run_concat(l, head, mid, st, fuel);
    let r = run(l, head, st, fuel);
    assert(run(l, part, r.st, fuel) == run(l, mid, r.st, fuel));
}

/// A condition that is tested again inside its own branch makes no difference.
pub proof fn nested_tests_run_alike(l: Lang, b: Block, i: int, st: StateV, fuel: nat)
    requires
        0 <= i < b.len(),
    ensures
        NestedIf.at(b, i) matches Some(c) ==> run(l, c, st, fuel) == run(l, b, st, fuel),
{
    if NestedIf.at(b, i) is Some {
        if let StmtV::If { cond, then_body, else_body } = b[i] {
            if let StmtV::If { cond: c, then_body: inner, else_body: e } = then_body[0] {
                let s = StmtV::If { cond, then_body: inner, else_body };
                assert(b.subrange(i, i + 1) =~= seq![b[i]]);
                assert(then_body =~= seq![then_body[0]]);
                assert forall|t: StateV| #[trigger] run(l, b.subrange(i, i + 1), t, fuel) == run(l, only(s), t, fuel) by {
                    run_one(l, b[i], t, fuel);
                    run_one(l, s, t, fuel);
                    pure_eval(l, cond, t.env, t.w, t.w);
                    let u = StateV { env: t.env, w: eval(l, cond, t.env, t.w).w };
                    run_one(l, then_body[0], u, fuel);
                }
                replaced_part_runs(l, b, i, i + 1, only(s), st, fuel);
            }
        }
    }
}

/// A run that goes on where it jumps to `lbl`.
pub open spec fn landed(r: RunV, lbl: Text) -> RunV {
    if r.out == OutcomeV::Goto(lbl) {
        RunV { out: OutcomeV::Normal, st: r.st }
    } else {
        r
    }
}

/// `z = c and x or y` leaves what the branches that it stands for leave, before the label that they
/// jump to, where `y` does not read `z`.
pub proof fn and_or_runs_alike(l: Lang, s0: StmtV, s1: StmtV, s2: StmtV, st: StateV, fuel: nat)
    requires
        lawful(l),
        joined_and_or(s0, s1, s2) is Some,
        assignment(s1) matches Some((z, y)) && !z.contains('.') && expr_reads(y, z) == 0,
    ensures
        s2 is Label,
        landed(run(l, seq![s0, s1], st, fuel), s2->Label_0) == run(
            l,
            seq![joined_and_or(s0, s1, s2)->Some_0],
            st,
            fuel,
        ),
{
    connectives();
    if let StmtV::If { cond, then_body, else_body } = s0 {
        let (z, x) = assignment(then_body[0])->Some_0;
        let (z2, y) = assignment(s1)->Some_0;
        let s = assign(z, ternary(cond, x, y));
        let pair = seq![s0, s1];
        assert(pair =~= seq![s0] + seq![s1]);
        run_concat(l, seq![s0], seq![s1], st, fuel);
        run_one(l, s0, st, fuel);
        let a = eval(l, cond, st.env, st.w);
        let t = StateV { env: st.env, w: a.w };
        assert(then_body =~= seq![then_body[0]] + seq![then_body[1]]);
        run_concat(l, seq![then_body[0]], seq![then_body[1]], t, fuel);
        run_one(l, then_body[0], t, fuel);
        definition_exec(l, then_body[0], t, fuel);
        let v = eval(l, x, t.env, t.w);
        let u = exec(l, then_body[0], t, fuel).st;
        assert(u.w == v.w && u.env == with_var(t.env, z, v.v));
        run_one(l, then_body[1], u, fuel);
        if let StmtV::If { cond: c2, then_body: g, else_body: e2 } = then_body[1] {
            assert(g =~= seq![g[0]]);
            run_one(l, g[0], u, fuel);
            assert(run(l, e2, u, fuel) == (RunV { out: OutcomeV::Normal, st: u }));
        }
        assert(run(l, else_body, t, fuel) == (RunV { out: OutcomeV::Normal, st: t }));
        crate::vm::run_assign(l, z, ternary(cond, x, y), st, fuel);
        let before = run(l, seq![s0], st, fuel);
        run_one(l, s1, before.st, fuel);
        definition_exec(l, s1, before.st, fuel);
        unread_eval(l, y, st.env, with_var(st.env, z, v.v), z, v.w);
        let k = binary("and"@, cond, x);
        let h = eval(l, ternary(cond, x, y), st.env, st.w);
        assert(eval(l, k, st.env, st.w) == if (l.truthy)(a.v) {
            v
        } else {
            a
        });
        assert(eval(l, ternary(cond, x, y), st.env, st.w) == if (l.truthy)(a.v) && (l.truthy)(v.v) {
            v
        } else {
            eval(l, y, st.env, eval(l, k, st.env, st.w).w)
        });
        assert(run(l, seq![s], st, fuel) == (RunV {
            out: OutcomeV::Normal,
            st: StateV { env: with_var(st.env, z, h.v), w: h.w },
        }));
        let lbl = s2->Label_0;
        assert(eval(l, ExprV::Var(z), u.env, u.w) == (EvalV { v: v.v, w: u.w }));
        assert(StateV { env: u.env, w: u.w } == u);
        assert(exec(l, then_body[1], u, fuel) == if (l.truthy)(v.v) {
            RunV { out: OutcomeV::Goto(lbl), st: u }
        } else {
            RunV { out: OutcomeV::Normal, st: u }
        });
        assert(before == if (l.truthy)(a.v) {
            exec(l, then_body[1], u, fuel)
        } else {
            RunV { out: OutcomeV::Normal, st: t }
        });
        if (l.truthy)(a.v) && !(l.truthy)(v.v) {
            let q = eval(l, y, st.env, v.w);
            assert(with_var(with_var(st.env, z, v.v), z, q.v) =~= with_var(st.env, z, q.v));
        }
    }
}

/// `x = c and t.x or y` leaves what the branch that it stands for leaves, before the label that it
/// jumps to, where `x` holds the field that is tested.
pub proof fn guarded_and_or_runs_alike(l: Lang, s0: StmtV, s1: StmtV, st: StateV, fuel: nat)
    requires
        lawful(l),
        guarded_and_or(s0, s1) is Some,
        ({
            let a = eval(l, s0->If_cond, st.env, st.w);
            let inner = s0->If_then_body[0]->If_cond;
            (l.truthy)(a.v) ==> (st.env)(sole_assign(s1)->Some_0.0) == eval(l, inner, st.env, a.w).v
        }),
    ensures
        ({
            let (lbl, s) = guarded_and_or(s0, s1)->Some_0;
            landed(run(l, seq![s0, s1], st, fuel), lbl) == run(l, seq![s], st, fuel)
        }),
{
    connectives();
    let (lbl, s) = guarded_and_or(s0, s1)->Some_0;
    if let StmtV::If { cond, then_body, else_body } = s0 {
        let (n, y) = sole_assign(s1)->Some_0;
        let a = eval(l, cond, st.env, st.w);
        let t = StateV { env: st.env, w: a.w };
        assert(seq![s0, s1] =~= seq![s0] + seq![s1]);
        run_concat(l, seq![s0], seq![s1], st, fuel);
        run_one(l, s0, st, fuel);
        assert(then_body =~= seq![then_body[0]]);
        run_one(l, then_body[0], t, fuel);
        if let StmtV::If { cond: inner, then_body: g, else_body: e2 } = then_body[0] {
            let v = eval(l, inner, t.env, t.w);
            let u = StateV { env: st.env, w: v.w };
            assert(g =~= seq![g[0]]);
            run_one(l, g[0], u, fuel);
            assert(run(l, e2, u, fuel) == (RunV { out: OutcomeV::Normal, st: u }));
            assert(run(l, else_body, t, fuel) == (RunV { out: OutcomeV::Normal, st: t }));
            let before = run(l, seq![s0], st, fuel);
            assert(before == if (l.truthy)(a.v) {
                if (l.truthy)(v.v) {
                    RunV { out: OutcomeV::Goto(lbl), st: u }
                } else {
                    RunV { out: OutcomeV::Normal, st: u }
                }
            } else {
                RunV { out: OutcomeV::Normal, st: t }
            });
            run_one(l, s1, before.st, fuel);
            definition_exec(l, s1, before.st, fuel);
            let whole = ternary(cond, inner, y);
            assert(sole_assign(s) == Some((n, whole)));
            run_one(l, s, st, fuel);
            definition_exec(l, s, st, fuel);
            let k = binary("and"@, cond, inner);
            assert(eval(l, k, st.env, st.w) == if (l.truthy)(a.v) {
                v
            } else {
                a
            });
            assert(eval(l, whole, st.env, st.w) == if (l.truthy)(a.v) && (l.truthy)(v.v) {
                v
            } else {
                eval(l, y, st.env, eval(l, k, st.env, st.w).w)
            });
            if (l.truthy)(a.v) && (l.truthy)(v.v) {
                assert(with_var(st.env, n, v.v) =~= st.env);
            }
        }
    }
}

// ---- comparisons that are turned round --------------------------------------------------------------------------

/// A comparison with its operands the other way round says what the comparison says, where equality
/// goes both ways and one value is below another exactly where the other is not at most the one.
pub proof fn turned_comparisons_agree(l: Lang, op: Text, a: ExprV, b: ExprV, env: Env, w: World)
    requires
        literal_expr(a),
        flipped(op) is Some,
        forall|x: Val, y: Val| #[trigger] (l.eq)(x, y) == (l.eq)(y, x),
        forall|x: Val, y: Val| #[trigger] (l.lt)(x, y) == !(l.le)(y, x),
    ensures
        eval(l, binary(flipped(op)->Some_0, b, a), env, w) == eval(l, binary(op, a, b), env, w),
{
    connectives();
    let x = eval(l, a, env, w).v;
    let q = eval(l, b, env, w);
    assert(eval(l, a, env, w).w == w);
    assert(eval(l, a, env, q.w) == (EvalV { v: x, w: q.w }));
    assert((l.eq)(x, q.v) == (l.eq)(q.v, x));
    assert((l.lt)(x, q.v) == !(l.le)(q.v, x));
    assert((l.lt)(q.v, x) == !(l.le)(x, q.v));
}

} // verus!
