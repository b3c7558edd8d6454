//! Jumps back that become loops run again what they ran.
use vstd::prelude::*;

use crate::ast::{spec_splice, Block, ExprV, LoopHead, StmtV};
use crate::back_loops::{back_body, ends_with_goto, leaves, natural_body, spec_while, top_test, NaturalLoop};
use crate::jumps::{loop_jumping_to, only, replace_gotos, replace_gotos_same, replace_gotos_stmt};
use crate::landing::{no_break_run, no_jumps_none, stays_run, words_stand_for_jumps};
use crate::logic::landed;
use crate::meaning::{entered, eval, exec, lawful, left, rounds, run, run_one, Lang, OutcomeV, RoundV, RunV, StateV};
use crate::query::{break_or_continue, gotos, has_jumps};
use crate::text::Text;
use crate::weight::{deep, deep_concat, deep_one, deep_stmt};

verus! {

/// Runs `b`, and again from its beginning as long as it jumps to the label `lbl` before it, at most
/// `fuel` times.
pub open spec fn again(l: Lang, b: Block, lbl: Text, st: StateV, fuel: nat) -> RunV
    decreases fuel,
{
    if fuel == 0 {
        RunV { out: OutcomeV::Unfinished, st }
    } else {
        let r = run(l, b, st, (fuel - 1) as nat);
        if r.out == OutcomeV::Goto(lbl) {
            again(l, b, lbl, r.st, (fuel - 1) as nat)
        } else {
            r
        }
    }
}

// ---- endless loops ------------------------------------------------------------------------------------------------

proof fn loops_stay(b: Block, lbl: Text, x: Text, s: StmtV)
    requires
        deep(loop_jumping_to(lbl), b) == 0,
        deep(loop_jumping_to(x), b) == 0,
        s is Break || s is Continue,
    ensures
        deep(loop_jumping_to(x), replace_gotos(b, lbl, only(s))) == 0,
    decreases b,
{
    let w = loop_jumping_to(x);
    if b.len() > 0 {
        let new = replace_gotos_stmt(b.last(), lbl, only(s));
        loops_stay(b.drop_last(), lbl, x, s);
        loops_stay_in(b.last(), lbl, x, s);
        deep_concat(w, replace_gotos(b.drop_last(), lbl, only(s)), new);
    }
}

proof fn loops_stay_in(o: StmtV, lbl: Text, x: Text, s: StmtV)
    requires
        deep_stmt(loop_jumping_to(lbl), o) == 0,
        deep_stmt(loop_jumping_to(x), o) == 0,
        s is Break || s is Continue,
    ensures
        deep(loop_jumping_to(x), replace_gotos_stmt(o, lbl, only(s))) == 0,
    decreases o,
{
    let w = loop_jumping_to(x);
    deep_one(w, o);
    deep_one(w, s);
    match o {
        StmtV::If { cond, then_body, else_body } => {
            loops_stay(then_body, lbl, x, s);
            loops_stay(else_body, lbl, x, s);
            deep_one(
                w,
                StmtV::If {
                    cond,
                    then_body: replace_gotos(then_body, lbl, only(s)),
                    else_body: replace_gotos(else_body, lbl, only(s)),
                },
            );
        },
        StmtV::Loop { head, body } => {
            assert(gotos(body, lbl) == 0);
            replace_gotos_same(body, lbl, only(s));
        },
        _ => {},
    }
}

/// How a round of the loop ends that stands for a run of `b` which may jump back to `lbl` and out to
/// `exit`.
pub open spec fn round_of(r: RunV, lbl: Text, exit: Option<Text>) -> RunV {
    if r.out == OutcomeV::Goto(lbl) {
        RunV { out: OutcomeV::Continue, st: r.st }
    } else if r.out is Normal || (exit is Some && r.out == OutcomeV::Goto(exit->Some_0)) {
        RunV { out: OutcomeV::Break, st: r.st }
    } else {
        r
    }
}

/// Whether the loop may stand for the jumps: none of them, and no `break` or `continue`, belongs to a
/// loop inside.
pub open spec fn turns_round(b: Block, lbl: Text, exit: Option<Text>) -> bool {
    &&& deep(loop_jumping_to(lbl), b) == 0
    &&& deep(break_or_continue(), b) == 0
    &&& exit matches Some(x) ==> x != lbl && deep(loop_jumping_to(x), b) == 0
}

proof fn leaves_is_left(l: Lang, b: Block, st: StateV, fuel: nat)
    requires
        leaves(b),
    ensures
        !(run(l, b, st, fuel).out is Normal),
{
    let r = run(l, b.drop_last(), st, fuel);
    match b.last() {
        StmtV::Return(_) => {
            assert(exec(l, b.last(), r.st, fuel).out is Return);
        },
        _ => {
            assert(!(exec(l, b.last(), r.st, fuel).out is Normal));
        },
    }
}

proof fn natural_round(l: Lang, b: Block, lbl: Text, exit: Option<Text>, st: StateV, fuel: nat)
    requires
        turns_round(b, lbl, exit),
    ensures
        ({
            let r = run(l, natural_body(b, lbl, exit), st, fuel);
            let e = round_of(run(l, b, st, fuel), lbl, exit);
            r == e || (e.out is Continue && r == RunV { out: OutcomeV::Normal, st: e.st })
        }),
{
    let back = ends_with_goto(b, lbl);
    let once = if back {
        b.drop_last()
    } else {
        b
    };
    if back {
        let q = run(l, once, st, fuel);
        assert(exec(l, StmtV::Goto(lbl), q.st, fuel) == (RunV { out: OutcomeV::Goto(lbl), st: q.st }));
        assert(deep(break_or_continue(), once) == 0);
        assert(deep(loop_jumping_to(lbl), once) == 0);
        if let Some(x) = exit {
            assert(deep(loop_jumping_to(x), once) == 0);
        }
    }
    let continued = replace_gotos(once, lbl, only(StmtV::Continue));
    words_stand_for_jumps(l, once, lbl, StmtV::Continue, st, fuel);
    no_break_run(l, once, st, fuel);
    let broken = match exit {
        Some(x) => replace_gotos(continued, x, only(StmtV::Break)),
        None => continued,
    };
    if let Some(x) = exit {
        loops_stay(once, lbl, x, StmtV::Continue);
        words_stand_for_jumps(l, continued, x, StmtV::Break, st, fuel);
    }
    let r = run(l, broken, st, fuel);
    if back {
    } else if leaves(broken) {
        leaves_is_left(l, broken, st, fuel);
    } else {
        let n = broken.push(StmtV::Break);
        assert(n.drop_last() =~= broken);
        assert(exec(l, StmtV::Break, r.st, fuel) == (RunV { out: OutcomeV::Break, st: r.st }));
    }
}

/// An endless loop, in which jumps back to its beginning are `continue`s and jumps out to a label
/// after it and its end are `break`s, runs what the jumps ran.
pub proof fn natural_loops_run_again(l: Lang, b: Block, lbl: Text, exit: Option<Text>, st: StateV, fuel: nat)
    requires
        lawful(l),
        turns_round(b, lbl, exit),
    ensures
        ({
            let r = again(l, b, lbl, st, fuel);
            exec(l, spec_while(ExprV::Bool(true), natural_body(b, lbl, exit)), st, fuel) == match exit {
                Some(x) => landed(r, x),
                None => r,
            }
        }),
{
    let s = spec_while(ExprV::Bool(true), natural_body(b, lbl, exit));
    natural_rounds(l, b, lbl, exit, st, fuel);
    assert(exec(l, s, st, fuel) == rounds(
        l,
        LoopHead::While(ExprV::Bool(true)),
        natural_body(b, lbl, exit),
        st,
        RoundV::Plain,
        fuel,
    ));
}

proof fn natural_rounds(l: Lang, b: Block, lbl: Text, exit: Option<Text>, st: StateV, fuel: nat)
    requires
        lawful(l),
        turns_round(b, lbl, exit),
    ensures
        ({
            let r = again(l, b, lbl, st, fuel);
            rounds(
                l,
                LoopHead::While(ExprV::Bool(true)),
                natural_body(b, lbl, exit),
                st,
                RoundV::Plain,
                fuel,
            ) == match exit {
                Some(x) => landed(r, x),
                None => r,
            }
        }),
    decreases fuel,
{
    let head = LoopHead::While(ExprV::Bool(true));
    assert(entered(l, head, st, RoundV::Plain) == (true, st, RoundV::Plain));
    if fuel > 0 {
        let k = (fuel - 1) as nat;
        natural_round(l, b, lbl, exit, st, k);
        no_break_run(l, b, st, k);
        let r = run(l, b, st, k);
        if r.out == OutcomeV::Goto(lbl) {
            assert(left(l, head, r.st) == (false, r.st));
            natural_rounds(l, b, lbl, exit, r.st, k);
        }
    }
}

/// The endless loop that replaces a label and the statements up to the last jump back to it runs what
/// they ran, and all around stays.
pub proof fn natural_loops_replace_jumps(l: Lang, b: Block, i: int, e: int, lbl: Text, st: StateV, fuel: nat)
    requires
        lawful(l),
        0 <= i <= e < b.len(),
        NaturalLoop::make(b, i, e, lbl, None) is Some,
        turns_round(b.subrange(i + 1, e + 1), lbl, None),
    ensures
        ({
            let c = NaturalLoop::make(b, i, e, lbl, None)->Some_0;
            &&& c == spec_splice(b, i, e + 1, seq![c[i]])
            &&& exec(l, c[i], st, fuel) == again(l, b.subrange(i + 1, e + 1), lbl, st, fuel)
        }),
{
    let body = b.subrange(i + 1, e + 1);
    let c = NaturalLoop::make(b, i, e, lbl, None)->Some_0;
    let s = spec_while(ExprV::Bool(true), natural_body(body, lbl, None));
    assert(c[i] == s);
    assert(only(s) =~= seq![c[i]]);
    natural_loops_run_again(l, body, lbl, None, st, fuel);
}

// ---- loops tested at the top --------------------------------------------------------------------------------------

/// What one round of a nest of `if`s that jumps back does: nothing where a test fails, and otherwise
/// its body and the jump.
pub open spec fn round_at_top(l: Lang, guard: Option<ExprV>, body: Block, lbl: Text, st: StateV, fuel: nat) -> RunV {
    let a = match guard {
        Some(g) => eval(l, g, st.env, st.w),
        None => crate::meaning::EvalV { v: l.yes, w: st.w },
    };
    let u = StateV { env: st.env, w: a.w };
    if (l.truthy)(a.v) {
        let r = run(l, body, u, fuel);
        if r.out is Normal {
            RunV { out: OutcomeV::Goto(lbl), st: r.st }
        } else {
            r
        }
    } else {
        RunV { out: OutcomeV::Normal, st: u }
    }
}

proof fn back_body_rounds(l: Lang, b: Block, lbl: Text, st: StateV, fuel: nat)
    requires
        lawful(l),
    ensures
        back_body(b, lbl) matches Some((guard, body)) ==> run(l, b, st, fuel) == round_at_top(
            l,
            guard,
            body,
            lbl,
            st,
            fuel,
        ),
    decreases b,
{
    reveal_strlit("and");
    reveal_strlit("or");
    if b.len() == 1 && b[0] is If && b[0]->else_body.len() == 0 {
        if let StmtV::If { cond, then_body, else_body } = b[0] {
            let a = eval(l, cond, st.env, st.w);
            let u = StateV { env: st.env, w: a.w };
            back_body_rounds(l, then_body, lbl, u, fuel);
            assert(b =~= seq![b[0]]);
            run_one(l, b[0], st, fuel);
            assert(run(l, else_body, u, fuel) == (RunV { out: OutcomeV::Normal, st: u }));
        }
    } else if ends_with_goto(b, lbl) {
        let r = run(l, b.drop_last(), st, fuel);
        assert(exec(l, StmtV::Goto(lbl), r.st, fuel) == (RunV { out: OutcomeV::Goto(lbl), st: r.st }));
        assert(StateV { env: st.env, w: st.w } == st);
    }
}

/// A `while` runs what a nest of `if`s after a label runs that ends by jumping back to it, where that
/// ends.
pub proof fn tests_at_the_top_run_again(l: Lang, s: StmtV, lbl: Text, st: StateV, fuel: nat)
    requires
        lawful(l),
        top_test(s, lbl) matches Some((_, body)) && !has_jumps(body) && deep(break_or_continue(), body) == 0,
    ensures
        ({
            let (cond, body) = top_test(s, lbl)->Some_0;
            let r = again(l, seq![s], lbl, st, fuel);
            !(r.out is Unfinished) ==> exec(l, spec_while(cond, body), st, fuel) == r
        }),
{
    let (cond, body) = top_test(s, lbl)->Some_0;
    tested_rounds(l, s, lbl, st, fuel);
    assert(exec(l, spec_while(cond, body), st, fuel) == rounds(l, LoopHead::While(cond), body, st, RoundV::Plain, fuel));
}

proof fn tested_rounds(l: Lang, s: StmtV, lbl: Text, st: StateV, fuel: nat)
    requires
        lawful(l),
        top_test(s, lbl) matches Some((_, body)) && !has_jumps(body) && deep(break_or_continue(), body) == 0,
    ensures
        ({
            let (cond, body) = top_test(s, lbl)->Some_0;
            let r = again(l, seq![s], lbl, st, fuel);
            !(r.out is Unfinished) ==> rounds(l, LoopHead::While(cond), body, st, RoundV::Plain, fuel) == r
        }),
    decreases fuel,
{
    reveal_strlit("and");
    reveal_strlit("or");
    let (cond, body) = top_test(s, lbl)->Some_0;
    let head = LoopHead::While(cond);
    if fuel > 0 {
        let k = (fuel - 1) as nat;
        if let StmtV::If { cond: c, then_body, else_body } = s {
            let a = eval(l, c, st.env, st.w);
            let u = StateV { env: st.env, w: a.w };
            back_body_rounds(l, then_body, lbl, u, k);
            run_one(l, s, st, k);
            assert(run(l, else_body, u, k) == (RunV { out: OutcomeV::Normal, st: u }));
            let h = eval(l, cond, st.env, st.w);
            let v = StateV { env: st.env, w: h.w };
            assert(entered(l, head, st, RoundV::Plain) == ((l.truthy)(h.v), v, RoundV::Plain));
            let q = run(l, seq![s], st, k);
            assert(q == round_at_top(l, Some(cond), body, lbl, st, k));
            no_jumps_none(body, lbl);
            stays_run(l, body, lbl, v, k);
            no_break_run(l, body, v, k);
            if q.out == OutcomeV::Goto(lbl) {
                assert(left(l, head, q.st) == (false, q.st));
                tested_rounds(l, s, lbl, q.st, k);
            }
        }
    }
}

} // verus!
