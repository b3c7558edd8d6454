//! Jumps that become structure land where they did.
use vstd::prelude::*;

use crate::ast::{spec_if, spec_once, spec_splice, Block, ExprV, LoopHead, StmtV};
use crate::conditions::{cond_goto, negated};
use crate::dead_stores::effect_of;
use crate::inlining::pure_eval;
use crate::joins::{ElseLabel, IfElse};
use crate::jumps::{loop_jumping_to, only, replace_gotos, replace_gotos_same, replace_gotos_stmt, terminated};
use crate::labeled_bodies::rest_of;
use crate::logic::{guarded_jumps_jump, landed, negations_deny};
use crate::meaning::{
    begun, entered, eval, exec, lawful, left, rounds, run, run_concat, run_one, Lang, OutcomeV, RoundV, RunV, StateV,
};
use crate::query::{break_or_continue, find_label, find_label_found, goto_to, gotos, has_jumps, label_or_goto};
use crate::routing::{
    absorbed, appended, appended_size, deep_first, each, routed, routed_branch, routed_deep, routed_path, tail_of,
};
use crate::rules::{LabelRule, Rule};
use crate::skips::{find_goto, find_goto_found, ForwardSkip, GuardElse, GuardSkipToEnd, IfSkip};
use crate::text::Text;
use crate::weight::{deep, deep_stmt};

verus! {

// ---- where no jump is -----------------------------------------------------------------------------------------

/// What holds no jump to a label does not jump to it.
proof fn stays_exec(l: Lang, s: StmtV, lbl: Text, st: StateV, fuel: nat)
    requires
        deep_stmt(goto_to(lbl), s) == 0,
    ensures
        exec(l, s, st, fuel).out != OutcomeV::Goto(lbl),
    decreases fuel, s, 0nat,
{
    match s {
        StmtV::If { cond, then_body, else_body } => {
            let t = StateV { env: st.env, w: eval(l, cond, st.env, st.w).w };
            stays_run(l, then_body, lbl, t, fuel);
            stays_run(l, else_body, lbl, t, fuel);
        },
        StmtV::Loop { head, body } => {
            let b = begun(l, head, st);
            stays_rounds(l, head, body, lbl, b.1, b.0, fuel);
        },
        _ => {},
    }
}

/// A block that holds no jump to a label does not jump to it.
pub proof fn stays_run(l: Lang, b: Block, lbl: Text, st: StateV, fuel: nat)
    requires
        deep(goto_to(lbl), b) == 0,
    ensures
        run(l, b, st, fuel).out != OutcomeV::Goto(lbl),
    decreases fuel, b, 1nat,
{
    if b.len() > 0 {
        stays_run(l, b.drop_last(), lbl, st, fuel);
        let r = run(l, b.drop_last(), st, fuel);
        if r.out is Normal {
            stays_exec(l, b.last(), lbl, r.st, fuel);
        }
    }
}

proof fn stays_rounds(l: Lang, head: LoopHead, body: Block, lbl: Text, st: StateV, c: RoundV, fuel: nat)
    requires
        deep(goto_to(lbl), body) == 0,
    ensures
        rounds(l, head, body, st, c, fuel).out != OutcomeV::Goto(lbl),
    decreases fuel, body, 2nat,
{
    let e = entered(l, head, st, c);
    if e.0 && fuel > 0 {
        let k = (fuel - 1) as nat;
        stays_run(l, body, lbl, e.1, k);
        let r = run(l, body, e.1, k);
        if r.out is Normal || r.out is Continue {
            let x = left(l, head, r.st);
            if !x.0 {
                stays_rounds(l, head, body, lbl, x.1, e.2, k);
            }
        }
    }
}

/// Where no jump is, none goes to `lbl`.
pub proof fn no_jumps_none(b: Block, lbl: Text)
    requires
        !has_jumps(b),
    ensures
        deep(goto_to(lbl), b) == 0,
{
    crate::weight::deep_le(goto_to(lbl), label_or_goto(), b);
}

// ---- the first statement ----------------------------------------------------------------------------------------

/// What runs after `r`: `cont` where it ends normally, `target` where it jumps to `lbl`.
pub open spec fn after(l: Lang, r: RunV, lbl: Text, target: Block, cont: Block, fuel: nat) -> RunV {
    if r.out is Normal {
        run(l, cont, r.st, fuel)
    } else if r.out == OutcomeV::Goto(lbl) {
        run(l, target, r.st, fuel)
    } else {
        r
    }
}

/// A block runs its first statement, and then the rest.
pub proof fn run_first(l: Lang, b: Block, st: StateV, fuel: nat)
    requires
        b.len() > 0,
    ensures
        run(l, b, st, fuel) == ({
            let r = exec(l, b[0], st, fuel);
            if r.out is Normal {
                run(l, tail_of(b), r.st, fuel)
            } else {
                r
            }
        }),
{
    assert(b =~= seq![b[0]] + tail_of(b));
    run_concat(l, seq![b[0]], tail_of(b), st, fuel);
    run_one(l, b[0], st, fuel);
}

proof fn appended_runs(l: Lang, a: Block, b: Block, st: StateV, fuel: nat)
    ensures
        run(l, appended(a, b), st, fuel) == run(l, a + b, st, fuel),
{
    run_concat(l, a, b, st, fuel);
    if terminated(a) {
        let r = run(l, a.drop_last(), st, fuel);
        match a.last() {
            StmtV::Return(_) => {
                assert(exec(l, a.last(), r.st, fuel).out is Return);
            },
            _ => {
                assert(!(exec(l, a.last(), r.st, fuel).out is Normal));
            },
        }
    }
}

/// What follows a branch joins what runs after it: a jump to the label that comes next skips it.
pub proof fn absorbing_lands(l: Lang, b: Block, lbl: Text, cont: Block, st: StateV, fuel: nat)
    ensures
        absorbed(b, lbl, cont) matches Some(o) ==> landed(run(l, o, st, fuel), lbl) == landed(
            after(l, run(l, b, st, fuel), lbl, Seq::empty(), cont, fuel),
            lbl,
        ),
    decreases b,
{
    if b.len() > 0 && absorbed(b, lbl, cont) is Some {
        let o = absorbed(b, lbl, cont)->Some_0;
        run_first(l, b, st, fuel);
        let r = exec(l, b[0], st, fuel);
        if deep_stmt(goto_to(lbl), b[0]) == 0 {
            let rest = absorbed(tail_of(b), lbl, cont)->Some_0;
            run_first(l, o, st, fuel);
            assert(o[0] == b[0]);
            assert(tail_of(o) =~= rest);
            stays_exec(l, b[0], lbl, st, fuel);
            absorbing_lands(l, tail_of(b), lbl, cont, r.st, fuel);
        } else {
            match b[0] {
                StmtV::If { cond, then_body, else_body } => {
                    let next = appended(tail_of(b), cont);
                    let u = StateV { env: st.env, w: eval(l, cond, st.env, st.w).w };
                    absorbing_lands(l, then_body, lbl, next, u, fuel);
                    absorbing_lands(l, else_body, lbl, next, u, fuel);
                    run_one(l, o[0], st, fuel);
                    assert(o =~= seq![o[0]]);
                    appended_runs(l, tail_of(b), cont, r.st, fuel);
                    run_concat(l, tail_of(b), cont, r.st, fuel);
                    assert(run(l, Seq::<StmtV>::empty(), r.st, fuel) == (RunV { out: OutcomeV::Normal, st: r.st }));
                    let q = run(l, tail_of(b), r.st, fuel);
                    assert(run(l, Seq::<StmtV>::empty(), q.st, fuel) == (RunV { out: OutcomeV::Normal, st: q.st }));
                },
                _ => {
                    assert(b[0] == StmtV::Goto(lbl));
                    assert(o =~= Seq::<StmtV>::empty());
                },
            }
        }
    }
}

/// Whether nothing after a statement that may jump to `lbl` jumps to it again.
pub open spec fn jumps_last(b: Block, lbl: Text) -> bool
    decreases b,
{
    if b.len() == 0 {
        true
    } else if deep_stmt(goto_to(lbl), b[0]) == 0 {
        jumps_last(b.subrange(1, b.len() as int), lbl)
    } else {
        match b[0] {
            StmtV::If { then_body, else_body, .. } => {
                &&& gotos(tail_of(b), lbl) == 0
                &&& gotos(then_body, lbl) > 0 ==> jumps_last(then_body, lbl)
                &&& gotos(else_body, lbl) > 0 ==> jumps_last(else_body, lbl)
            },
            _ => true,
        }
    }
}

/// What a jump leads to runs in its place, and what follows runs after every other way.
pub proof fn routing_lands(l: Lang, b: Block, lbl: Text, target: Block, cont: Block, st: StateV, fuel: nat)
    requires
        jumps_last(b, lbl),
    ensures
        routed(b, lbl, target, cont) matches Some(o) ==> run(l, o, st, fuel) == after(
            l,
            run(l, b, st, fuel),
            lbl,
            target,
            cont,
            fuel,
        ),
    decreases b, 0nat,
{
    if b.len() > 0 && routed(b, lbl, target, cont) is Some {
        let o = routed(b, lbl, target, cont)->Some_0;
        run_first(l, b, st, fuel);
        let r = exec(l, b[0], st, fuel);
        if deep_stmt(goto_to(lbl), b[0]) == 0 {
            let rest = routed(tail_of(b), lbl, target, cont)->Some_0;
            run_first(l, o, st, fuel);
            assert(o[0] == b[0]);
            assert(tail_of(o) =~= rest);
            stays_exec(l, b[0], lbl, st, fuel);
            routing_lands(l, tail_of(b), lbl, target, cont, r.st, fuel);
        } else {
            match b[0] {
                StmtV::If { cond, then_body, else_body } => {
                    let next = appended(tail_of(b), cont);
                    let u = StateV { env: st.env, w: eval(l, cond, st.env, st.w).w };
                    branch_lands(l, then_body, lbl, target, next, u, fuel);
                    branch_lands(l, else_body, lbl, target, next, u, fuel);
                    run_one(l, o[0], st, fuel);
                    assert(o =~= seq![o[0]]);
                    appended_runs(l, tail_of(b), cont, r.st, fuel);
                    run_concat(l, tail_of(b), cont, r.st, fuel);
                    stays_run(l, tail_of(b), lbl, r.st, fuel);
                },
                _ => {
                    assert(b[0] == StmtV::Goto(lbl));
                },
            }
        }
    }
}

proof fn branch_lands(l: Lang, b: Block, lbl: Text, target: Block, cont: Block, st: StateV, fuel: nat)
    requires
        gotos(b, lbl) > 0 ==> jumps_last(b, lbl),
    ensures
        routed_branch(b, lbl, target, cont) matches Some(o) ==> run(l, o, st, fuel) == after(
            l,
            run(l, b, st, fuel),
            lbl,
            target,
            cont,
            fuel,
        ),
    decreases b, 1nat,
{
    if gotos(b, lbl) > 0 {
        routing_lands(l, b, lbl, target, cont, st, fuel);
    } else {
        appended_runs(l, b, cont, st, fuel);
        run_concat(l, b, cont, st, fuel);
        stays_run(l, b, lbl, st, fuel);
    }
}

// ---- guarded jumps ----------------------------------------------------------------------------------------------

/// `if not c then skipped end` runs what `if c then goto L end; skipped` runs before `::L::`; what
/// stands around stays.
pub proof fn skips_land(l: Lang, b: Block, i: int, st: StateV, fuel: nat) -> (r: (int, Text, Block))
    requires
        lawful(l),
        0 <= i < b.len(),
        IfSkip.at(b, i) is Some,
    ensures
        i < r.0 < b.len() && b[r.0] == StmtV::Label(r.1),
        IfSkip.at(b, i) == Some(spec_splice(b, i, r.0 + 1, r.2)),
        run(l, r.2, st, fuel) == landed(run(l, b.subrange(i, r.0), st, fuel), r.1),
{
    let (c, lbl) = cond_goto(b[i], None)->Some_0;
    let k = find_label(b, i + 1, lbl)->Some_0;
    find_label_found(b, i + 1, lbl);
    let skipped = b.subrange(i + 1, k);
    let part = b.subrange(i, k);
    run_first(l, part, st, fuel);
    assert(part[0] == b[i]);
    assert(tail_of(part) =~= skipped);
    guarded_jumps_jump(l, b[i], None, st, fuel);
    negations_deny(l, c, st.env, st.w);
    let a = eval(l, c, st.env, st.w);
    let u = StateV { env: st.env, w: a.w };
    no_jumps_none(skipped, lbl);
    stays_run(l, skipped, lbl, u, fuel);
    assert(run(l, Seq::<StmtV>::empty(), u, fuel) == (RunV { out: OutcomeV::Normal, st: u }));
    if k == i + 1 {
        assert(skipped =~= Seq::<StmtV>::empty());
        pure_or_called(l, c, st, fuel);
        (k, lbl, effect_of(c))
    } else {
        let s = spec_if(negated(c), skipped);
        run_one(l, s, st, fuel);
        (k, lbl, only(s))
    }
}

proof fn pure_or_called(l: Lang, c: ExprV, st: StateV, fuel: nat)
    ensures
        run(l, effect_of(c), st, fuel) == (RunV {
            out: OutcomeV::Normal,
            st: StateV { env: st.env, w: eval(l, c, st.env, st.w).w },
        }),
{
    if crate::naming::pure(c) {
        pure_eval(l, c, st.env, st.w, st.w);
        assert(run(l, Seq::<StmtV>::empty(), st, fuel) == (RunV { out: OutcomeV::Normal, st }));
    } else {
        run_one(l, StmtV::Call(c), st, fuel);
    }
}

/// `if not c then tail end` runs what `if c then goto L end; tail` runs at the end of a block.
pub proof fn skips_to_the_end_land(l: Lang, g: GuardSkipToEnd, b: Block, i: int, st: StateV, fuel: nat)
    requires
        lawful(l),
        0 <= i < b.len(),
        g.at(b, i) is Some,
    ensures
        ({
            let c = g.at(b, i)->Some_0;
            let lbl = cond_goto(b[i], None)->Some_0.1;
            &&& c.len() == i + 1 && c.take(i) == b.take(i)
            &&& run(l, seq![c[i]], st, fuel) == landed(run(l, b.subrange(i, b.len() as int), st, fuel), lbl)
        }),
{
    let (c, lbl) = cond_goto(b[i], None)->Some_0;
    let n = b.len() as int;
    let tail = b.subrange(i + 1, n);
    let part = b.subrange(i, n);
    run_first(l, part, st, fuel);
    assert(part[0] == b[i]);
    assert(tail_of(part) =~= tail);
    guarded_jumps_jump(l, b[i], None, st, fuel);
    negations_deny(l, c, st.env, st.w);
    let u = StateV { env: st.env, w: eval(l, c, st.env, st.w).w };
    no_jumps_none(tail, lbl);
    stays_run(l, tail, lbl, u, fuel);
    assert(run(l, Seq::<StmtV>::empty(), u, fuel) == (RunV { out: OutcomeV::Normal, st: u }));
    let s = spec_if(negated(c), tail);
    run_one(l, s, st, fuel);
    let d = g.at(b, i)->Some_0;
    assert(d =~= b.subrange(0, i).push(s));
    assert(d.take(i) =~= b.take(i));
}

/// A run of the body of a loop, where to start the next round is to get to the end.
pub open spec fn next_round(r: RunV) -> RunV {
    if r.out is Continue {
        RunV { out: OutcomeV::Normal, st: r.st }
    } else {
        r
    }
}

/// `if not c then accepted else rest end` runs, in the body of a loop, what
/// `if c then goto L end; accepted; continue; ::L::; rest` runs.
pub proof fn guards_with_a_fallback_land(l: Lang, b: Block, i: int, lbl: Text, st: StateV, fuel: nat)
    requires
        lawful(l),
        0 <= i < b.len(),
        GuardElse.at_label(b, i, lbl) is Some,
    ensures
        ({
            let c = GuardElse.at_label(b, i, lbl)->Some_0;
            let k = find_label(b, i + 1, lbl)->Some_0;
            let n = b.len() as int;
            &&& i < k < n && b[k] == StmtV::Label(lbl)
            &&& c.len() == i + 1 && c.take(i) == b.take(i)
            &&& next_round(run(l, seq![c[i]], st, fuel)) == next_round(
                after(l, run(l, b.subrange(i, k), st, fuel), lbl, b.subrange(k + 1, n), b.subrange(k, n), fuel),
            )
        }),
{
    let c = cond_goto(b[i], Some(lbl))->Some_0.0;
    crate::conditions::cond_goto_jumps(b[i], Some(lbl));
    let k = find_label(b, i + 1, lbl)->Some_0;
    find_label_found(b, i + 1, lbl);
    let n = b.len() as int;
    let accepted = b.subrange(i + 1, k - 1);
    let rest = b.subrange(k + 1, n);
    let part = b.subrange(i, k);
    run_first(l, part, st, fuel);
    assert(part[0] == b[i]);
    assert(tail_of(part) =~= accepted + seq![StmtV::Continue]);
    guarded_jumps_jump(l, b[i], Some(lbl), st, fuel);
    negations_deny(l, c, st.env, st.w);
    let u = StateV { env: st.env, w: eval(l, c, st.env, st.w).w };
    run_concat(l, accepted, seq![StmtV::Continue], u, fuel);
    let r = run(l, accepted, u, fuel);
    run_one(l, StmtV::Continue, r.st, fuel);
    no_jumps_none(accepted, lbl);
    stays_run(l, accepted, lbl, u, fuel);
    let s = StmtV::If { cond: negated(c), then_body: accepted, else_body: rest };
    run_one(l, s, st, fuel);
    let d = GuardElse.at_label(b, i, lbl)->Some_0;
    assert(d.take(i) =~= b.take(i));
}

/// `if not c then A else B end` runs what
/// `if c then goto ELSE end; A; goto END; ::ELSE::; B` runs before `::END::`, where nothing else
/// jumps to the two labels.
pub proof fn two_branches_land(l: Lang, b: Block, i: int, st: StateV, fuel: nat) -> (r: (int, int))
    requires
        lawful(l),
        0 <= i < b.len(),
        IfElse.at(b, i) is Some,
        ({
            let lbl = cond_goto(b[i], None)->Some_0.1;
            let e = find_label(b, 0, lbl)->Some_0;
            let end = b[e - 1]->Goto_0;
            let k = find_label(b, 0, end)->Some_0;
            &&& lbl != end && gotos(b.subrange(i + 1, e - 1), lbl) == 0 && gotos(b.subrange(i + 1, e - 1), end) == 0
            &&& gotos(b.subrange(e + 1, k), end) == 0
        }),
    ensures
        ({
            let (e, k) = r;
            let c = IfElse.at(b, i)->Some_0;
            &&& i + 1 < e < k < b.len() && b[e] is Label && b[k] is Label && b[e - 1] == StmtV::Goto(b[k]->Label_0)
            &&& c == spec_splice(b, i, k + 1, seq![c[i]])
            &&& run(l, seq![c[i]], st, fuel) == landed(
                after(
                    l,
                    run(l, b.subrange(i, e), st, fuel),
                    b[e]->Label_0,
                    b.subrange(e + 1, k),
                    b.subrange(e + 1, k),
                    fuel,
                ),
                b[k]->Label_0,
            )
        }),
{
    let (c, lbl) = cond_goto(b[i], None)->Some_0;
    let e = find_label(b, 0, lbl)->Some_0;
    find_label_found(b, 0, lbl);
    let end = b[e - 1]->Goto_0;
    let k = find_label(b, 0, end)->Some_0;
    find_label_found(b, 0, end);
    let first = b.subrange(i + 1, e - 1);
    let second = b.subrange(e + 1, k);
    let part = b.subrange(i, e);
    run_first(l, part, st, fuel);
    assert(part[0] == b[i]);
    assert(tail_of(part) =~= first + seq![b[e - 1]]);
    guarded_jumps_jump(l, b[i], None, st, fuel);
    negations_deny(l, c, st.env, st.w);
    let u = StateV { env: st.env, w: eval(l, c, st.env, st.w).w };
    run_concat(l, first, seq![b[e - 1]], u, fuel);
    let r = run(l, first, u, fuel);
    run_one(l, b[e - 1], r.st, fuel);
    stays_run(l, first, lbl, u, fuel);
    stays_run(l, first, end, u, fuel);
    stays_run(l, second, end, u, fuel);
    let s = StmtV::If { cond: negated(c), then_body: first, else_body: second };
    run_one(l, s, st, fuel);
    let d = IfElse.at(b, i)->Some_0;
    assert(d[i] == s);
    assert(only(s) =~= seq![d[i]]);
    (e, k)
}

/// A first branch that jumps to the label at the head of the second runs the second from there, and
/// what stands around stays.
pub proof fn jumps_into_the_else_land(l: Lang, b: Block, i: int, st: StateV, fuel: nat)
    requires
        0 <= i < b.len(),
        ElseLabel.at(b, i) is Some,
        b[i] is If,
        jumps_last(b[i]->then_body, b[i]->else_body[0]->Label_0),
    ensures
        ({
            let c = ElseLabel.at(b, i)->Some_0;
            let lbl = b[i]->else_body[0]->Label_0;
            &&& b[i]->else_body[0] is Label
            &&& c == spec_splice(b, i, i + 1, seq![c[i]])
            &&& run(l, seq![c[i]], st, fuel) == after(
                l,
                run(l, seq![b[i]], st, fuel),
                lbl,
                b[i]->else_body,
                Seq::empty(),
                fuel,
            )
        }),
{
    if let StmtV::If { cond, then_body, else_body } = b[i] {
        let lbl = else_body[0]->Label_0;
        let target = rest_of(else_body);
        let t = routed(then_body, lbl, target, Seq::empty())->Some_0;
        let s = StmtV::If { cond, then_body: t, else_body: target };
        let u = StateV { env: st.env, w: eval(l, cond, st.env, st.w).w };
        routing_lands(l, then_body, lbl, target, Seq::empty(), u, fuel);
        run_one(l, s, st, fuel);
        run_one(l, b[i], st, fuel);
        run_first(l, else_body, u, fuel);
        assert(tail_of(else_body) =~= target);
        let r = run(l, then_body, u, fuel);
        run_first(l, else_body, r.st, fuel);
        stays_run(l, else_body, lbl, u, fuel);
        let q = run(l, seq![b[i]], st, fuel);
        assert(run(l, Seq::<StmtV>::empty(), q.st, fuel) == (RunV { out: OutcomeV::Normal, st: q.st }));
        let d = ElseLabel.at(b, i)->Some_0;
        assert(d[i] == s);
        assert(only(s) =~= seq![d[i]]);
    }
}

/// As [`routing_lands`], where jumps are also taken out of what follows.
pub proof fn deep_routing_lands(l: Lang, b: Block, lbl: Text, target: Block, cont: Block, st: StateV, fuel: nat)
    requires
        gotos(cont, lbl) == 0,
    ensures
        routed_deep(b, lbl, target, cont) matches Some(o) ==> run(l, o, st, fuel) == after(
            l,
            run(l, b, st, fuel),
            lbl,
            target,
            cont,
            fuel,
        ),
    decreases deep(each(), b) + deep(each(), cont), 0nat,
{
    if b.len() > 0 && routed_deep(b, lbl, target, cont) is Some {
        let o = routed_deep(b, lbl, target, cont)->Some_0;
        run_first(l, b, st, fuel);
        let r = exec(l, b[0], st, fuel);
        deep_first(each(), b);
        if deep_stmt(goto_to(lbl), b[0]) == 0 {
            let rest = routed_deep(tail_of(b), lbl, target, cont)->Some_0;
            run_first(l, o, st, fuel);
            assert(o[0] == b[0]);
            assert(tail_of(o) =~= rest);
            stays_exec(l, b[0], lbl, st, fuel);
            deep_routing_lands(l, tail_of(b), lbl, target, cont, r.st, fuel);
        } else {
            match b[0] {
                StmtV::If { cond, then_body, else_body } => {
                    let next = appended(tail_of(b), cont);
                    let u = StateV { env: st.env, w: eval(l, cond, st.env, st.w).w };
                    appended_size(tail_of(b), cont);
                    appended_size(then_body, next);
                    appended_size(else_body, next);
                    path_lands(l, appended(then_body, next), lbl, target, u, fuel);
                    path_lands(l, appended(else_body, next), lbl, target, u, fuel);
                    appended_runs(l, then_body, next, u, fuel);
                    appended_runs(l, else_body, next, u, fuel);
                    run_concat(l, then_body, next, u, fuel);
                    run_concat(l, else_body, next, u, fuel);
                    run_one(l, o[0], st, fuel);
                    assert(o =~= seq![o[0]]);
                    appended_runs(l, tail_of(b), cont, r.st, fuel);
                    run_concat(l, tail_of(b), cont, r.st, fuel);
                    let q = run(l, tail_of(b), r.st, fuel);
                    stays_run(l, cont, lbl, q.st, fuel);
                    let e = run(l, next, r.st, fuel);
                    assert(run(l, Seq::<StmtV>::empty(), e.st, fuel) == (RunV { out: OutcomeV::Normal, st: e.st }));
                    assert(run(l, Seq::<StmtV>::empty(), r.st, fuel) == (RunV { out: OutcomeV::Normal, st: r.st }));
                },
                _ => {
                    assert(b[0] == StmtV::Goto(lbl));
                },
            }
        }
    }
}

proof fn path_lands(l: Lang, b: Block, lbl: Text, target: Block, st: StateV, fuel: nat)
    ensures
        routed_path(b, lbl, target) matches Some(o) ==> run(l, o, st, fuel) == after(
            l,
            run(l, b, st, fuel),
            lbl,
            target,
            Seq::empty(),
            fuel,
        ),
    decreases deep(each(), b), 1nat,
{
    let r = run(l, b, st, fuel);
    assert(run(l, Seq::<StmtV>::empty(), r.st, fuel) == (RunV { out: OutcomeV::Normal, st: r.st }));
    assert(deep(each(), Seq::<StmtV>::empty()) == 0);
    assert(gotos(Seq::<StmtV>::empty(), lbl) == 0);
    if gotos(b, lbl) > 0 {
        deep_routing_lands(l, b, lbl, target, Seq::empty(), st, fuel);
    } else {
        stays_run(l, b, lbl, st, fuel);
    }
}

// ---- jumps that become `break` ----------------------------------------------------------------------------------

/// A run whose jump to `lbl` is a `break`.
pub open spec fn breaking(r: RunV, lbl: Text) -> RunV {
    if r.out == OutcomeV::Goto(lbl) {
        RunV { out: OutcomeV::Break, st: r.st }
    } else {
        r
    }
}

/// How `s` ends, which is `break` or `continue`.
pub open spec fn way_out(s: StmtV) -> OutcomeV {
    if s is Break {
        OutcomeV::Break
    } else {
        OutcomeV::Continue
    }
}

/// A run whose jump to `lbl` is the `break` or `continue` `s`.
pub open spec fn turned(r: RunV, lbl: Text, s: StmtV) -> RunV {
    if r.out == OutcomeV::Goto(lbl) {
        RunV { out: way_out(s), st: r.st }
    } else {
        r
    }
}

/// Where no loop holds a jump to a label, the jumps turned into `break` or `continue` leave what they
/// left.
pub proof fn words_stand_for_jumps(l: Lang, b: Block, lbl: Text, s: StmtV, st: StateV, fuel: nat)
    requires
        deep(loop_jumping_to(lbl), b) == 0,
        s is Break || s is Continue,
    ensures
        run(l, replace_gotos(b, lbl, only(s)), st, fuel) == turned(run(l, b, st, fuel), lbl, s),
    decreases b,
{
    if b.len() > 0 {
        let front = b.drop_last();
        words_stand_for_jumps(l, front, lbl, s, st, fuel);
        let r = run(l, front, st, fuel);
        run_concat(l, replace_gotos(front, lbl, only(s)), replace_gotos_stmt(b.last(), lbl, only(s)), st, fuel);
        word_stands_for_jump(l, b.last(), lbl, s, r.st, fuel);
    }
}

proof fn word_stands_for_jump(l: Lang, o: StmtV, lbl: Text, s: StmtV, st: StateV, fuel: nat)
    requires
        deep_stmt(loop_jumping_to(lbl), o) == 0,
        s is Break || s is Continue,
    ensures
        run(l, replace_gotos_stmt(o, lbl, only(s)), st, fuel) == turned(exec(l, o, st, fuel), lbl, s),
    decreases o,
{
    run_one(l, s, st, fuel);
    run_one(l, o, st, fuel);
    match o {
        StmtV::If { cond, then_body, else_body } => {
            let u = StateV { env: st.env, w: eval(l, cond, st.env, st.w).w };
            words_stand_for_jumps(l, then_body, lbl, s, u, fuel);
            words_stand_for_jumps(l, else_body, lbl, s, u, fuel);
            let t = StmtV::If {
                cond,
                then_body: replace_gotos(then_body, lbl, only(s)),
                else_body: replace_gotos(else_body, lbl, only(s)),
            };
            run_one(l, t, st, fuel);
        },
        StmtV::Loop { head, body } => {
            assert(gotos(body, lbl) == 0);
            replace_gotos_same(body, lbl, only(s));
            stays_exec(l, o, lbl, st, fuel);
        },
        _ => {},
    }
}

/// Where no loop holds a jump to a label, the jumps turned into `break` leave what they left.
pub proof fn breaks_stand_for_jumps(l: Lang, b: Block, lbl: Text, st: StateV, fuel: nat)
    requires
        deep(loop_jumping_to(lbl), b) == 0,
    ensures
        run(l, replace_gotos(b, lbl, only(StmtV::Break)), st, fuel) == breaking(run(l, b, st, fuel), lbl),
{
    words_stand_for_jumps(l, b, lbl, StmtV::Break, st, fuel);
}

/// What holds no `break` and no `continue` ends by neither.
pub proof fn no_break_run(l: Lang, b: Block, st: StateV, fuel: nat)
    requires
        deep(break_or_continue(), b) == 0,
    ensures
        !(run(l, b, st, fuel).out is Break) && !(run(l, b, st, fuel).out is Continue),
    decreases fuel, b, 1nat,
{
    if b.len() > 0 {
        no_break_run(l, b.drop_last(), st, fuel);
        let r = run(l, b.drop_last(), st, fuel);
        if r.out is Normal {
            no_break_exec(l, b.last(), r.st, fuel);
        }
    }
}

proof fn no_break_exec(l: Lang, s: StmtV, st: StateV, fuel: nat)
    requires
        deep_stmt(break_or_continue(), s) == 0,
    ensures
        !(exec(l, s, st, fuel).out is Break) && !(exec(l, s, st, fuel).out is Continue),
    decreases fuel, s, 0nat,
{
    match s {
        StmtV::If { cond, then_body, else_body } => {
            let t = StateV { env: st.env, w: eval(l, cond, st.env, st.w).w };
            no_break_run(l, then_body, t, fuel);
            no_break_run(l, else_body, t, fuel);
        },
        StmtV::Loop { head, body } => {
            let b = begun(l, head, st);
            rounds_end(l, head, body, b.1, b.0, fuel);
        },
        _ => {},
    }
}

proof fn rounds_end(l: Lang, head: LoopHead, body: Block, st: StateV, c: RoundV, fuel: nat)
    ensures
        !(rounds(l, head, body, st, c, fuel).out is Break) && !(rounds(l, head, body, st, c, fuel).out is Continue),
    decreases fuel,
{
    let e = entered(l, head, st, c);
    if e.0 && fuel > 0 {
        let k = (fuel - 1) as nat;
        let r = run(l, body, e.1, k);
        if r.out is Normal || r.out is Continue {
            let x = left(l, head, r.st);
            if !x.0 {
                rounds_end(l, head, body, x.1, e.2, k);
            }
        }
    }
}

/// `repeat .. until true`, in which jumps to a label are `break`s, leaves what the statements leave
/// before that label. It takes one round of a loop more.
pub proof fn blocks_left_by_break_land(l: Lang, b: Block, lbl: Text, st: StateV, fuel: nat)
    requires
        lawful(l),
        deep(loop_jumping_to(lbl), b) == 0,
        deep(break_or_continue(), b) == 0,
    ensures
        run(l, only(spec_once(replace_gotos(b, lbl, only(StmtV::Break)))), st, fuel + 1) == landed(
            run(l, b, st, fuel),
            lbl,
        ),
{
    let body = replace_gotos(b, lbl, only(StmtV::Break));
    let head = LoopHead::Repeat(ExprV::Bool(true));
    breaks_stand_for_jumps(l, b, lbl, st, fuel);
    no_break_run(l, b, st, fuel);
    run_one(l, spec_once(body), st, fuel + 1);
    assert(entered(l, head, st, RoundV::Plain) == (true, st, RoundV::Plain));
    assert((fuel + 1 - 1) as nat == fuel);
    let r = run(l, body, st, fuel);
    assert(exec(l, spec_once(body), st, fuel + 1) == rounds(l, head, body, st, RoundV::Plain, fuel + 1));
    assert(left(l, head, r.st) == (true, r.st));
}

/// A block that `break` leaves stands for statements with jumps to the label after them; what
/// stands around stays.
pub proof fn forward_skips_land(l: Lang, b: Block, i: int, st: StateV, fuel: nat) -> (f: int)
    requires
        lawful(l),
        0 <= i < b.len(),
        ForwardSkip.at(b, i) is Some,
    ensures
        ({
            let c = ForwardSkip.at(b, i)->Some_0;
            &&& 0 <= f < i && b[i] is Label
            &&& c == spec_splice(b, f, i + 1, seq![c[f]])
            &&& run(l, seq![c[f]], st, fuel + 1) == landed(run(l, b.subrange(f, i), st, fuel), b[i]->Label_0)
        }),
{
    let lbl = b[i]->Label_0;
    find_goto_found(b, 0, i, lbl);
    let f = find_goto(b, 0, i, lbl)->Some_0;
    let region = b.subrange(f, i);
    blocks_left_by_break_land(l, region, lbl, st, fuel);
    let s = spec_once(replace_gotos(region, lbl, only(StmtV::Break)));
    let c = ForwardSkip.at(b, i)->Some_0;
    assert(c[f] == s);
    assert(only(s) =~= seq![c[f]]);
    f
}

} // verus!
