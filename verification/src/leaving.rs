//! What leaves early leaves as it did, and what control never gets to does nothing.
use vstd::prelude::*;

use crate::ast::{spec_splice, Block, ExprV, LoopHead, StmtV};
use crate::conditions::{binary, negated};
use crate::function_ends::{
    bare_return, epilogue, epilogue_copied, final_goto_returned, find_epilogue, last_before_return, leads_epilogue,
    returning, simple, terminal_gotos_returned, terminal_label,
};
use crate::inlining::pure_eval;
use crate::joins::{joined, nested_join, trailing_goto};
use crate::jumps::{broken_loop, loop_jumping_to, only, replace_gotos, replace_gotos_stmt, terminated};
use crate::landing::{
    absorbing_lands, after, breaks_stand_for_jumps, jumps_last, no_jumps_none, routing_lands, stays_run,
};
use crate::locals::{all_bare, initialized};
use crate::logic::{landed, negations_deny};
use crate::meaning::{
    begun, entered, eval, eval_places, exec, lawful, left, name_places, rounds, run, run_concat, run_one, Lang,
    OutcomeV, PlaceV, RoundV, RunV, StateV,
};
use crate::orphans::{ends_skip, skip_end, NestedSkip};
use crate::pipeline::{final_return_dropped, unit_steps_dropped, unit_steps_dropped_in};
use crate::query::{find_label_found, has_jumps, labels, var_names};
use crate::routing::{routed, tail_of, widened, widened_stmt};
use crate::rules::LabelRule;
use crate::sweeps::{
    before_label, break_guard, label_after_comments, label_from, labels_kept, labels_kept_stmt, reachable, terminator,
    with_guards_merged, without_redundant,
};
use crate::text::Text;
use crate::weight::deep;

verus! {

// ---- jumps that become `return` -----------------------------------------------------------------------------------

/// Whether `body` always returns, whatever the number of rounds that loops may make.
pub open spec fn always_returns(l: Lang, body: Block) -> bool {
    forall|st: StateV, f: nat, g: nat|
        #![trigger run(l, body, st, f), run(l, body, st, g)]
        run(l, body, st, f).out is Return && run(l, body, st, f) == run(l, body, st, g)
}

/// A run that goes on with `body` where it jumps to `lbl`.
pub open spec fn led_on(l: Lang, r: RunV, lbl: Text, body: Block, fuel: nat) -> RunV {
    if r.out == OutcomeV::Goto(lbl) {
        run(l, body, r.st, fuel)
    } else {
        r
    }
}

/// Jumps that are replaced by statements that return run these where they jumped, also out of loops.
pub proof fn copies_stand_for_jumps(l: Lang, b: Block, lbl: Text, body: Block, st: StateV, fuel: nat)
    requires
        always_returns(l, body),
    ensures
        run(l, replace_gotos(b, lbl, body), st, fuel) == led_on(l, run(l, b, st, fuel), lbl, body, fuel),
    decreases fuel, b, 1nat,
{
    if b.len() > 0 {
        let front = b.drop_last();
        copies_stand_for_jumps(l, front, lbl, body, st, fuel);
        let r = run(l, front, st, fuel);
        run_concat(l, replace_gotos(front, lbl, body), replace_gotos_stmt(b.last(), lbl, body), st, fuel);
        copy_stands_for_jump(l, b.last(), lbl, body, r.st, fuel);
        assert(run(l, body, r.st, fuel) == run(l, body, r.st, fuel));
    }
}

proof fn copy_stands_for_jump(l: Lang, s: StmtV, lbl: Text, body: Block, st: StateV, fuel: nat)
    requires
        always_returns(l, body),
    ensures
        run(l, replace_gotos_stmt(s, lbl, body), st, fuel) == led_on(l, exec(l, s, st, fuel), lbl, body, fuel),
    decreases fuel, s, 0nat,
{
    run_one(l, s, st, fuel);
    match s {
        StmtV::If { cond, then_body, else_body } => {
            let u = StateV { env: st.env, w: eval(l, cond, st.env, st.w).w };
            copies_stand_for_jumps(l, then_body, lbl, body, u, fuel);
            copies_stand_for_jumps(l, else_body, lbl, body, u, fuel);
            let t = StmtV::If {
                cond,
                then_body: replace_gotos(then_body, lbl, body),
                else_body: replace_gotos(else_body, lbl, body),
            };
            run_one(l, t, st, fuel);
        },
        StmtV::Loop { head, body: inner } => {
            let b = begun(l, head, st);
            let t = StmtV::Loop { head, body: replace_gotos(inner, lbl, body) };
            run_one(l, t, st, fuel);
            copies_in_rounds(l, head, inner, lbl, body, b.1, b.0, fuel);
        },
        _ => {},
    }
}

proof fn copies_in_rounds(
    l: Lang,
    head: LoopHead,
    inner: Block,
    lbl: Text,
    body: Block,
    st: StateV,
    c: RoundV,
    fuel: nat,
)
    requires
        always_returns(l, body),
    ensures
        rounds(l, head, replace_gotos(inner, lbl, body), st, c, fuel) == led_on(
            l,
            rounds(l, head, inner, st, c, fuel),
            lbl,
            body,
            fuel,
        ),
    decreases fuel, inner, 2nat,
{
    let e = entered(l, head, st, c);
    if e.0 && fuel > 0 {
        let k = (fuel - 1) as nat;
        copies_stand_for_jumps(l, inner, lbl, body, e.1, k);
        let r = run(l, inner, e.1, k);
        assert(run(l, body, r.st, k).out is Return && run(l, body, r.st, k) == run(l, body, r.st, fuel));
        if r.out is Normal || r.out is Continue {
            let x = left(l, head, r.st);
            if !x.0 {
                copies_in_rounds(l, head, inner, lbl, body, x.1, e.2, k);
                let q = rounds(l, head, inner, x.1, e.2, k);
                assert(run(l, body, q.st, k).out is Return && run(l, body, q.st, k) == run(l, body, q.st, fuel));
            }
        }
    }
}

proof fn bare_return_returns(l: Lang)
    ensures
        always_returns(l, only(bare_return())),
        forall|st: StateV, f: nat| #[trigger]
            run(l, only(bare_return()), st, f) == (RunV { out: OutcomeV::Return(Seq::empty()), st }),
{
    assert forall|st: StateV, f: nat| #[trigger]
        run(l, only(bare_return()), st, f) == (RunV { out: OutcomeV::Return(Seq::empty()), st }) by {
        run_one(l, bare_return(), st, f);
    }
}

/// A run of a function: to get to its end is to return nothing.
pub open spec fn ended(r: RunV) -> RunV {
    if r.out is Normal {
        RunV { out: OutcomeV::Return(Seq::empty()), st: r.st }
    } else {
        r
    }
}

/// A function in which jumps to a label at its end are `return`s ends as the function does where
/// such jumps lead to its end.
pub proof fn jumps_to_the_end_return(l: Lang, b: Block, st: StateV, fuel: nat)
    requires
        terminal_label(b) is Some,
    ensures
        ended(run(l, terminal_gotos_returned(b), st, fuel)) == ended(
            landed(run(l, b, st, fuel), terminal_label(b)->Some_0.1),
        ) || terminal_gotos_returned(b) == b,
{
    let (k, lbl) = terminal_label(b)->Some_0;
    let c = spec_splice(b, k, k + 1, Seq::empty());
    let head = b.subrange(0, k);
    let tail = b.subrange(k + 1, b.len() as int);
    bare_return_returns(l);
    copies_stand_for_jumps(l, c, lbl, only(bare_return()), st, fuel);
    assert(b =~= head + seq![b[k]] + tail);
    assert(c =~= head + tail);
    run_concat(l, head + seq![b[k]], tail, st, fuel);
    run_concat(l, head, seq![b[k]], st, fuel);
    run_concat(l, head, tail, st, fuel);
    let r = run(l, head, st, fuel);
    run_one(l, b[k], r.st, fuel);
    assert(run(l, only(bare_return()), run(l, c, st, fuel).st, fuel).out is Return);
}

// ---- jumps that become `break` ------------------------------------------------------------------------------------

/// A loop in which jumps to the label after it are `break`s leaves what the loop leaves before that
/// label, where no loop inside it jumps there.
pub proof fn broken_loops_land(l: Lang, s: StmtV, lbl: Text, st: StateV, fuel: nat)
    requires
        s is Loop,
        deep(loop_jumping_to(lbl), s->Loop_body) == 0,
    ensures
        exec(l, broken_loop(s, lbl), st, fuel) == landed(exec(l, s, st, fuel), lbl),
{
    if let StmtV::Loop { head, body } = s {
        let b = begun(l, head, st);
        broken_rounds_land(l, head, body, lbl, b.1, b.0, fuel);
    }
}

proof fn broken_rounds_land(l: Lang, head: LoopHead, body: Block, lbl: Text, st: StateV, c: RoundV, fuel: nat)
    requires
        deep(loop_jumping_to(lbl), body) == 0,
    ensures
        rounds(l, head, replace_gotos(body, lbl, only(StmtV::Break)), st, c, fuel) == landed(
            rounds(l, head, body, st, c, fuel),
            lbl,
        ),
    decreases fuel,
{
    let e = entered(l, head, st, c);
    if e.0 && fuel > 0 {
        let k = (fuel - 1) as nat;
        breaks_stand_for_jumps(l, body, lbl, e.1, k);
        let r = run(l, body, e.1, k);
        if r.out is Normal || r.out is Continue {
            let x = left(l, head, r.st);
            if !x.0 {
                broken_rounds_land(l, head, body, lbl, x.1, e.2, k);
            }
        }
    }
}

// ---- joins --------------------------------------------------------------------------------------------------------

proof fn widened_runs(l: Lang, b: Block, following: Block, st: StateV, fuel: nat)
    ensures
        run(l, widened(b, following), st, fuel) == run(l, b, st, fuel),
    decreases b.len(),
{
    let w = widened(b, following);
    if b.len() > 0 {
        widened_runs(l, b.drop_last(), following, st, fuel);
        assert(w.drop_last() =~= widened(b.drop_last(), following));
        assert(w.last() == widened_stmt(b.last(), following));
        let r = run(l, b.drop_last(), st, fuel);
        if let StmtV::Local { names, values } = b.last() {
            let ts = Seq::new(names.len(), |i: int| ExprV::Var(names[i]));
            names_as_targets(l, names, ts, r.st);
            assert(name_places(names).len() == names.len());
        }
        assert(exec(l, w.last(), r.st, fuel) == exec(l, b.last(), r.st, fuel));
        assert(run(l, w, st, fuel) == run(l, b, st, fuel));
    } else {
        assert(w =~= b);
    }
}

proof fn names_as_targets(l: Lang, names: Seq<Text>, ts: Seq<ExprV>, st: StateV)
    requires
        ts == Seq::new(names.len(), |i: int| ExprV::Var(names[i])),
    ensures
        eval_places(l, ts, st.env, st.w).places == name_places(names),
        eval_places(l, ts, st.env, st.w).w == st.w,
    decreases names.len(),
{
    if names.len() > 0 {
        let front = names.drop_last();
        let us = Seq::new(front.len(), |i: int| ExprV::Var(front[i]));
        names_as_targets(l, front, us, st);
        assert(ts.drop_last() =~= us);
        assert(ts.last() == ExprV::Var(names.last()));
        assert(name_places(names) =~= name_places(front).push(PlaceV::Name(names.last())));
    } else {
        assert(name_places(names) =~= Seq::<PlaceV>::empty());
    }
}

/// A branching that takes in what stands up to the label that its jump goes to leaves there what it
/// left before.
pub proof fn joins_land(l: Lang, root: Block, b: Block, i: int, st: StateV, fuel: nat)
    requires
        0 <= i < b.len(),
        nested_join(root, b, i) is Some,
    ensures
        ({
            let (lbl, k, s) = nested_join(root, b, i)->Some_0;
            &&& i < k < b.len() && b[k] == StmtV::Label(lbl)
            &&& landed(run(l, seq![s], st, fuel), lbl) == landed(run(l, b.subrange(i, k), st, fuel), lbl)
        }),
{
    let (lbl, k, s) = nested_join(root, b, i)->Some_0;
    find_label_found(b, i + 1, lbl);
    let between = b.subrange(i + 1, k);
    let rest = b.subrange(k + 1, b.len() as int);
    let cont = widened(between, rest);
    assert(b.subrange(i, k) =~= seq![b[i]] + between);
    run_concat(l, seq![b[i]], between, st, fuel);
    run_one(l, b[i], st, fuel);
    run_one(l, s, st, fuel);
    if let StmtV::If { cond, then_body, else_body } = b[i] {
        let u = StateV { env: st.env, w: eval(l, cond, st.env, st.w).w };
        absorbing_lands(l, then_body, lbl, cont, u, fuel);
        absorbing_lands(l, else_body, lbl, cont, u, fuel);
        let r = exec(l, b[i], st, fuel);
        widened_runs(l, between, rest, r.st, fuel);
        assert(run(l, Seq::<StmtV>::empty(), r.st, fuel) == (RunV { out: OutcomeV::Normal, st: r.st }));
    }
}

/// A branch that ends by jumping over what follows needs no jump where what follows joins the other
/// branch.
pub proof fn trailing_joins_land(l: Lang, s: StmtV, fallback: Block, st: StateV, fuel: nat)
    requires
        trailing_goto(s) is Some,
    ensures
        ({
            let (lbl, first) = trailing_goto(s)->Some_0;
            landed(run(l, seq![joined(s, first, fallback)], st, fuel), lbl) == landed(
                run(l, seq![s] + fallback, st, fuel),
                lbl,
            )
        }),
{
    let (lbl, first) = trailing_goto(s)->Some_0;
    let j = joined(s, first, fallback);
    run_concat(l, seq![s], fallback, st, fuel);
    run_one(l, s, st, fuel);
    run_one(l, j, st, fuel);
    if let StmtV::If { cond, then_body, else_body } = s {
        let u = StateV { env: st.env, w: eval(l, cond, st.env, st.w).w };
        let r = exec(l, s, st, fuel);
        if first {
            run_concat(l, else_body, fallback, u, fuel);
            let t = run(l, then_body.drop_last(), u, fuel);
            assert(exec(l, StmtV::Goto(lbl), t.st, fuel) == (RunV { out: OutcomeV::Goto(lbl), st: t.st }));
            assert(run(l, then_body, u, fuel) == if t.out is Normal {
                RunV { out: OutcomeV::Goto(lbl), st: t.st }
            } else {
                t
            });
        } else {
            run_concat(l, then_body, fallback, u, fuel);
            let t = run(l, else_body.drop_last(), u, fuel);
            assert(exec(l, StmtV::Goto(lbl), t.st, fuel) == (RunV { out: OutcomeV::Goto(lbl), st: t.st }));
            assert(run(l, else_body, u, fuel) == if t.out is Normal {
                RunV { out: OutcomeV::Goto(lbl), st: t.st }
            } else {
                t
            });
        }
    }
}

/// What is left of a statement before a label leaves there what the statement left.
pub proof fn jumps_to_the_next_label_do_nothing(l: Lang, s: StmtV, lbl: Text, st: StateV, fuel: nat)
    ensures
        landed(run(l, before_label(s, lbl), st, fuel), lbl) == landed(run(l, seq![s], st, fuel), lbl),
{
    run_one(l, s, st, fuel);
    if let StmtV::If { cond, then_body, else_body } = s {
        let a = eval(l, cond, st.env, st.w);
        let u = StateV { env: st.env, w: a.w };
        let t = crate::sweeps::without_final_goto(then_body, lbl);
        let e = crate::sweeps::without_final_goto(else_body, lbl);
        final_jump(l, then_body, lbl, u, fuel);
        final_jump(l, else_body, lbl, u, fuel);
        let q = StmtV::If { cond, then_body: t, else_body: e };
        run_one(l, q, st, fuel);
        run_one(l, StmtV::Call(cond), st, fuel);
        assert(t.len() == 0 ==> run(l, t, u, fuel) == (RunV { out: OutcomeV::Normal, st: u }));
        assert(e.len() == 0 ==> run(l, e, u, fuel) == (RunV { out: OutcomeV::Normal, st: u }));
        assert(run(l, Seq::<StmtV>::empty(), st, fuel) == (RunV { out: OutcomeV::Normal, st }));
        if crate::naming::pure(cond) {
            pure_eval(l, cond, st.env, st.w, st.w);
        }
    }
}

proof fn final_jump(l: Lang, b: Block, lbl: Text, st: StateV, fuel: nat)
    ensures
        landed(run(l, crate::sweeps::without_final_goto(b, lbl), st, fuel), lbl) == landed(run(l, b, st, fuel), lbl),
{
    if b.len() > 0 && b.last() == StmtV::Goto(lbl) {
        let t = run(l, b.drop_last(), st, fuel);
        assert(exec(l, StmtV::Goto(lbl), t.st, fuel) == (RunV { out: OutcomeV::Goto(lbl), st: t.st }));
        assert(run(l, b, st, fuel) == if t.out is Normal {
            RunV { out: OutcomeV::Goto(lbl), st: t.st }
        } else {
            t
        });
    }
}

/// The label that comes next stands behind nothing that does anything.
pub proof fn next_labels_come_next(l: Lang, b: Block, i: int, st: StateV, fuel: nat) -> (k: int)
    requires
        0 <= i <= b.len(),
        label_after_comments(b, i) is Some,
    ensures
        i <= k < b.len(),
        b[k] == StmtV::Label(label_after_comments(b, i)->Some_0),
        run(l, b.subrange(i, k), st, fuel) == (RunV { out: OutcomeV::Normal, st }),
    decreases b.len() - i,
{
    match b[i] {
        StmtV::Comment(_) => {
            let k = next_labels_come_next(l, b, i + 1, st, fuel);
            assert(b.subrange(i, k) =~= seq![b[i]] + b.subrange(i + 1, k));
            run_concat(l, seq![b[i]], b.subrange(i + 1, k), st, fuel);
            run_one(l, b[i], st, fuel);
            k
        },
        _ => {
            assert(b.subrange(i, i) =~= Seq::<StmtV>::empty());
            i
        },
    }
}

/// A jump is left out only where it leads to a label that comes next, and all else stays.
pub proof fn only_jumps_to_what_comes_next_go(l: Lang, b: Block, i: int, st: StateV, fuel: nat) -> (k: int)
    requires
        0 <= i < b.len(),
    ensures
        without_redundant(b, i) == seq![b[i]] + without_redundant(b, i + 1) || {
            &&& without_redundant(b, i) == without_redundant(b, i + 1)
            &&& i < k < b.len() && b[k] is Label
            &&& landed(run(l, b.subrange(i, k), st, fuel), b[k]->Label_0) == (RunV { out: OutcomeV::Normal, st })
        },
        b[i] is Goto && i + 1 < b.len() && b[i + 1] == StmtV::Label(b[i]->Goto_0) ==> without_redundant(b, i)
            == without_redundant(b, i + 1),
{
    if b[i] is Goto && label_after_comments(b, i + 1) == Some(b[i]->Goto_0) {
        let k = next_labels_come_next(l, b, i + 1, st, fuel);
        assert(b.subrange(i, k) =~= seq![b[i]] + b.subrange(i + 1, k));
        run_concat(l, seq![b[i]], b.subrange(i + 1, k), st, fuel);
        run_one(l, b[i], st, fuel);
        k
    } else {
        i
    }
}

// ---- what control never gets to -----------------------------------------------------------------------------------

/// A block without what control never gets to runs as the block does, from its beginning and from
/// each of its labels.
pub proof fn unreachable_statements_do_nothing(l: Lang, b: Block, i: int, st: StateV, fuel: nat)
    requires
        0 <= i <= b.len(),
    ensures
        run(l, reachable(b, i), st, fuel) == run(l, b.subrange(i, b.len() as int), st, fuel),
    decreases b.len() - i,
{
    let n = b.len() as int;
    let part = b.subrange(i, n);
    if i < n {
        let rest = b.subrange(i + 1, n);
        assert(part =~= seq![b[i]] + rest);
        run_concat(l, seq![b[i]], rest, st, fuel);
        run_one(l, b[i], st, fuel);
        let r = exec(l, b[i], st, fuel);
        if terminator(b[i]) {
            let k = label_from(b, i + 1);
            crate::sweeps::label_from_bounds(b, i + 1);
            run_concat(l, seq![b[i]], reachable(b, k), st, fuel);
            match b[i] {
                StmtV::Return(_) => {
                    assert(r.out is Return);
                },
                _ => {},
            }
        } else {
            run_concat(l, seq![b[i]], reachable(b, i + 1), st, fuel);
            unreachable_statements_do_nothing(l, b, i + 1, r.st, fuel);
        }
    } else {
        assert(part =~= Seq::<StmtV>::empty());
    }
}

/// From each label on, what control may get to stays.
pub proof fn labels_lead_where_they_did(b: Block, i: int, k: int) -> (j: int)
    requires
        0 <= i <= k < b.len(),
        b[k] is Label,
    ensures
        0 <= j <= reachable(b, i).len(),
        reachable(b, i).skip(j) == reachable(b, k),
    decreases b.len() - i,
{
    if i == k {
        assert(reachable(b, i).skip(0) =~= reachable(b, i));
        0
    } else if terminator(b[i]) {
        let m = label_from(b, i + 1);
        crate::sweeps::label_from_bounds(b, i + 1);
        first_label_is_first(b, i + 1, k);
        let j = labels_lead_where_they_did(b, m, k);
        assert(reachable(b, i).skip(j + 1) =~= reachable(b, m).skip(j));
        j + 1
    } else {
        let j = labels_lead_where_they_did(b, i + 1, k);
        assert(reachable(b, i).skip(j + 1) =~= reachable(b, i + 1).skip(j));
        j + 1
    }
}

proof fn first_label_is_first(b: Block, i: int, k: int)
    requires
        0 <= i <= k < b.len(),
        b[k] is Label,
    ensures
        i <= label_from(b, i) <= k,
    decreases k - i,
{
    if !(b[i] is Label) {
        first_label_is_first(b, i + 1, k);
    }
}

/// Labels that are left out did nothing.
pub proof fn dropped_labels_do_nothing(l: Lang, b: Block, keep: Seq<Text>, st: StateV, fuel: nat)
    ensures
        run(l, labels_kept(b, keep), st, fuel) == run(l, b, st, fuel),
    decreases fuel, b, 1nat,
{
    if b.len() > 0 {
        dropped_labels_do_nothing(l, b.drop_last(), keep, st, fuel);
        run_concat(l, labels_kept(b.drop_last(), keep), labels_kept_stmt(b.last(), keep), st, fuel);
        let r = run(l, b.drop_last(), st, fuel);
        dropped_label_does_nothing(l, b.last(), keep, r.st, fuel);
    }
}

proof fn dropped_label_does_nothing(l: Lang, s: StmtV, keep: Seq<Text>, st: StateV, fuel: nat)
    ensures
        run(l, labels_kept_stmt(s, keep), st, fuel) == exec(l, s, st, fuel),
    decreases fuel, s, 0nat,
{
    run_one(l, s, st, fuel);
    assert(run(l, Seq::<StmtV>::empty(), st, fuel) == (RunV { out: OutcomeV::Normal, st }));
    match s {
        StmtV::If { cond, then_body, else_body } => {
            let u = StateV { env: st.env, w: eval(l, cond, st.env, st.w).w };
            dropped_labels_do_nothing(l, then_body, keep, u, fuel);
            dropped_labels_do_nothing(l, else_body, keep, u, fuel);
            let t = StmtV::If {
                cond,
                then_body: labels_kept(then_body, keep),
                else_body: labels_kept(else_body, keep),
            };
            run_one(l, t, st, fuel);
        },
        StmtV::Loop { head, body } => {
            let b = begun(l, head, st);
            let t = StmtV::Loop { head, body: labels_kept(body, keep) };
            run_one(l, t, st, fuel);
            labels_in_rounds(l, head, body, keep, b.1, b.0, fuel);
        },
        _ => {},
    }
}

proof fn labels_in_rounds(l: Lang, head: LoopHead, body: Block, keep: Seq<Text>, st: StateV, c: RoundV, fuel: nat)
    ensures
        rounds(l, head, labels_kept(body, keep), st, c, fuel) == rounds(l, head, body, st, c, fuel),
    decreases fuel, body, 2nat,
{
    let e = entered(l, head, st, c);
    if e.0 && fuel > 0 {
        let k = (fuel - 1) as nat;
        dropped_labels_do_nothing(l, body, keep, e.1, k);
        let r = run(l, body, e.1, k);
        if r.out is Normal || r.out is Continue {
            let x = left(l, head, r.st);
            if !x.0 {
                labels_in_rounds(l, head, body, keep, x.1, e.2, k);
            }
        }
    }
}

// ---- guards of loops ----------------------------------------------------------------------------------------------

/// A `while` whose body begins with guards that leave it runs, with the guards in its condition, as
/// before, where that ends.
pub proof fn merged_guards_run_alike(l: Lang, cond: ExprV, body: Block, st: StateV, fuel: nat)
    requires
        lawful(l),
    ensures
        ({
            let s = StmtV::Loop { head: LoopHead::While(cond), body };
            let r = exec(l, s, st, fuel);
            !(r.out is Unfinished) ==> exec(l, with_guards_merged(s), st, fuel) == r
        }),
    decreases body.len(),
{
    let s = StmtV::Loop { head: LoopHead::While(cond), body };
    if body.len() > 0 && break_guard(body[0]) is Some {
        let c = break_guard(body[0])->Some_0;
        let d = binary("and"@, cond, negated(c));
        merged_rounds(l, cond, body, st, fuel);
        merged_guards_run_alike(l, d, tail_of(body), st, fuel);
        assert(exec(l, s, st, fuel) == rounds(l, LoopHead::While(cond), body, st, RoundV::Plain, fuel));
        let t = StmtV::Loop { head: LoopHead::While(d), body: tail_of(body) };
        assert(exec(l, t, st, fuel) == rounds(l, LoopHead::While(d), tail_of(body), st, RoundV::Plain, fuel));
    }
}

proof fn merged_rounds(l: Lang, cond: ExprV, body: Block, st: StateV, fuel: nat)
    requires
        lawful(l),
        body.len() > 0,
        break_guard(body[0]) is Some,
    ensures
        ({
            let d = binary("and"@, cond, negated(break_guard(body[0])->Some_0));
            let r = rounds(l, LoopHead::While(cond), body, st, RoundV::Plain, fuel);
            !(r.out is Unfinished) ==> rounds(l, LoopHead::While(d), tail_of(body), st, RoundV::Plain, fuel) == r
        }),
    decreases fuel,
{
    reveal_strlit("and");
    reveal_strlit("or");
    let c = break_guard(body[0])->Some_0;
    let d = binary("and"@, cond, negated(c));
    let a = eval(l, cond, st.env, st.w);
    let u = StateV { env: st.env, w: a.w };
    negations_deny(l, c, u.env, u.w);
    let v = StateV { env: st.env, w: eval(l, c, u.env, u.w).w };
    let e = entered(l, LoopHead::While(cond), st, RoundV::Plain);
    assert(e == ((l.truthy)(a.v), u, RoundV::Plain));
    let f = entered(l, LoopHead::While(d), st, RoundV::Plain);
    if e.0 && fuel > 0 {
        let k = (fuel - 1) as nat;
        assert(body =~= seq![body[0]] + tail_of(body));
        run_concat(l, seq![body[0]], tail_of(body), u, k);
        run_one(l, body[0], u, k);
        run_one(l, StmtV::Break, v, k);
        assert(run(l, Seq::<StmtV>::empty(), v, k) == (RunV { out: OutcomeV::Normal, st: v }));
        if let StmtV::If { cond: c2, then_body, else_body } = body[0] {
            assert(then_body == only(StmtV::Break));
            assert(else_body =~= Seq::<StmtV>::empty());
        }
        assert(exec(l, body[0], u, k) == if (l.truthy)(eval(l, c, u.env, u.w).v) {
            RunV { out: OutcomeV::Break, st: v }
        } else {
            RunV { out: OutcomeV::Normal, st: v }
        });
        assert(f.1 == v && f.0 == !(l.truthy)(eval(l, c, u.env, u.w).v));
        let r = run(l, body, u, k);
        if r.out is Normal || r.out is Continue {
            merged_rounds(l, cond, body, r.st, k);
        }
    }
}

// ---- epilogues ----------------------------------------------------------------------------------------------------

proof fn simple_runs(l: Lang, b: Block, st: StateV, f: nat, g: nat)
    requires
        forall|i: int| 0 <= i < b.len() ==> simple(#[trigger] b[i]),
    ensures
        run(l, b, st, f) == run(l, b, st, g),
        run(l, b, st, f).out is Normal || run(l, b, st, f).out is Return,
    decreases b.len(),
{
    if b.len() > 0 {
        let front = b.drop_last();
        assert forall|i: int| 0 <= i < front.len() implies simple(#[trigger] front[i]) by {
            assert(simple(b[i]));
        }
        simple_runs(l, front, st, f, g);
        let r = run(l, front, st, f);
        assert(simple(b[b.len() - 1]));
        assert(exec(l, b.last(), r.st, f) == exec(l, b.last(), r.st, g));
        assert(exec(l, b.last(), r.st, f).out is Normal || exec(l, b.last(), r.st, f).out is Return);
    }
}

proof fn returning_returns(l: Lang, tail: Block)
    requires
        epilogue(tail),
    ensures
        always_returns(l, returning(tail)),
        forall|st: StateV, f: nat| #[trigger] run(l, returning(tail), st, f) == ended(run(l, tail, st, f)),
{
    let n = tail.len() as int;
    let full = returning(tail);
    assert forall|st: StateV, f: nat| #[trigger]
        run(l, full, st, f) == ended(run(l, tail, st, f)) && run(l, full, st, f).out is Return by {
        simple_runs(l, tail, st, f, f);
        if terminated(tail) {
            let front = tail.drop_last();
            assert forall|i: int| 0 <= i < front.len() implies simple(#[trigger] front[i]) by {
                assert(simple(tail[i]));
            }
            simple_runs(l, front, st, f, f);
            let r = run(l, front, st, f);
            assert(simple(tail[n - 1]));
            assert(exec(l, tail.last(), r.st, f).out is Return);
        } else {
            assert(full.drop_last() =~= tail);
            let r = run(l, tail, st, f);
            run_one(l, bare_return(), r.st, f);
            assert(full =~= tail + only(bare_return()));
            run_concat(l, tail, only(bare_return()), st, f);
            bare_return_returns(l);
        }
    }
    assert forall|st: StateV, f: nat, g: nat|
        #![trigger run(l, full, st, f), run(l, full, st, g)]
        run(l, full, st, f).out is Return && run(l, full, st, f) == run(l, full, st, g) by {
        simple_runs(l, tail, st, f, g);
        assert(run(l, full, st, f) == ended(run(l, tail, st, f)));
        assert(run(l, full, st, g) == ended(run(l, tail, st, g)));
    }
}

/// A function whose epilogue was copied to the jumps to it ends as the function does where these
/// jumps lead to its epilogue.
pub proof fn copied_epilogues_run_alike(l: Lang, b: Block, st: StateV, fuel: nat)
    requires
        find_epilogue(b, 0) is Some,
    ensures
        ({
            let k = find_epilogue(b, 0)->Some_0;
            let tail = b.subrange(k + 1, b.len() as int);
            &&& 0 <= k < b.len() && b[k] is Label
            &&& ended(led_on(l, run(l, epilogue_copied(b), st, fuel), b[k]->Label_0, tail, fuel)) == ended(
                after(l, run(l, b.subrange(0, k), st, fuel), b[k]->Label_0, tail, tail, fuel),
            )
        }),
{
    find_epilogue_found(b, 0);
    let k = find_epilogue(b, 0)->Some_0;
    let lbl = b[k]->Label_0;
    let all = b.subrange(0, k);
    let tail = b.subrange(k + 1, b.len() as int);
    returning_returns(l, tail);
    let front = if crate::back_loops::ends_with_goto(all, lbl) {
        all.drop_last()
    } else {
        all
    };
    let r = run(l, front, st, fuel);
    if crate::back_loops::ends_with_goto(all, lbl) {
        assert(exec(l, StmtV::Goto(lbl), r.st, fuel) == (RunV { out: OutcomeV::Goto(lbl), st: r.st }));
    }
    copies_stand_for_jumps(l, front, lbl, returning(tail), st, fuel);
    run_concat(l, replace_gotos(front, lbl, returning(tail)), tail, st, fuel);
    run_concat(l, front, tail, st, fuel);
    run_concat(l, front.push(b[k]), tail, st, fuel);
    assert(front.push(b[k]) =~= front + seq![b[k]]);
    run_concat(l, front, seq![b[k]], st, fuel);
    run_one(l, b[k], r.st, fuel);
    assert(run(l, returning(tail), r.st, fuel) == ended(run(l, tail, r.st, fuel)));
    simple_runs(l, tail, r.st, fuel, fuel);
    if crate::query::gotos(front, lbl) == 0 {
        crate::landing::stays_run(l, front, lbl, st, fuel);
    }
}

proof fn find_epilogue_found(b: Block, i: int)
    requires
        0 <= i,
    ensures
        find_epilogue(b, i) matches Some(k) ==> i <= k < b.len() && leads_epilogue(b, k),
    decreases b.len() - i,
{
    if i < b.len() && !leads_epilogue(b, i) {
        find_epilogue_found(b, i + 1);
    }
}

// ---- declarations -------------------------------------------------------------------------------------------------

proof fn bare_targets_are_names(targets: Seq<ExprV>)
    requires
        all_bare(targets),
    ensures
        targets == Seq::new(var_names(targets).len(), |i: int| ExprV::Var(var_names(targets)[i])),
    decreases targets.len(),
{
    let names = var_names(targets);
    let ts = Seq::new(names.len(), |i: int| ExprV::Var(names[i]));
    if targets.len() > 0 {
        let front = targets.drop_last();
        assert forall|i: int| 0 <= i < front.len() implies #[trigger] front[i] is Var by {
            assert(targets[i] is Var);
        }
        assert(targets[targets.len() - 1] is Var);
        bare_targets_are_names(front);
        let vs = var_names(front);
        assert(names =~= vs.push(targets.last()->Var_0));
        assert(front.len() == vs.len());
        assert forall|i: int| 0 <= i < targets.len() implies #[trigger] targets[i] == ts[i] by {
            if i < front.len() {
                assert(front[i] == ExprV::Var(vs[i]));
                assert(targets[i] == front[i]);
            }
        }
    }
    assert(targets =~= ts);
}

/// A function whose first assignments are declarations runs as the function does.
pub proof fn declarations_run_alike(l: Lang, b: Block, exclude: Seq<Text>, k: int, st: StateV, fuel: nat)
    requires
        0 <= k <= b.len(),
    ensures
        run(l, initialized(b, exclude).take(k), st, fuel) == run(l, b.take(k), st, fuel),
    decreases k,
{
    let c = initialized(b, exclude);
    if k > 0 {
        declarations_run_alike(l, b, exclude, k - 1, st, fuel);
        assert(c.take(k).drop_last() =~= c.take(k - 1));
        assert(b.take(k).drop_last() =~= b.take(k - 1));
        let r = run(l, b.take(k - 1), st, fuel);
        let s = c[k - 1];
        if s != b[k - 1] {
            if let StmtV::Assign { targets, values } = b[k - 1] {
                bare_targets_are_names(targets);
                names_as_targets(l, var_names(targets), targets, r.st);
                assert(name_places(var_names(targets)).len() == var_names(targets).len());
            }
        }
        assert(exec(l, s, r.st, fuel) == exec(l, b[k - 1], r.st, fuel));
        assert(c.take(k).last() == s && b.take(k).last() == b[k - 1]);
    } else {
        assert(c.take(0) =~= b.take(0));
    }
}

// ---- skips to a label that is gone ----------------------------------------------------------------------------------

/// What a nested jump to a missing label skips runs in the branches that do not jump, and all around
/// stays.
pub proof fn nested_skips_land(l: Lang, g: NestedSkip, b: Block, i: int, lbl: Text, st: StateV, fuel: nat) -> (r: (
    int,
    Block,
))
    requires
        0 <= i < b.len(),
        g.at_label(b, i, lbl) is Some,
        jumps_last(only(b[i]), lbl),
    ensures
        i < r.0 <= b.len(),
        g.at_label(b, i, lbl) == Some(spec_splice(b, i, r.0, r.1)),
        run(l, r.1, st, fuel) == landed(run(l, b.subrange(i, r.0), st, fuel), lbl),
{
    let e = skip_end(b, i + 1, i + 2)->Some_0;
    skip_end_found(b, i + 1, i + 2);
    let rest = b.subrange(e, b.len() as int);
    let between = b.subrange(i + 1, e);
    let skipped = widened(between, rest);
    let o = routed(only(b[i]), lbl, Seq::empty(), skipped)->Some_0;
    routing_lands(l, only(b[i]), lbl, Seq::empty(), skipped, st, fuel);
    assert(b.subrange(i, e) =~= only(b[i]) + between);
    run_concat(l, only(b[i]), between, st, fuel);
    let r = run(l, only(b[i]), st, fuel);
    widened_runs(l, between, rest, r.st, fuel);
    no_jumps_none(between, lbl);
    stays_run(l, between, lbl, r.st, fuel);
    assert(run(l, Seq::<StmtV>::empty(), r.st, fuel) == (RunV { out: OutcomeV::Normal, st: r.st }));
    (e, o)
}

proof fn skip_end_found(b: Block, start: int, k: int)
    requires
        0 <= start,
    ensures
        skip_end(b, start, k) matches Some(e) ==> start < e <= b.len() && !has_jumps(b.subrange(start, e)),
    decreases b.len() - k,
{
    if start < k <= b.len() && k - start <= 64 {
        let skipped = b.subrange(start, k);
        if !(has_jumps(skipped) || terminated(skipped)) && !(k == b.len() || ends_skip(skipped, b[k])) {
            skip_end_found(b, start, k + 1);
        }
    }
}

// ---- the end of a function ------------------------------------------------------------------------------------------

/// A function ends without a final `return` of nothing as it ends with it.
pub proof fn final_returns_add_nothing(l: Lang, b: Block, st: StateV, fuel: nat)
    ensures
        ended(run(l, final_return_dropped(b), st, fuel)) == ended(run(l, b, st, fuel)),
{
    if b.len() > 0 && b.last() == bare_return() {
        let r = run(l, b.drop_last(), st, fuel);
        bare_return_returns(l);
        run_one(l, bare_return(), r.st, fuel);
        assert(run(l, only(bare_return()), r.st, fuel) == (RunV { out: OutcomeV::Return(Seq::empty()), st: r.st }));
    }
}

/// A final jump to a label that stands nowhere ends the function, as a `return` does.
pub proof fn final_jumps_end_the_function(l: Lang, b: Block, st: StateV, fuel: nat)
    ensures
        final_goto_returned(b) == b || exists|lbl: Text|
            labels(b, lbl) == 0 && ended(#[trigger] landed(run(l, final_goto_returned(b), st, fuel), lbl)) == ended(
                landed(run(l, b, st, fuel), lbl),
            ),
{
    let k = if b.len() > 0 && b.last() is Goto {
        b.len() - 1
    } else {
        last_before_return(b)
    };
    if k >= 0 && b[k] is Goto && labels(b, b[k]->Goto_0) == 0 {
        let lbl = b[k]->Goto_0;
        let c = spec_splice(b, k, k + 1, only(bare_return()));
        let head = b.subrange(0, k);
        let tail = b.subrange(k + 1, b.len() as int);
        assert(b =~= head + seq![b[k]] + tail);
        run_concat(l, head + seq![b[k]], tail, st, fuel);
        run_concat(l, head, seq![b[k]], st, fuel);
        run_concat(l, head + only(bare_return()), tail, st, fuel);
        run_concat(l, head, only(bare_return()), st, fuel);
        let r = run(l, head, st, fuel);
        run_one(l, b[k], r.st, fuel);
        bare_return_returns(l);
        assert(run(l, only(bare_return()), r.st, fuel) == (RunV { out: OutcomeV::Return(Seq::empty()), st: r.st }));
        assert(ended(landed(run(l, c, st, fuel), lbl)) == ended(landed(run(l, b, st, fuel), lbl)));
    }
}

// ---- steps of one ---------------------------------------------------------------------------------------------------

/// A numeric `for` without its step of one runs as it does with it.
pub proof fn steps_of_one_add_nothing(l: Lang, b: Block, st: StateV, fuel: nat)
    ensures
        run(l, unit_steps_dropped(b), st, fuel) == run(l, b, st, fuel),
    decreases fuel, b, 1nat,
{
    let c = unit_steps_dropped(b);
    if b.len() > 0 {
        steps_of_one_add_nothing(l, b.drop_last(), st, fuel);
        assert(c.drop_last() =~= unit_steps_dropped(b.drop_last()));
        assert(c.last() == unit_steps_dropped_in(b.last()));
        let r = run(l, b.drop_last(), st, fuel);
        step_of_one_adds_nothing(l, b.last(), r.st, fuel);
    } else {
        assert(c =~= b);
    }
}

proof fn step_of_one_adds_nothing(l: Lang, s: StmtV, st: StateV, fuel: nat)
    ensures
        exec(l, unit_steps_dropped_in(s), st, fuel) == exec(l, s, st, fuel),
    decreases fuel, s, 0nat,
{
    match s {
        StmtV::If { cond, then_body, else_body } => {
            let u = StateV { env: st.env, w: eval(l, cond, st.env, st.w).w };
            steps_of_one_add_nothing(l, then_body, u, fuel);
            steps_of_one_add_nothing(l, else_body, u, fuel);
        },
        StmtV::Loop { head, body } => {
            let other = unit_steps_dropped_in(s)->head;
            assert(unit_steps_dropped_in(s) == StmtV::Loop { head: other, body: unit_steps_dropped(body) });
            let b = begun(l, head, st);
            if let LoopHead::Numeric { var, start, limit, step } = head {
                let a = eval(l, start, st.env, st.w);
                let e = eval(l, limit, st.env, a.w);
                assert(eval(l, ExprV::Num("1"@), st.env, e.w) == (crate::meaning::EvalV {
                    v: (l.number)("1"@),
                    w: e.w,
                }));
            }
            assert(begun(l, other, st) == b);
            steps_in_rounds(l, head, other, body, b.1, b.0, fuel);
        },
        _ => {},
    }
}

proof fn steps_in_rounds(l: Lang, head: LoopHead, other: LoopHead, body: Block, st: StateV, c: RoundV, fuel: nat)
    requires
        other == head || (head is Numeric && other is Numeric && head->var == other->var),
    ensures
        rounds(l, other, unit_steps_dropped(body), st, c, fuel) == rounds(l, head, body, st, c, fuel),
    decreases fuel, body, 2nat,
{
    let e = entered(l, head, st, c);
    assert(entered(l, other, st, c) == e);
    if e.0 && fuel > 0 {
        let k = (fuel - 1) as nat;
        steps_of_one_add_nothing(l, body, e.1, k);
        let r = run(l, body, e.1, k);
        if r.out is Normal || r.out is Continue {
            let x = left(l, head, r.st);
            assert(left(l, other, r.st) == x);
            if !x.0 {
                steps_in_rounds(l, head, other, body, x.1, e.2, k);
            }
        }
    }
}

} // verus!
