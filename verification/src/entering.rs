//! Jumps into branches run what follows their label.
use vstd::prelude::*;

use crate::ast::{spec_if, spec_splice, Block, StmtV};
use crate::conditions::cond_goto;
use crate::gates::{either_of, entered, find_labelled, later_gate_at, split_block, split_stmt, IfGate};
use crate::jumps::only;
use crate::labeled_bodies::rest_of;
use crate::landing::run_first;
use crate::logic::guarded_jumps_jump;
use crate::meaning::{eval, exec, lawful, run, run_concat, run_one, Lang, OutcomeV, RunV, StateV};
use crate::query::{label_of, labels};
use crate::routing::{deep_first, tail_of};
use crate::rules::Rule;
use crate::text::Text;
use crate::weight::{deep, deep_stmt};

verus! {

/// Runs `b` from the label `lbl` in it on, which stands in no loop.
pub open spec fn from_label(l: Lang, b: Block, lbl: Text, st: StateV, fuel: nat) -> Option<RunV>
    decreases b,
{
    if b.len() == 0 {
        None
    } else if b[0] == StmtV::Label(lbl) {
        Some(run(l, tail_of(b), st, fuel))
    } else {
        match from_label_in(l, b[0], lbl, st, fuel) {
            Some(r) => Some(
                if r.out is Normal {
                    run(l, tail_of(b), r.st, fuel)
                } else {
                    r
                },
            ),
            None => from_label(l, b.subrange(1, b.len() as int), lbl, st, fuel),
        }
    }
}

/// Runs `s` from the label `lbl` in one of its branches on.
pub open spec fn from_label_in(l: Lang, s: StmtV, lbl: Text, st: StateV, fuel: nat) -> Option<RunV>
    decreases s,
{
    match s {
        StmtV::If { then_body, else_body, .. } => match from_label(l, then_body, lbl, st, fuel) {
            Some(r) => Some(r),
            None => from_label(l, else_body, lbl, st, fuel),
        },
        _ => None,
    }
}

proof fn no_label_no_run(l: Lang, b: Block, lbl: Text, st: StateV, fuel: nat)
    requires
        deep(label_of(lbl), b) == 0,
    ensures
        from_label(l, b, lbl, st, fuel) is None,
    decreases b,
{
    if b.len() > 0 {
        deep_first(label_of(lbl), b);
        no_label_no_run_in(l, b[0], lbl, st, fuel);
        no_label_no_run(l, b.subrange(1, b.len() as int), lbl, st, fuel);
    }
}

proof fn no_label_no_run_in(l: Lang, s: StmtV, lbl: Text, st: StateV, fuel: nat)
    requires
        deep_stmt(label_of(lbl), s) == 0,
    ensures
        from_label_in(l, s, lbl, st, fuel) is None,
        s != StmtV::Label(lbl),
    decreases s,
{
    if let StmtV::If { then_body, else_body, .. } = s {
        no_label_no_run(l, then_body, lbl, st, fuel);
        no_label_no_run(l, else_body, lbl, st, fuel);
    }
}

proof fn first_with_label(b: Block, i: int, lbl: Text)
    requires
        0 <= i,
    ensures
        find_labelled(b, i, lbl) matches Some(k) ==> i <= k < b.len() && forall|j: int|
            i <= j < k ==> deep_stmt(label_of(lbl), #[trigger] b[j]) == 0,
    decreases b.len() - i,
{
    if i < b.len() && deep_stmt(label_of(lbl), b[i]) == 0 {
        first_with_label(b, i + 1, lbl);
    }
}

proof fn skipped_to_label(l: Lang, b: Block, k: int, lbl: Text, st: StateV, fuel: nat)
    requires
        0 <= k < b.len(),
        forall|j: int| 0 <= j < k ==> deep_stmt(label_of(lbl), #[trigger] b[j]) == 0,
    ensures
        from_label(l, b, lbl, st, fuel) == from_label(l, b.subrange(k, b.len() as int), lbl, st, fuel),
    decreases k,
{
    if k > 0 {
        let t = b.subrange(1, b.len() as int);
        assert(deep_stmt(label_of(lbl), b[0]) == 0);
        no_label_no_run_in(l, b[0], lbl, st, fuel);
        assert forall|j: int| 0 <= j < k - 1 implies deep_stmt(label_of(lbl), #[trigger] t[j]) == 0 by {
            assert(deep_stmt(label_of(lbl), b[j + 1]) == 0);
        }
        skipped_to_label(l, t, k - 1, lbl, st, fuel);
        assert(t.subrange(k - 1, t.len() as int) =~= b.subrange(k, b.len() as int));
    } else {
        assert(b.subrange(0, b.len() as int) =~= b);
    }
}

/// What is taken out of a block as what follows a label is what runs from that label on, and without
/// the label the block runs as before.
pub proof fn targets_run_from_their_label(l: Lang, b: Block, lbl: Text, st: StateV, fuel: nat)
    ensures
        split_block(b, lbl) matches Some((target, plain)) ==> {
            &&& from_label(l, b, lbl, st, fuel) == Some(run(l, target, st, fuel))
            &&& run(l, plain, st, fuel) == run(l, b, st, fuel)
        },
    decreases b,
{
    first_with_label(b, 0, lbl);
    if split_block(b, lbl) is Some {
        let k = find_labelled(b, 0, lbl)->Some_0;
        let (target, plain) = split_block(b, lbl)->Some_0;
        let n = b.len() as int;
        let part = b.subrange(k, n);
        let head = b.subrange(0, k);
        skipped_to_label(l, b, k, lbl, st, fuel);
        assert(part[0] == b[k]);
        assert(b =~= head + part);
        run_concat(l, head, part, st, fuel);
        let r = run(l, head, st, fuel);
        run_first(l, part, r.st, fuel);
        if b[k] == StmtV::Label(lbl) {
            assert(tail_of(part) =~= target);
            assert(plain =~= head + target);
            run_concat(l, head, target, st, fuel);
        } else {
            let s = split_stmt(b[k], lbl)->Some_0.1;
            branch_targets_run(l, b[k], lbl, st, fuel);
            branch_targets_run(l, b[k], lbl, r.st, fuel);
            let q = run(l, target, st, fuel);
            assert(tail_of(part) =~= Seq::<StmtV>::empty());
            assert(run(l, Seq::<StmtV>::empty(), q.st, fuel) == (RunV { out: OutcomeV::Normal, st: q.st }));
            assert(plain.drop_last() =~= head);
            assert(plain.last() == s);
            let e = exec(l, b[k], r.st, fuel);
            assert(run(l, Seq::<StmtV>::empty(), e.st, fuel) == (RunV { out: OutcomeV::Normal, st: e.st }));
        }
    }
}

proof fn branch_targets_run(l: Lang, s: StmtV, lbl: Text, st: StateV, fuel: nat)
    ensures
        split_stmt(s, lbl) matches Some((target, plain)) ==> {
            &&& from_label_in(l, s, lbl, st, fuel) == Some(run(l, target, st, fuel))
            &&& exec(l, plain, st, fuel) == exec(l, s, st, fuel)
            &&& s != StmtV::Label(lbl)
        },
    decreases s,
{
    if let StmtV::If { cond, then_body, else_body } = s {
        let u = StateV { env: st.env, w: eval(l, cond, st.env, st.w).w };
        targets_run_from_their_label(l, then_body, lbl, st, fuel);
        targets_run_from_their_label(l, else_body, lbl, st, fuel);
        targets_run_from_their_label(l, then_body, lbl, u, fuel);
        targets_run_from_their_label(l, else_body, lbl, u, fuel);
        if labels(then_body, lbl) == 0 {
            no_label_no_run(l, then_body, lbl, st, fuel);
        }
    }
}

/// `if c or d then body end` runs what `if c then goto L end; if d then ::L:: body end` runs, and all
/// around stays.
pub proof fn gates_run_alike(l: Lang, b: Block, i: int, st: StateV, fuel: nat)
    requires
        lawful(l),
        0 <= i < b.len(),
        IfGate.at(b, i) is Some,
    ensures
        ({
            let c = IfGate.at(b, i)->Some_0;
            let lbl = cond_goto(b[i], None)->Some_0.1;
            let g = exec(l, b[i], st, fuel);
            &&& i + 1 < b.len() && c == spec_splice(b, i, i + 2, seq![c[i]])
            &&& run(l, seq![c[i]], st, fuel) == if g.out == OutcomeV::Goto(lbl) {
                from_label_in(l, b[i + 1], lbl, g.st, fuel)->Some_0
            } else {
                exec(l, b[i + 1], g.st, fuel)
            }
        }),
{
    reveal_strlit("and");
    reveal_strlit("or");
    let (c, lbl) = cond_goto(b[i], None)->Some_0;
    guarded_jumps_jump(l, b[i], None, st, fuel);
    let g = exec(l, b[i], st, fuel);
    if let StmtV::If { cond, then_body, else_body } = b[i + 1] {
        let body = rest_of(then_body);
        let s = spec_if(either_of(c, cond), body);
        let d = IfGate.at(b, i)->Some_0;
        assert(d[i] == s);
        assert(only(s) =~= seq![d[i]]);
        run_one(l, s, st, fuel);
        let a = eval(l, cond, g.st.env, g.st.w);
        let u = StateV { env: st.env, w: a.w };
        run_first(l, then_body, u, fuel);
        assert(tail_of(then_body) =~= body);
        assert(exec(l, StmtV::Label(lbl), u, fuel) == (RunV { out: OutcomeV::Normal, st: u }));
        assert(run(l, else_body, u, fuel) == (RunV { out: OutcomeV::Normal, st: u }));
        assert(run(l, Seq::<StmtV>::empty(), u, fuel) == (RunV { out: OutcomeV::Normal, st: u }));
        assert(from_label(l, then_body, lbl, g.st, fuel) == Some(run(l, body, g.st, fuel)));
        let k = eval(l, c, st.env, st.w);
        assert(g.st == StateV { env: st.env, w: k.w });
        assert("and"@.len() == 3 && "or"@.len() == 2);
        let h = eval(l, either_of(c, cond), st.env, st.w);
        assert(h == if (l.truthy)(k.v) {
            k
        } else {
            a
        });
        assert(from_label_in(l, b[i + 1], lbl, g.st, fuel) == Some(run(l, body, g.st, fuel)));
        assert(exec(l, b[i + 1], g.st, fuel) == if (l.truthy)(a.v) {
            run(l, body, u, fuel)
        } else {
            RunV { out: OutcomeV::Normal, st: u }
        });
        assert(exec(l, s, st, fuel) == if (l.truthy)(h.v) {
            run(l, body, StateV { env: st.env, w: h.w }, fuel)
        } else {
            RunV { out: OutcomeV::Normal, st: StateV { env: st.env, w: h.w } }
        });
    }
}

/// A guarded jump into a branch of a later `if` becomes a branching: where the guard holds, what
/// follows the label runs, and otherwise what stood between and the later `if`.
pub proof fn later_gates_run_alike(l: Lang, b: Block, i: int, t: int, st: StateV, fuel: nat)
    requires
        lawful(l),
        0 <= i < t < b.len(),
        ({
            let g = cond_goto(b[i], None)->Some_0;
            cond_goto(b[i], None) is Some && later_gate_at(b, i, t, g.0, g.1) is Some
        }),
    ensures
        ({
            let (c, lbl) = cond_goto(b[i], None)->Some_0;
            let d = later_gate_at(b, i, t, c, lbl)->Some_0;
            let g = exec(l, b[i], st, fuel);
            &&& d == spec_splice(b, i, t + 1, seq![d[i]])
            &&& run(l, seq![d[i]], st, fuel) == if g.out == OutcomeV::Goto(lbl) {
                from_label_in(l, b[t], lbl, g.st, fuel)->Some_0
            } else {
                run(l, b.subrange(i + 1, t + 1), g.st, fuel)
            }
        }),
{
    let (c, lbl) = cond_goto(b[i], None)->Some_0;
    guarded_jumps_jump(l, b[i], None, st, fuel);
    let g = exec(l, b[i], st, fuel);
    let (body, plain) = split_stmt(b[t], lbl)->Some_0;
    let between = b.subrange(i + 1, t);
    let s = StmtV::If { cond: c, then_body: body, else_body: between.push(plain) };
    let d = entered(b, i, t, c, body, plain);
    assert(d[i] == s);
    assert(only(s) =~= seq![d[i]]);
    run_one(l, s, st, fuel);
    branch_targets_run(l, b[t], lbl, g.st, fuel);
    let r = run(l, between, g.st, fuel);
    branch_targets_run(l, b[t], lbl, r.st, fuel);
    assert(between.push(plain).drop_last() =~= between);
    assert(b.subrange(i + 1, t + 1).drop_last() =~= between);
    assert(b.subrange(i + 1, t + 1).last() == b[t]);
}

} // verus!
