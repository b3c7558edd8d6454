//! Removing stores keeps what a run does.
use vstd::prelude::*;

use crate::ast::{Block, ExprV, LoopHead, StmtV};
use crate::dead_stores::{
    dead_after, fewer_stores, fewer_stores_fewer, overwritten, overwritten_in, store, unread, unread_in, wasted,
    without_dead_stores, without_overwritten, without_overwritten_inside, without_unread, without_wasted,
};
use crate::inline::body_protected;
use crate::inlining::{definition_exec, pure_eval};
use crate::jumps::sole_assign;
use crate::markers::assigns;
use crate::meaning::{
    alike, begun, entered, eval, exec, left, rounds, run, run_concat, run_one, same_run, unread_exec, unread_run, Lang,
    OutcomeV, RoundV, RunV, StateV,
};
use crate::naming::pure;
use crate::query::reads_of;
use crate::splitting::{alike_but, reads_no, unread_by};
use crate::text::Text;
use crate::weight::{deep, deep_stmt};

verus! {

// ---- stores that are overwritten --------------------------------------------------------------------------------

/// Whether two runs do the same: they end the same way, in the same world, with the same values of
/// `protected` variables; and if they go on in the function, with the same values of all.
pub open spec fn same_effect(protected: Seq<Text>, r: RunV, r2: RunV) -> bool {
    &&& r.out == r2.out && r.st.w == r2.st.w
    &&& forall|x: Text| protected.contains(x) ==> #[trigger] (r.st.env)(x) == (r2.st.env)(x)
    &&& r.out is Return || r.out is Unfinished || r.st == r2.st
}

/// A name that is assigned before anything reads it, or control leaves, may have any value.
proof fn overwritten_run(l: Lang, b: Block, k: int, n: Text, protected: Seq<Text>, st: StateV, st2: StateV, fuel: nat)
    requires
        0 <= k <= b.len(),
        overwritten(b, k, n),
        !protected.contains(n),
        alike(n, st, st2),
    ensures
        same_effect(protected, run(l, b.skip(k), st, fuel), run(l, b.skip(k), st2, fuel)),
    decreases b.len() - k,
{
    let s = b[k];
    let rest = b.skip(k + 1);
    assert(b.skip(k) =~= seq![s] + rest);
    run_concat(l, seq![s], rest, st, fuel);
    run_concat(l, seq![s], rest, st2, fuel);
    run_one(l, s, st, fuel);
    run_one(l, s, st2, fuel);
    unread_exec(l, s, st, st2, n, fuel);
    let r = exec(l, s, st, fuel);
    let r2 = exec(l, s, st2, fuel);
    if assigns(s, n) {
        assert(r.st.env =~= r2.st.env);
        assert(r.st == r2.st);
    } else if r.out is Normal {
        overwritten_run(l, b, k + 1, n, protected, r.st, r2.st, fuel);
    }
}

proof fn wasted_run(l: Lang, b: Block, i: int, protected: Seq<Text>, st: StateV, fuel: nat)
    requires
        0 <= i <= b.len(),
    ensures
        same_effect(protected, run(l, without_wasted(b, i, protected), st, fuel), run(l, b.skip(i), st, fuel)),
    decreases b.len() - i,
{
    if i < b.len() {
        let s = b[i];
        let rest = b.skip(i + 1);
        let w = without_wasted(b, i + 1, protected);
        assert(b.skip(i) =~= seq![s] + rest);
        run_concat(l, seq![s], rest, st, fuel);
        run_one(l, s, st, fuel);
        let r = exec(l, s, st, fuel);
        if wasted(b, i, protected) {
            let (n, v) = sole_assign(s)->Some_0;
            definition_exec(l, s, st, fuel);
            pure_eval(l, v, st.env, st.w, st.w);
            wasted_run(l, b, i + 1, protected, st, fuel);
            overwritten_run(l, b, i + 1, n, protected, st, r.st, fuel);
        } else {
            run_concat(l, seq![s], w, st, fuel);
            if r.out is Normal {
                wasted_run(l, b, i + 1, protected, r.st, fuel);
            }
        }
    } else {
        assert(b.skip(i) =~= Seq::<StmtV>::empty());
    }
}

/// Removing stores that are overwritten before they are read changes nothing that a run does.
pub proof fn overwritten_stores_do_nothing(l: Lang, b: Block, protected: Seq<Text>, st: StateV, fuel: nat)
    ensures
        same_effect(protected, run(l, without_overwritten(b, protected), st, fuel), run(l, b, st, fuel)),
    decreases fuel, b, 2nat, 0int,
{
    let c = without_overwritten_inside(b, protected);
    inside_run(l, b, b.len() as int, protected, st, fuel);
    wasted_run(l, c, 0, protected, st, fuel);
    assert(c.skip(0) =~= c);
    assert(c.take(b.len() as int) =~= c);
    assert(b.take(b.len() as int) =~= b);
}

proof fn inside_run(l: Lang, b: Block, k: int, protected: Seq<Text>, st: StateV, fuel: nat)
    requires
        0 <= k <= b.len(),
    ensures
        same_effect(
            protected,
            run(l, without_overwritten_inside(b, protected).take(k), st, fuel),
            run(l, b.take(k), st, fuel),
        ),
    decreases fuel, b, 1nat, k,
{
    let c = without_overwritten_inside(b, protected);
    if k > 0 {
        inside_run(l, b, k - 1, protected, st, fuel);
        assert(c.take(k).drop_last() =~= c.take(k - 1));
        assert(b.take(k).drop_last() =~= b.take(k - 1));
        assert(c.take(k).last() == c[k - 1]);
        assert(b.take(k).last() == b[k - 1]);
        assert(c[k - 1] == overwritten_in(b[k - 1], protected));
        let r = run(l, b.take(k - 1), st, fuel);
        if r.out is Normal {
            inside_exec(l, b[k - 1], protected, r.st, fuel);
        }
    } else {
        assert(c.take(0) =~= b.take(0));
    }
}

proof fn inside_exec(l: Lang, s: StmtV, protected: Seq<Text>, st: StateV, fuel: nat)
    ensures
        same_effect(protected, exec(l, overwritten_in(s, protected), st, fuel), exec(l, s, st, fuel)),
    decreases fuel, s, 0nat, 0int,
{
    match s {
        StmtV::If { cond, then_body, else_body } => {
            let t = StateV { env: st.env, w: eval(l, cond, st.env, st.w).w };
            overwritten_stores_do_nothing(l, then_body, protected, t, fuel);
            overwritten_stores_do_nothing(l, else_body, protected, t, fuel);
        },
        StmtV::Loop { head, body } => {
            let b = begun(l, head, st);
            inside_rounds(l, head, body, protected, b.1, b.0, fuel);
        },
        _ => {},
    }
}

proof fn inside_rounds(l: Lang, head: LoopHead, body: Block, protected: Seq<Text>, st: StateV, c: RoundV, fuel: nat)
    ensures
        same_effect(
            protected,
            rounds(l, head, without_overwritten(body, body_protected(head, protected)), st, c, fuel),
            rounds(l, head, body, st, c, fuel),
        ),
    decreases fuel, body, 3nat, 0int,
{
    let p = body_protected(head, protected);
    let e = entered(l, head, st, c);
    if e.0 && fuel > 0 {
        let k = (fuel - 1) as nat;
        overwritten_stores_do_nothing(l, body, p, e.1, k);
        let r = run(l, body, e.1, k);
        let r2 = run(l, without_overwritten(body, p), e.1, k);
        assert forall|x: Text| protected.contains(x) implies #[trigger] (r2.st.env)(x) == (r.st.env)(x) by {
            crate::effects::body_protected_more(head, protected, x);
        }
        if r.out is Normal || r.out is Continue {
            let x = left(l, head, r.st);
            if !x.0 {
                inside_rounds(l, head, body, protected, x.1, e.2, k);
            }
        }
    }
}

// ---- stores that are never read ---------------------------------------------------------------------------------

/// Weighs the stores of variables that `root` does not read and `names` does not hold.
pub open spec fn unlisted(names: Seq<Text>, root: Block, protected: Seq<Text>) -> spec_fn(StmtV) -> nat {
    |s: StmtV| crate::query::one_if(unread(s, root, protected) && !names.contains(sole_assign(s)->Some_0.0))
}

/// Whether `b` reads none of `names`.
pub open spec fn block_reads_no(b: Block, names: Seq<Text>) -> bool {
    forall|i: int| 0 <= i < names.len() ==> deep(reads_of(#[trigger] names[i]), b) == 0
}

proof fn unread_stores_run(
    l: Lang,
    b: Block,
    root: Block,
    protected: Seq<Text>,
    names: Seq<Text>,
    st: StateV,
    st2: StateV,
    fuel: nat,
)
    requires
        deep(unlisted(names, root, protected), b) == 0,
        block_reads_no(b, names),
        alike_but(names, st, st2),
    ensures
        run(l, without_unread(b, root, protected), st2, fuel).out == run(l, b, st, fuel).out,
        alike_but(names, run(l, b, st, fuel).st, run(l, without_unread(b, root, protected), st2, fuel).st),
    decreases fuel, b, 1nat,
{
    if b.len() > 0 {
        let front = b.drop_last();
        let s = b.last();
        assert forall|i: int| 0 <= i < names.len() implies deep(reads_of(#[trigger] names[i]), front) == 0 by {
            assert(deep(reads_of(names[i]), b) == 0);
        }
        assert forall|i: int| 0 <= i < names.len() implies deep_stmt(reads_of(#[trigger] names[i]), s) == 0 by {
            assert(deep(reads_of(names[i]), b) == 0);
        }
        unread_stores_run(l, front, root, protected, names, st, st2, fuel);
        let a = without_unread(front, root, protected);
        let x = unread_in(s, root, protected);
        run_concat(l, a, x, st2, fuel);
        let r = run(l, front, st, fuel);
        let r2 = run(l, a, st2, fuel);
        if r.out is Normal {
            unread_store_exec(l, s, root, protected, names, r.st, r2.st, fuel);
        }
    }
}

proof fn unread_store_exec(
    l: Lang,
    s: StmtV,
    root: Block,
    protected: Seq<Text>,
    names: Seq<Text>,
    st: StateV,
    st2: StateV,
    fuel: nat,
)
    requires
        deep_stmt(unlisted(names, root, protected), s) == 0,
        reads_no(s, names),
        alike_but(names, st, st2),
    ensures
        run(l, unread_in(s, root, protected), st2, fuel).out == exec(l, s, st, fuel).out,
        alike_but(names, exec(l, s, st, fuel).st, run(l, unread_in(s, root, protected), st2, fuel).st),
    decreases fuel, s, 0nat,
{
    let t = unread_in(s, root, protected);
    unread_by(l, s, st, st2, names, fuel);
    if unread(s, root, protected) {
        let (n, v) = sole_assign(s)->Some_0;
        assert(names.contains(n));
        definition_exec(l, s, st2, fuel);
        let r2 = exec(l, s, st2, fuel);
        if pure(v) {
            pure_eval(l, v, st2.env, st2.w, st2.w);
            assert(run(l, t, st2, fuel) == (RunV { out: OutcomeV::Normal, st: st2 }));
        } else {
            run_one(l, StmtV::Call(v), st2, fuel);
        }
        assert forall|x: Text| !names.contains(x) implies #[trigger] (exec(l, s, st, fuel).st.env)(x) == (st2.env)(
            x,
        ) by {
            assert((exec(l, s, st, fuel).st.env)(x) == (r2.st.env)(x));
        }
    } else {
        match s {
            StmtV::If { cond, then_body, else_body } => {
                let c = StmtV::If {
                    cond,
                    then_body: without_unread(then_body, root, protected),
                    else_body: without_unread(else_body, root, protected),
                };
                run_one(l, c, st2, fuel);
                let body = if (l.truthy)(eval(l, cond, st.env, st.w).v) {
                    then_body
                } else {
                    else_body
                };
                assert forall|i: int| 0 <= i < names.len() implies deep(reads_of(#[trigger] names[i]), body) == 0 by {
                    assert(deep_stmt(reads_of(names[i]), s) == 0);
                }
                cond_same(l, cond, s, names, st, st2);
                let a = eval(l, cond, st.env, st.w);
                let s1 = StateV { env: st.env, w: a.w };
                let s2 = StateV { env: st2.env, w: a.w };
                unread_stores_run(l, body, root, protected, names, s1, s2, fuel);
            },
            StmtV::Loop { head, body } => {
                let c = StmtV::Loop { head, body: without_unread(body, root, protected) };
                run_one(l, c, st2, fuel);
                begun_same(l, head, body, names, st, st2);
                assert forall|i: int| 0 <= i < names.len() implies deep(reads_of(#[trigger] names[i]), body) == 0 by {
                    assert(deep_stmt(reads_of(names[i]), s) == 0);
                }
                assert forall|i: int| 0 <= i < names.len() implies cond_reads(head, #[trigger] names[i]) == 0 by {
                    assert(deep_stmt(reads_of(names[i]), s) == 0);
                }
                let b = begun(l, head, st);
                let b2 = begun(l, head, st2);
                unread_rounds_run(l, head, body, root, protected, names, b.1, b2.1, b.0, fuel);
            },
            _ => {
                run_one(l, s, st2, fuel);
            },
        }
    }
}

/// Reads of `n` in the condition of a `while` or `repeat`.
pub open spec fn cond_reads(head: LoopHead, n: Text) -> nat {
    match head {
        LoopHead::While(c) => crate::query::expr_reads(c, n),
        LoopHead::Repeat(c) => crate::query::expr_reads(c, n),
        _ => 0,
    }
}

/// A condition has the same value whatever the variables are that it does not read.
proof fn cond_same(l: Lang, cond: ExprV, s: StmtV, names: Seq<Text>, st: StateV, st2: StateV)
    requires
        alike_but(names, st, st2),
        s matches StmtV::If { cond: c, .. } && c == cond,
        reads_no(s, names),
    ensures
        eval(l, cond, st.env, st.w) == eval(l, cond, st2.env, st2.w),
{
    assert forall|i: int| 0 <= i < names.len() implies crate::query::expr_reads(cond, #[trigger] names[i]) == 0 by {
        assert(deep_stmt(reads_of(names[i]), s) == 0);
    }
    expr_same(l, cond, names, st, st2);
}

/// An expression has the same value whatever the variables are that it does not read.
proof fn expr_same(l: Lang, e: ExprV, names: Seq<Text>, st: StateV, st2: StateV)
    requires
        alike_but(names, st, st2),
        forall|i: int| 0 <= i < names.len() ==> crate::query::expr_reads(e, #[trigger] names[i]) == 0,
    ensures
        eval(l, e, st.env, st.w) == eval(l, e, st2.env, st2.w),
{
    let s = StmtV::Return(seq![e]);
    assert(seq![e].drop_last() =~= Seq::<ExprV>::empty());
    assert forall|i: int| 0 <= i < names.len() implies deep_stmt(reads_of(#[trigger] names[i]), s) == 0 by {
        assert(crate::query::exprs_reads(seq![e].drop_last(), names[i]) == 0);
        assert(crate::query::expr_reads(e, names[i]) == 0);
        assert(crate::query::own_reads(s, names[i]) == 0);
    }
    unread_by(l, s, st, st2, names, 0);
    crate::inlining::one_value(l, seq![e], st.env, st.w);
    crate::inlining::one_value(l, seq![e], st2.env, st2.w);
    let a = exec(l, s, st, 0);
    let b = exec(l, s, st2, 0);
    assert(a.out->Return_0[0] == b.out->Return_0[0]);
}

/// What a loop evaluates before its first round is the same whatever the variables are that it does
/// not read.
proof fn begun_same(l: Lang, head: LoopHead, body: Block, names: Seq<Text>, st: StateV, st2: StateV)
    requires
        alike_but(names, st, st2),
        reads_no(StmtV::Loop { head, body }, names),
    ensures
        begun(l, head, st).0 == begun(l, head, st2).0,
        alike_but(names, begun(l, head, st).1, begun(l, head, st2).1),
{
    let s = StmtV::Loop { head, body };
    match head {
        LoopHead::Numeric { start, limit, step, .. } => {
            assert forall|i: int| 0 <= i < names.len() implies crate::query::expr_reads(start, #[trigger] names[i]) == 0
                && crate::query::expr_reads(limit, names[i]) == 0 && (step matches Some(e)
                ==> crate::query::expr_reads(e, names[i]) == 0) by {
                assert(deep_stmt(reads_of(names[i]), s) == 0);
            }
            expr_same(l, start, names, st, st2);
            let a = eval(l, start, st.env, st.w);
            let s1 = StateV { env: st.env, w: a.w };
            let s2 = StateV { env: st2.env, w: a.w };
            expr_same(l, limit, names, s1, s2);
            let b = eval(l, limit, st.env, a.w);
            if let Some(e) = step {
                assert forall|i: int| 0 <= i < names.len() implies crate::query::expr_reads(e, #[trigger] names[i])
                    == 0 by {
                    assert(crate::query::expr_reads(start, names[i]) == 0);
                }
                expr_same(l, e, names, StateV { env: st.env, w: b.w }, StateV { env: st2.env, w: b.w });
            }
        },
        LoopHead::Generic { exprs, .. } => {
            let t = StmtV::Return(exprs);
            assert forall|i: int| 0 <= i < names.len() implies deep_stmt(reads_of(#[trigger] names[i]), t) == 0 by {
                assert(deep_stmt(reads_of(names[i]), s) == 0);
                assert(crate::query::own_reads(t, names[i]) == 0);
            }
            unread_by(l, t, st, st2, names, 0);
            assert(exec(l, t, st, 0).out->Return_0 == exec(l, t, st2, 0).out->Return_0);
        },
        _ => {},
    }
}

proof fn unread_rounds_run(
    l: Lang,
    head: LoopHead,
    body: Block,
    root: Block,
    protected: Seq<Text>,
    names: Seq<Text>,
    st: StateV,
    st2: StateV,
    c: RoundV,
    fuel: nat,
)
    requires
        deep(unlisted(names, root, protected), body) == 0,
        block_reads_no(body, names),
        forall|i: int| 0 <= i < names.len() ==> cond_reads(head, #[trigger] names[i]) == 0,
        alike_but(names, st, st2),
    ensures
        ({
            let r = rounds(l, head, body, st, c, fuel);
            let r2 = rounds(l, head, without_unread(body, root, protected), st2, c, fuel);
            r.out == r2.out && alike_but(names, r.st, r2.st)
        }),
    decreases fuel, body, 2nat,
{
    if let LoopHead::While(e) = head {
        assert forall|i: int| 0 <= i < names.len() implies crate::query::expr_reads(e, #[trigger] names[i]) == 0 by {
            assert(cond_reads(head, names[i]) == 0);
        }
        expr_same(l, e, names, st, st2);
    }
    if let LoopHead::Generic { vars, .. } = head {
        if let RoundV::Each { vs, at } = c {
            let r = (l.each)(st.w, vs, at);
            if let Some(xs) = r.1 {
                stored_alike(
                    l,
                    StateV { env: st.env, w: r.0 },
                    StateV { env: st2.env, w: r.0 },
                    crate::meaning::name_places(vars),
                    xs,
                    vars.len() as int,
                    names,
                );
            }
        }
    }
    let e = entered(l, head, st, c);
    let e2 = entered(l, head, st2, c);
    assert(e.0 == e2.0 && e.2 == e2.2 && alike_but(names, e.1, e2.1));
    if e.0 && fuel > 0 {
        let k = (fuel - 1) as nat;
        unread_stores_run(l, body, root, protected, names, e.1, e2.1, k);
        let r = run(l, body, e.1, k);
        let r2 = run(l, without_unread(body, root, protected), e2.1, k);
        if r.out is Normal || r.out is Continue {
            if let LoopHead::Repeat(x) = head {
                assert forall|i: int| 0 <= i < names.len() implies crate::query::expr_reads(x, #[trigger] names[i])
                    == 0 by {
                    assert(cond_reads(head, names[i]) == 0);
                }
                expr_same(l, x, names, r.st, r2.st);
            }
            let x = left(l, head, r.st);
            let x2 = left(l, head, r2.st);
            assert(x.0 == x2.0 && alike_but(names, x.1, x2.1));
            if !x.0 {
                unread_rounds_run(l, head, body, root, protected, names, x.1, x2.1, e.2, k);
            }
        }
    }
}

proof fn stored_alike(
    l: Lang,
    st: StateV,
    st2: StateV,
    ps: Seq<crate::meaning::PlaceV>,
    vs: Seq<crate::meaning::Val>,
    k: int,
    names: Seq<Text>,
)
    requires
        alike_but(names, st, st2),
        k <= ps.len(),
    ensures
        alike_but(
            names,
            crate::meaning::stored_all(l, st, ps, vs, k),
            crate::meaning::stored_all(l, st2, ps, vs, k),
        ),
    decreases k,
{
    if k > 0 {
        stored_alike(l, st, st2, ps, vs, k - 1, names);
        let a = crate::meaning::stored_all(l, st, ps, vs, k - 1);
        let b = crate::meaning::stored_all(l, st2, ps, vs, k - 1);
        let v = crate::meaning::value_at(l, vs, k - 1, ps.len() as int);
        let c = crate::meaning::stored(l, a, ps[k - 1], v);
        let d = crate::meaning::stored(l, b, ps[k - 1], v);
        assert forall|x: Text| !names.contains(x) implies #[trigger] (c.env)(x) == (d.env)(x) by {
            assert((a.env)(x) == (b.env)(x));
        }
    }
}

/// The variables that `b` stores and `root` does not read, but for `protected` ones.
pub open spec fn unread_names(b: Block, root: Block, protected: Seq<Text>) -> Seq<Text>
    decreases b,
{
    if b.len() == 0 {
        Seq::empty()
    } else {
        unread_names(b.drop_last(), root, protected) + unread_names_in(b.last(), root, protected)
    }
}

pub open spec fn unread_names_in(s: StmtV, root: Block, protected: Seq<Text>) -> Seq<Text>
    decreases s,
{
    if unread(s, root, protected) {
        seq![sole_assign(s)->Some_0.0]
    } else {
        match s {
            StmtV::If { then_body, else_body, .. } => unread_names(then_body, root, protected) + unread_names(
                else_body,
                root,
                protected,
            ),
            StmtV::Loop { body, .. } => unread_names(body, root, protected),
            _ => Seq::empty(),
        }
    }
}

/// Whether all of `some` are in `names`, are not read in `root`, and are not protected.
pub open spec fn all_unread(some: Seq<Text>, root: Block, protected: Seq<Text>) -> bool {
    forall|i: int| 0 <= i < some.len() ==> deep(reads_of(#[trigger] some[i]), root) == 0 && !protected.contains(some[i])
}

pub open spec fn within_names(some: Seq<Text>, names: Seq<Text>) -> bool {
    forall|i: int| 0 <= i < some.len() ==> names.contains(#[trigger] some[i])
}

proof fn concat_parts(a: Seq<Text>, b: Seq<Text>, names: Seq<Text>)
    requires
        within_names(a + b, names),
    ensures
        within_names(a, names),
        within_names(b, names),
{
    assert forall|i: int| 0 <= i < a.len() implies names.contains(#[trigger] a[i]) by {
        assert((a + b)[i] == a[i]);
    }
    assert forall|i: int| 0 <= i < b.len() implies names.contains(#[trigger] b[i]) by {
        assert((a + b)[a.len() + i] == b[i]);
    }
}

proof fn names_listed(b: Block, root: Block, protected: Seq<Text>, names: Seq<Text>)
    ensures
        all_unread(unread_names(b, root, protected), root, protected),
        within_names(unread_names(b, root, protected), names) ==> deep(unlisted(names, root, protected), b) == 0,
    decreases b,
{
    if b.len() > 0 {
        let x = unread_names(b.drop_last(), root, protected);
        let y = unread_names_in(b.last(), root, protected);
        names_listed(b.drop_last(), root, protected, names);
        names_listed_in(b.last(), root, protected, names);
        if within_names(x + y, names) {
            concat_parts(x, y, names);
        }
    }
}

proof fn names_listed_in(s: StmtV, root: Block, protected: Seq<Text>, names: Seq<Text>)
    ensures
        all_unread(unread_names_in(s, root, protected), root, protected),
        within_names(unread_names_in(s, root, protected), names) ==> deep_stmt(unlisted(names, root, protected), s)
            == 0,
    decreases s,
{
    let all = unread_names_in(s, root, protected);
    if unread(s, root, protected) {
        if within_names(all, names) {
            assert(names.contains(all[0]));
        }
    } else {
        match s {
            StmtV::If { then_body, else_body, .. } => {
                let x = unread_names(then_body, root, protected);
                let y = unread_names(else_body, root, protected);
                names_listed(then_body, root, protected, names);
                names_listed(else_body, root, protected, names);
                if within_names(x + y, names) {
                    concat_parts(x, y, names);
                }
            },
            StmtV::Loop { body, .. } => {
                names_listed(body, root, protected, names);
            },
            _ => {},
        }
    }
}

/// Whether two runs cannot be told apart: they end the same way, in the same world, with the same
/// values of `protected` variables.
pub open spec fn same_outside_run(protected: Seq<Text>, r: RunV, r2: RunV) -> bool {
    &&& r.out == r2.out && r.st.w == r2.st.w
    &&& forall|x: Text| protected.contains(x) ==> #[trigger] (r.st.env)(x) == (r2.st.env)(x)
}

/// Removing the stores of variables that nothing reads changes nothing that a run does.
pub proof fn unread_stores_do_nothing(l: Lang, b: Block, protected: Seq<Text>, st: StateV, fuel: nat)
    ensures
        same_outside_run(protected, run(l, without_unread(b, b, protected), st, fuel), run(l, b, st, fuel)),
{
    let names = unread_names(b, b, protected);
    names_listed(b, b, protected, names);
    assert(within_names(names, names)) by {
        assert forall|i: int| 0 <= i < names.len() implies names.contains(#[trigger] names[i]) by {}
    }
    assert(alike_but(names, st, st));
    unread_stores_run(l, b, b, protected, names, st, st, fuel);
    let r = run(l, b, st, fuel);
    let r2 = run(l, without_unread(b, b, protected), st, fuel);
    assert forall|x: Text| protected.contains(x) implies #[trigger] (r2.st.env)(x) == (r.st.env)(x) by {
        if names.contains(x) {
            let i = choose|i: int| 0 <= i < names.len() && names[i] == x;
            assert(!protected.contains(names[i]));
        }
        assert((r.st.env)(x) == (r2.st.env)(x));
    }
}

/// Eliminating dead stores changes nothing that a run of the function does: it ends the same way,
/// makes the same calls with the same values, writes the same to tables, returns the same, and
/// leaves the same in every protected variable.
pub proof fn dead_stores_do_nothing(l: Lang, b: Block, protected: Seq<Text>, st: StateV, fuel: nat)
    ensures
        same_outside_run(protected, run(l, without_dead_stores(b, protected), st, fuel), run(l, b, st, fuel)),
    decreases deep(store(), b),
{
    if fewer_stores(b, protected) != b {
        fewer_stores_fewer(b, protected);
        let c = without_unread(b, b, protected);
        let d = fewer_stores(b, protected);
        unread_stores_do_nothing(l, b, protected, st, fuel);
        overwritten_stores_do_nothing(l, c, protected, st, fuel);
        dead_stores_do_nothing(l, d, protected, st, fuel);
        let r0 = run(l, b, st, fuel);
        let r1 = run(l, c, st, fuel);
        let r2 = run(l, d, st, fuel);
        let r3 = run(l, without_dead_stores(b, protected), st, fuel);
        assert forall|x: Text| protected.contains(x) implies #[trigger] (r3.st.env)(x) == (r0.st.env)(x) by {
            assert((r3.st.env)(x) == (r2.st.env)(x));
            assert((r2.st.env)(x) == (r1.st.env)(x));
            assert((r1.st.env)(x) == (r0.st.env)(x));
        }
    }
}

/// Removing a pure store that nothing after it reads changes nothing that a run does, but for that
/// variable.
pub proof fn stores_after_the_last_read_do_nothing(
    l: Lang,
    b: Block,
    i: int,
    protected: Seq<Text>,
    st: StateV,
    fuel: nat,
)
    requires
        0 <= i < b.len(),
        dead_after(b, i, protected),
    ensures
        same_run(sole_assign(b[i])->Some_0.0, run(l, b.remove(i), st, fuel), run(l, b, st, fuel)),
        !protected.contains(sole_assign(b[i])->Some_0.0),
{
    let (n, v) = sole_assign(b[i])->Some_0;
    let head = b.subrange(0, i);
    let rest = b.subrange(i + 1, b.len() as int);
    assert(b.remove(i) =~= head + rest);
    assert(b =~= head + (seq![b[i]] + rest));
    run_concat(l, head, rest, st, fuel);
    run_concat(l, head, seq![b[i]] + rest, st, fuel);
    let r = run(l, head, st, fuel);
    if r.out is Normal {
        run_concat(l, seq![b[i]], rest, r.st, fuel);
        run_one(l, b[i], r.st, fuel);
        definition_exec(l, b[i], r.st, fuel);
        pure_eval(l, v, r.st.env, r.st.w, r.st.w);
        unread_run(l, rest, r.st, exec(l, b[i], r.st, fuel).st, n, fuel);
    }
}

} // verus!
