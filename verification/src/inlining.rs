//! Inlining keeps what a run of the block does.
use vstd::prelude::*;

use crate::ast::{Block, ExprV, FieldV, LoopHead, StmtV};
use crate::inline::{
    effectful, expr_head, first_head, inlined_at, leaf, next_read, next_read_bounds, next_write, next_write_bounds,
    passes, passes_all, read_once, reads_in_targets, reads_table, some_field_reads_table, some_reads_table, stmt_head,
};
use crate::jumps::sole_assign;
use crate::liveness::{
    names_read, names_read_all, names_read_field, names_read_fields, replaced, replaced_in, replaced_in_field,
    replaced_in_fields, stmt_replaced,
};
use crate::markers::assigns;
use crate::meaning::{
    alike, begun, eval, eval_all, eval_field, eval_fields, eval_place, eval_places, exec, rounds, run, run_concat,
    run_one, same_run, stored_all, unread_eval, unread_eval_all, unread_eval_fields, unread_exec, unread_run,
    unwritten_exec, unwritten_run, with_var, Env, EvalsV, Lang, RoundV, StateV, Val, World,
};
use crate::naming::{pure, pure_all, pure_field, pure_fields};
use crate::order::{plain, replaced_builds};
use crate::query::{expr_reads, exprs_reads, field_reads, fields_reads, reads_of, shallow_reads, stmt_writes, writes_to};
use crate::text::Text;
use crate::weight::{deep, deep_stmt};

verus! {

// ---- values without effects -------------------------------------------------------------------------------

/// Evaluating a value without effects changes nothing; if it reads no table, it has the same value
/// in every world.
pub proof fn pure_eval(l: Lang, e: ExprV, env: Env, w: World, w2: World)
    requires
        pure(e),
    ensures
        eval(l, e, env, w).w == w,
        !reads_table(e) ==> eval(l, e, env, w).v == eval(l, e, env, w2).v,
    decreases e,
{
    match e {
        ExprV::Index(t, k) => {
            pure_eval(l, *t, env, w, w2);
            pure_eval(l, *k, env, w, w2);
        },
        ExprV::Field(t, _) => {
            pure_eval(l, *t, env, w, w2);
        },
        ExprV::Call(f, args) => {
            if let ExprV::Field(t, _) = *f {
                assert(eval(l, *t, env, w).w == w);
                assert(eval(l, *t, env, w2).w == w2);
                assert(reads_table(*f));
            }
            assert(eval(l, *f, env, w).w == w);
            pure_eval_all(l, args, env, w, w2);
            assert(eval(l, *f, env, w2).w == w2);
        },
        ExprV::Unary(_, a) => {
            pure_eval(l, *a, env, w, w2);
        },
        ExprV::Binary(_, a, b) => {
            pure_eval(l, *a, env, w, w2);
            pure_eval(l, *b, env, w, w2);
            pure_eval(l, *a, env, w2, w);
        },
        ExprV::Table(fs) => {
            pure_eval_fields(l, fs, env, w, w2);
        },
        _ => {},
    }
}

pub proof fn pure_eval_all(l: Lang, es: Seq<ExprV>, env: Env, w: World, w2: World)
    requires
        pure_all(es),
    ensures
        eval_all(l, es, env, w).w == w,
        eval_all(l, es, env, w2).w == w2,
        !some_reads_table(es) ==> eval_all(l, es, env, w).vs == eval_all(l, es, env, w2).vs,
    decreases es,
{
    if es.len() > 0 {
        let front = es.drop_last();
        assert forall|i: int| 0 <= i < front.len() implies pure(#[trigger] front[i]) by {
            assert(es[i] == front[i]);
        }
        assert(pure_all(front));
        pure_eval_all(l, front, env, w, w2);
        assert(pure(es[es.len() - 1]));
        pure_eval(l, es.last(), env, w, w2);
        pure_eval(l, es.last(), env, w2, w);
        if !some_reads_table(es) {
            assert(!reads_table(es[es.len() - 1]));
            assert(!some_reads_table(front)) by {
                if some_reads_table(front) {
                    let i = choose|i: int| 0 <= i < front.len() && reads_table(#[trigger] front[i]);
                    assert(reads_table(es[i]));
                }
            }
        }
    }
}

proof fn pure_eval_fields(l: Lang, fs: Seq<FieldV>, env: Env, w: World, w2: World)
    requires
        pure_fields(fs),
    ensures
        eval_fields(l, fs, env, w).w == w,
        eval_fields(l, fs, env, w2).w == w2,
        !some_field_reads_table(fs) ==> eval_fields(l, fs, env, w).slots == eval_fields(l, fs, env, w2).slots,
    decreases fs,
{
    if fs.len() > 0 {
        let front = fs.drop_last();
        assert forall|i: int| 0 <= i < front.len() implies pure_field(#[trigger] front[i]) by {
            assert(fs[i] == front[i]);
        }
        assert(pure_fields(front));
        pure_eval_fields(l, front, env, w, w2);
        assert(pure_field(fs[fs.len() - 1]));
        match fs.last() {
            FieldV::Item(e) => {
                pure_eval(l, e, env, w, w2);
                pure_eval(l, e, env, w2, w);
            },
            FieldV::Named(_, e) => {
                pure_eval(l, e, env, w, w2);
                pure_eval(l, e, env, w2, w);
            },
            FieldV::Keyed(k, e) => {
                pure_eval(l, k, env, w, w2);
                pure_eval(l, k, env, w2, w);
                pure_eval(l, e, env, w, w2);
                pure_eval(l, e, env, w2, w);
            },
        }
        assert(eval_field(l, fs.last(), env, w).w == w);
        assert(eval_field(l, fs.last(), env, w2).w == w2);
        if !some_field_reads_table(fs) {
            assert(!crate::inline::field_reads_table(fs[fs.len() - 1]));
            assert(!some_field_reads_table(front)) by {
                if some_field_reads_table(front) {
                    let i = choose|i: int|
                        0 <= i < front.len() && crate::inline::field_reads_table(#[trigger] front[i]);
                    assert(crate::inline::field_reads_table(fs[i]));
                }
            }
            assert(eval_field(l, fs.last(), env, w).slots == eval_field(l, fs.last(), env, w2).slots);
        }
    }
}

// ---- where a read may take its value ------------------------------------------------------------------------

/// Whether nothing with an effect is evaluated before the first read of `n` in `e`.
pub open spec fn calm(e: ExprV, n: Text) -> bool
    decreases e,
{
    match e {
        ExprV::Index(t, k) => if expr_reads(*t, n) > 0 {
            calm(*t, n)
        } else {
            pure(*t) && calm(*k, n)
        },
        ExprV::Field(t, _) => calm(*t, n),
        ExprV::Call(f, args) => if expr_reads(*f, n) > 0 {
            calm(*f, n)
        } else {
            pure(*f) && calm_all(args, n)
        },
        ExprV::MethodCall(o, _, args) => if expr_reads(*o, n) > 0 {
            calm(*o, n)
        } else {
            pure(*o) && calm_all(args, n)
        },
        ExprV::Unary(_, a) => calm(*a, n),
        ExprV::Binary(_, a, b) => if expr_reads(*a, n) > 0 {
            calm(*a, n)
        } else {
            pure(*a) && calm(*b, n)
        },
        ExprV::Table(fs) => calm_fields(fs, n),
        _ => true,
    }
}

pub open spec fn calm_all(es: Seq<ExprV>, n: Text) -> bool
    decreases es,
{
    if es.len() == 0 {
        true
    } else if exprs_reads(es.drop_last(), n) > 0 {
        calm_all(es.drop_last(), n)
    } else {
        pure_all(es.drop_last()) && calm(es.last(), n)
    }
}

pub open spec fn calm_fields(fs: Seq<FieldV>, n: Text) -> bool
    decreases fs,
{
    if fs.len() == 0 {
        true
    } else if fields_reads(fs.drop_last(), n) > 0 {
        calm_fields(fs.drop_last(), n)
    } else {
        pure_fields(fs.drop_last()) && match fs.last() {
            FieldV::Item(e) => calm(e, n),
            FieldV::Named(_, e) => calm(e, n),
            FieldV::Keyed(k, e) => if expr_reads(k, n) > 0 {
                calm(k, n)
            } else {
                pure(k) && calm(e, n)
            },
        }
    }
}

/// Whether nothing with an effect is evaluated before the first read of `n` in `s`.
pub open spec fn calm_stmt(s: StmtV, n: Text) -> bool {
    match s {
        StmtV::Local { values, .. } => calm_all(values, n),
        StmtV::Assign { targets, values } => pure_all(targets) && calm_all(values, n),
        StmtV::Call(e) => calm(e, n),
        StmtV::Return(es) => calm_all(es, n),
        StmtV::If { cond, .. } => calm(cond, n),
        StmtV::Loop { head: LoopHead::Numeric { start, limit, step, .. }, .. } => if expr_reads(start, n) > 0 {
            calm(start, n)
        } else if expr_reads(limit, n) > 0 {
            pure(start) && calm(limit, n)
        } else {
            pure(start) && pure(limit) && (step matches Some(e) ==> calm(e, n))
        },
        StmtV::Loop { head: LoopHead::Generic { exprs, .. }, .. } => calm_all(exprs, n),
        _ => true,
    }
}

/// Whether `v` may be evaluated at the first read of `n`: it is the same in every world; or it has
/// no effect, and neither has anything before the read (`calm`); or nothing comes before the read
/// (`first`).
pub open spec fn fits(v: ExprV, calm: bool, first: bool) -> bool {
    (pure(v) && !reads_table(v)) || (pure(v) && calm) || first
}

/// `env` where `n` is `v`, and the world after `v` was evaluated.
pub open spec fn bound(l: Lang, env: Env, w: World, n: Text, v: ExprV) -> StateV {
    let a = eval(l, v, env, w);
    StateV { env: with_var(env, n, a.v), w: a.w }
}

/// A value in the place of the only read of `n` is as good as `n` with that value.
proof fn replaced_eval(l: Lang, e: ExprV, n: Text, v: ExprV, env: Env, w: World)
    requires
        plain(n, v),
        expr_reads(e, n) == 1,
        fits(v, calm(e, n), expr_head(e) == Some(n)),
    ensures
        ({
            let b = bound(l, env, w, n, v);
            eval(l, replaced(e, n, v), env, w) == eval(l, e, b.env, b.w)
        }),
    decreases e,
{
    let b = bound(l, env, w, n, v);
    let env2 = b.env;
    assert forall|x: Text| x != n implies #[trigger] env(x) == env2(x) by {}
    if pure(v) {
        pure_eval(l, v, env, w, w);
    }
    match e {
        ExprV::Var(m) => {},
        ExprV::Field(t, _) => {
            replaced_eval(l, *t, n, v, env, w);
        },
        ExprV::Unary(_, a) => {
            replaced_eval(l, *a, n, v, env, w);
        },
        ExprV::Index(t, k) => {
            if expr_reads(*t, n) > 0 {
                replaced_eval(l, *t, n, v, env, w);
                unread_eval(l, *k, env, env2, n, eval(l, *t, env2, b.w).w);
            } else {
                head_reads(*t, n);
                unread_eval(l, *t, env, env2, n, w);
                let u = eval(l, *t, env, w).w;
                later(l, *t, n, v, env, w, u, calm(e, n));
                replaced_eval(l, *k, n, v, env, u);
            }
        },
        ExprV::Binary(op, x, y) => {
            if expr_reads(*x, n) > 0 {
                replaced_eval(l, *x, n, v, env, w);
                unread_eval(l, *y, env, env2, n, eval(l, *x, env2, b.w).w);
            } else {
                head_reads(*x, n);
                unread_eval(l, *x, env, env2, n, w);
                let u = eval(l, *x, env, w).w;
                later(l, *x, n, v, env, w, u, calm(e, n));
                replaced_eval(l, *y, n, v, env, u);
            }
        },
        ExprV::Call(f, args) => {
            replaced_builds(*f, n, v);
            if expr_reads(*f, n) > 0 {
                replaced_eval(l, *f, n, v, env, w);
                unread_eval_all(l, args, env, env2, n, eval(l, *f, env2, b.w).w);
            } else {
                head_reads(*f, n);
                unread_eval(l, *f, env, env2, n, w);
                let u = eval(l, *f, env, w).w;
                later(l, *f, n, v, env, w, u, calm(e, n));
                replaced_eval_all(l, args, n, v, env, u);
            }
        },
        ExprV::MethodCall(o, _, args) => {
            if expr_reads(*o, n) > 0 {
                replaced_eval(l, *o, n, v, env, w);
                unread_eval_all(l, args, env, env2, n, eval(l, *o, env2, b.w).w);
            } else {
                head_reads(*o, n);
                unread_eval(l, *o, env, env2, n, w);
                let u = eval(l, *o, env, w).w;
                later(l, *o, n, v, env, w, u, calm(e, n));
                replaced_eval_all(l, args, n, v, env, u);
            }
        },
        ExprV::Table(fs) => {
            replaced_eval_fields(l, fs, n, v, env, w);
        },
        _ => {},
    }
}

/// What is evaluated before the read of `n` leaves the value as it is.
proof fn later(l: Lang, t: ExprV, n: Text, v: ExprV, env: Env, w: World, u: World, calm: bool)
    requires
        pure(v),
        !reads_table(v) || (calm && pure(t)),
        u == eval(l, t, env, w).w,
    ensures
        bound(l, env, u, n, v).env == bound(l, env, w, n, v).env,
        bound(l, env, u, n, v).w == u,
        bound(l, env, w, n, v).w == w,
{
    pure_eval(l, v, env, w, u);
    pure_eval(l, v, env, u, w);
    if calm && pure(t) {
        pure_eval(l, t, env, w, w);
    }
    assert(bound(l, env, u, n, v).env =~= bound(l, env, w, n, v).env);
}

/// An expression that begins by reading `n` reads it.
proof fn head_reads(e: ExprV, n: Text)
    requires
        !n.contains('.') || true,
    ensures
        !n.contains('.') && expr_head(e) == Some(n) ==> expr_reads(e, n) > 0,
{
    if !n.contains('.') && expr_head(e) == Some(n) {
        crate::order::head_is_read(e, n);
    }
}

proof fn replaced_eval_all(l: Lang, es: Seq<ExprV>, n: Text, v: ExprV, env: Env, w: World)
    requires
        plain(n, v),
        exprs_reads(es, n) == 1,
        fits(v, calm_all(es, n), first_head(es) == Some(n)),
    ensures
        ({
            let b = bound(l, env, w, n, v);
            eval_all(l, replaced_in(es, n, v), env, w) == eval_all(l, es, b.env, b.w)
        }),
    decreases es,
{
    let b = bound(l, env, w, n, v);
    let env2 = b.env;
    let front = es.drop_last();
    let r = replaced_in(es, n, v);
    assert forall|x: Text| x != n implies #[trigger] env(x) == env2(x) by {}
    if exprs_reads(front, n) > 0 {
        if first_head(es) == Some(n) {
            assert(front.len() > 0);
            assert(front[0] == es[0]);
        }
        replaced_eval_all(l, front, n, v, env, w);
        assert(r.drop_last() =~= replaced_in(front, n, v));
        assert(r.last() == es.last());
        unread_eval(l, es.last(), env, env2, n, eval_all(l, front, env2, b.w).w);
    } else {
        assert(r.drop_last() =~= front);
        assert(r.last() == replaced(es.last(), n, v));
        if front.len() == 0 {
            assert(es[0] == es.last());
            replaced_eval(l, es.last(), n, v, env, w);
            assert(eval_all(l, front, env, w) == (EvalsV { vs: Seq::empty(), w }));
            assert(eval_all(l, front, env2, b.w) == (EvalsV { vs: Seq::empty(), w: b.w }));
        } else {
            if first_head(es) == Some(n) {
                head_reads(es[0], n);
                assert(front[0] == es[0]);
                some_read(front, n, 0);
            }
            unread_eval_all(l, front, env, env2, n, w);
            let u = eval_all(l, front, env, w).w;
            pure_eval(l, v, env, w, u);
            pure_eval(l, v, env, u, w);
            if pure_all(front) {
                pure_eval_all(l, front, env, w, w);
            }
            assert(b.w == w);
            assert(bound(l, env, u, n, v).env =~= env2);
            replaced_eval(l, es.last(), n, v, env, u);
            assert(eval_all(l, r, env, w) == (EvalsV {
                vs: eval_all(l, front, env, w).vs.push(eval(l, r.last(), env, u).v),
                w: eval(l, r.last(), env, u).w,
            }));
        }
    }
}

proof fn some_read(es: Seq<ExprV>, n: Text, i: int)
    requires
        0 <= i < es.len(),
        expr_reads(es[i], n) > 0,
    ensures
        exprs_reads(es, n) > 0,
    decreases es.len(),
{
    if i < es.len() - 1 {
        assert(es.drop_last()[i] == es[i]);
        some_read(es.drop_last(), n, i);
    }
}

proof fn replaced_eval_fields(l: Lang, fs: Seq<FieldV>, n: Text, v: ExprV, env: Env, w: World)
    requires
        plain(n, v),
        fields_reads(fs, n) == 1,
        fits(v, calm_fields(fs, n), false),
    ensures
        ({
            let b = bound(l, env, w, n, v);
            eval_fields(l, replaced_in_fields(fs, n, v), env, w) == eval_fields(l, fs, b.env, b.w)
        }),
    decreases fs,
{
    let b = bound(l, env, w, n, v);
    let env2 = b.env;
    let front = fs.drop_last();
    let f = fs.last();
    let r = replaced_in_fields(fs, n, v);
    assert forall|x: Text| x != n implies #[trigger] env(x) == env2(x) by {}
    pure_eval(l, v, env, w, w);
    if fields_reads(front, n) > 0 {
        replaced_eval_fields(l, front, n, v, env, w);
        assert(r.drop_last() =~= replaced_in_fields(front, n, v));
        assert(r.last() == f);
        let u = eval_fields(l, front, env2, b.w).w;
        assert(field_reads(f, n) == 0);
        match f {
            FieldV::Item(e) => {
                unread_eval(l, e, env, env2, n, u);
            },
            FieldV::Named(_, e) => {
                unread_eval(l, e, env, env2, n, u);
            },
            FieldV::Keyed(k, e) => {
                unread_eval(l, k, env, env2, n, u);
                unread_eval(l, e, env, env2, n, eval(l, k, env, u).w);
            },
        }
        assert(eval_field(l, f, env, u) == eval_field(l, f, env2, u));
    } else {
        assert(r.drop_last() =~= front);
        assert(r.last() == replaced_in_field(f, n, v));
        unread_eval_fields(l, front, env, env2, n, w);
        let u = eval_fields(l, front, env, w).w;
        pure_eval(l, v, env, w, u);
        pure_eval(l, v, env, u, w);
        if pure_fields(front) {
            pure_eval_fields(l, front, env, w, w);
        }
        assert(bound(l, env, u, n, v).env =~= env2);
        assert(field_reads(f, n) == 1);
        match f {
            FieldV::Item(e) => {
                replaced_eval(l, e, n, v, env, u);
            },
            FieldV::Named(_, e) => {
                replaced_eval(l, e, n, v, env, u);
            },
            FieldV::Keyed(k, e) => {
                if expr_reads(k, n) > 0 {
                    replaced_eval(l, k, n, v, env, u);
                    unread_eval(l, e, env, env2, n, eval(l, k, env2, u).w);
                } else {
                    unread_eval(l, k, env, env2, n, u);
                    let x = eval(l, k, env, u).w;
                    later(l, k, n, v, env, u, x, calm_fields(fs, n));
                    replaced_eval(l, e, n, v, env, x);
                }
            },
        }
        assert(eval_field(l, replaced_in_field(f, n, v), env, u) == eval_field(l, f, env2, u));
    }
}

// ---- statements -------------------------------------------------------------------------------------------

/// A statement with a value in the place of its only read of `n` runs as it does where `n` has that
/// value, but for `n` itself.
proof fn replaced_exec(l: Lang, s: StmtV, n: Text, v: ExprV, st: StateV, fuel: nat)
    requires
        plain(n, v),
        shallow_reads(s, n) == 1,
        deep_stmt(reads_of(n), s) == 1,
        !reads_in_targets(s, n),
        fits(v, calm_stmt(s, n), stmt_head(s) == Some(n)),
    ensures
        same_run(n, exec(l, stmt_replaced(s, n, v), st, fuel), exec(l, s, bound(l, st.env, st.w, n, v), fuel)),
{
    let b = bound(l, st.env, st.w, n, v);
    let env = st.env;
    assert forall|x: Text| x != n implies #[trigger] env(x) == (b.env)(x) by {}
    if pure(v) {
        pure_eval(l, v, env, st.w, st.w);
    }
    match s {
        StmtV::Local { names, values } => {
            replaced_eval_all(l, values, n, v, env, st.w);
            let a = eval_all(l, values, b.env, b.w);
            crate::meaning::unread_stored(
                l,
                StateV { env, w: a.w },
                StateV { env: b.env, w: a.w },
                crate::meaning::name_places(names),
                a.vs,
                names.len() as int,
                n,
            );
        },
        StmtV::Assign { targets, values } => {
            crate::meaning::unread_places(l, targets, env, b.env, n, st.w);
            let p = eval_places(l, targets, env, st.w);
            if stmt_head(s) == Some(n) {
                one_place(l, targets, env, st.w);
                one_place(l, targets, b.env, b.w);
                replaced_eval_all(l, values, n, v, env, st.w);
            } else {
                if pure_all(targets) {
                    pure_places(l, targets, env, st.w);
                }
                pure_eval(l, v, env, st.w, p.w);
                pure_eval(l, v, env, p.w, st.w);
                assert(bound(l, env, p.w, n, v).env =~= b.env);
                replaced_eval_all(l, values, n, v, env, p.w);
            }
            let a = eval_all(l, values, b.env, eval_places(l, targets, b.env, b.w).w);
            crate::meaning::unread_stored(
                l,
                StateV { env, w: a.w },
                StateV { env: b.env, w: a.w },
                p.places,
                a.vs,
                p.places.len() as int,
                n,
            );
        },
        StmtV::Call(e) => {
            replaced_eval(l, e, n, v, env, st.w);
        },
        StmtV::Return(es) => {
            replaced_eval_all(l, es, n, v, env, st.w);
        },
        StmtV::If { cond, then_body, else_body } => {
            replaced_eval(l, cond, n, v, env, st.w);
            let a = eval(l, cond, b.env, b.w);
            let s1 = StateV { env, w: a.w };
            let s2 = StateV { env: b.env, w: a.w };
            unread_run(l, then_body, s1, s2, n, fuel);
            unread_run(l, else_body, s1, s2, n, fuel);
        },
        StmtV::Loop { head, body } => {
            let t = stmt_replaced(s, n, v);
            let x = begun(l, t->head, st);
            let y = begun(l, head, b);
            replaced_head(l, s, n, v, st);
            crate::meaning::unread_rounds(l, head, body, x.1, y.1, x.0, n, fuel);
            same_rounds(l, t->head, head, body, x.1, x.0, fuel);
        },
        _ => {},
    }
}

proof fn one_place(l: Lang, ts: Seq<ExprV>, env: Env, w: World)
    requires
        ts.len() == 1,
        ts[0] is Var,
    ensures
        eval_places(l, ts, env, w).w == w,
        eval_places(l, ts, env, w).places == seq![crate::meaning::PlaceV::Name(ts[0]->Var_0)],
{
    let front = ts.drop_last();
    assert(front.len() == 0);
    let a = eval_places(l, front, env, w);
    assert(a.w == w);
    assert(ts.last() == ts[0]);
    assert(eval_place(l, ts.last(), env, w).1 == w);
    assert(eval_places(l, ts, env, w).places =~= seq![crate::meaning::PlaceV::Name(ts[0]->Var_0)]);
}

/// Targets without effects have no effect.
proof fn pure_places(l: Lang, ts: Seq<ExprV>, env: Env, w: World)
    requires
        pure_all(ts),
    ensures
        eval_places(l, ts, env, w).w == w,
    decreases ts.len(),
{
    if ts.len() > 0 {
        let front = ts.drop_last();
        assert forall|i: int| 0 <= i < front.len() implies pure(#[trigger] front[i]) by {
            assert(ts[i] == front[i]);
        }
        pure_places(l, front, env, w);
        assert(pure(ts[ts.len() - 1]));
        match ts.last() {
            ExprV::Field(x, _) => {
                pure_eval(l, *x, env, w, w);
            },
            ExprV::Index(x, k) => {
                pure_eval(l, *x, env, w, w);
                pure_eval(l, *k, env, w, w);
            },
            _ => {
                pure_eval(l, ts.last(), env, w, w);
            },
        }
    }
}

proof fn replaced_head(l: Lang, s: StmtV, n: Text, v: ExprV, st: StateV)
    requires
        plain(n, v),
        s is Loop,
        shallow_reads(s, n) == 1,
        fits(v, calm_stmt(s, n), false),
    ensures
        ({
            let b = bound(l, st.env, st.w, n, v);
            let x = begun(l, stmt_replaced(s, n, v)->head, st);
            let y = begun(l, s->head, b);
            x.0 == y.0 && alike(n, x.1, y.1)
        }),
{
    let b = bound(l, st.env, st.w, n, v);
    let env = st.env;
    assert forall|x: Text| x != n implies #[trigger] env(x) == (b.env)(x) by {}
    pure_eval(l, v, env, st.w, st.w);
    match s->head {
        LoopHead::Numeric { start, limit, step, .. } => {
            if expr_reads(start, n) > 0 {
                replaced_eval(l, start, n, v, env, st.w);
                let a = eval(l, start, b.env, b.w);
                unread_eval(l, limit, env, b.env, n, a.w);
                if let Some(e) = step {
                    unread_eval(l, e, env, b.env, n, eval(l, limit, env, a.w).w);
                }
            } else {
                unread_eval(l, start, env, b.env, n, st.w);
                let u = eval(l, start, env, st.w).w;
                later(l, start, n, v, env, st.w, u, calm_stmt(s, n));
                if expr_reads(limit, n) > 0 {
                    replaced_eval(l, limit, n, v, env, u);
                    if let Some(e) = step {
                        unread_eval(l, e, env, b.env, n, eval(l, limit, b.env, u).w);
                    }
                } else {
                    unread_eval(l, limit, env, b.env, n, u);
                    let x = eval(l, limit, env, u).w;
                    later(l, limit, n, v, env, u, x, calm_stmt(s, n));
                    if let Some(e) = step {
                        replaced_eval(l, e, n, v, env, x);
                    }
                }
            }
        },
        LoopHead::Generic { exprs, .. } => {
            replaced_eval_all_later(l, exprs, n, v, env, st.w);
        },
        _ => {},
    }
}

proof fn replaced_eval_all_later(l: Lang, es: Seq<ExprV>, n: Text, v: ExprV, env: Env, w: World)
    requires
        plain(n, v),
        exprs_reads(es, n) == 1,
        fits(v, calm_all(es, n), false),
    ensures
        ({
            let b = bound(l, env, w, n, v);
            eval_all(l, replaced_in(es, n, v), env, w) == eval_all(l, es, b.env, b.w)
        }),
{
    replaced_eval_all(l, es, n, v, env, w);
}

/// The rounds of a loop do not depend on what is evaluated once before them.
proof fn same_rounds(l: Lang, head: LoopHead, head2: LoopHead, body: Block, st: StateV, c: RoundV, fuel: nat)
    requires
        match (head, head2) {
            (LoopHead::Numeric { var: a, .. }, LoopHead::Numeric { var: b, .. }) => a == b,
            (LoopHead::Generic { vars: a, .. }, LoopHead::Generic { vars: b, .. }) => a == b,
            _ => false,
        },
    ensures
        rounds(l, head, body, st, c, fuel) == rounds(l, head2, body, st, c, fuel),
    decreases fuel,
{
    let e = crate::meaning::entered(l, head, st, c);
    assert(e == crate::meaning::entered(l, head2, st, c));
    if e.0 && fuel > 0 {
        let k = (fuel - 1) as nat;
        let r = run(l, body, e.1, k);
        if r.out is Normal || r.out is Continue {
            same_rounds(l, head, head2, body, r.st, e.2, k);
        }
    }
}

// ---- what a value depends on ------------------------------------------------------------------------------

/// Whether the variables that are in `names` are the same.
pub open spec fn same_at(names: Seq<Text>, env: Env, env2: Env) -> bool {
    forall|x: Text| #[trigger] names.contains(x) ==> env(x) == env2(x)
}

proof fn same_at_parts(a: Seq<Text>, b: Seq<Text>, env: Env, env2: Env)
    requires
        same_at(a + b, env, env2),
    ensures
        same_at(a, env, env2),
        same_at(b, env, env2),
{
    assert forall|x: Text| #[trigger] a.contains(x) implies env(x) == env2(x) by {
        let i = choose|i: int| 0 <= i < a.len() && a[i] == x;
        assert((a + b)[i] == x);
        assert((a + b).contains(x));
    }
    assert forall|x: Text| #[trigger] b.contains(x) implies env(x) == env2(x) by {
        let i = choose|i: int| 0 <= i < b.len() && b[i] == x;
        assert((a + b)[a.len() + i] == x);
        assert((a + b).contains(x));
    }
}

/// The value of an expression depends on the variables that it reads, and on no others.
proof fn same_eval(l: Lang, e: ExprV, env: Env, env2: Env, w: World)
    requires
        same_at(names_read(e), env, env2),
    ensures
        eval(l, e, env, w) == eval(l, e, env2, w),
    decreases e,
{
    match e {
        ExprV::Var(n) => {
            if !n.contains('.') {
                assert(names_read(e)[0] == n);
                assert(names_read(e).contains(n));
            }
        },
        ExprV::Index(t, k) => {
            same_at_parts(names_read(*t), names_read(*k), env, env2);
            same_eval(l, *t, env, env2, w);
            same_eval(l, *k, env, env2, eval(l, *t, env, w).w);
        },
        ExprV::Field(t, _) => {
            same_eval(l, *t, env, env2, w);
        },
        ExprV::Call(f, args) => {
            same_at_parts(names_read(*f), names_read_all(args), env, env2);
            same_eval(l, *f, env, env2, w);
            same_eval_all(l, args, env, env2, eval(l, *f, env, w).w);
        },
        ExprV::MethodCall(o, _, args) => {
            same_at_parts(names_read(*o), names_read_all(args), env, env2);
            same_eval(l, *o, env, env2, w);
            same_eval_all(l, args, env, env2, eval(l, *o, env, w).w);
        },
        ExprV::Unary(_, a) => {
            same_eval(l, *a, env, env2, w);
        },
        ExprV::Binary(_, a, b) => {
            same_at_parts(names_read(*a), names_read(*b), env, env2);
            same_eval(l, *a, env, env2, w);
            same_eval(l, *b, env, env2, eval(l, *a, env, w).w);
        },
        ExprV::Table(fs) => {
            same_eval_fields(l, fs, env, env2, w);
        },
        _ => {},
    }
}

proof fn same_eval_all(l: Lang, es: Seq<ExprV>, env: Env, env2: Env, w: World)
    requires
        same_at(names_read_all(es), env, env2),
    ensures
        eval_all(l, es, env, w) == eval_all(l, es, env2, w),
    decreases es,
{
    if es.len() > 0 {
        same_at_parts(names_read_all(es.drop_last()), names_read(es.last()), env, env2);
        same_eval_all(l, es.drop_last(), env, env2, w);
        same_eval(l, es.last(), env, env2, eval_all(l, es.drop_last(), env, w).w);
    }
}

proof fn same_eval_fields(l: Lang, fs: Seq<FieldV>, env: Env, env2: Env, w: World)
    requires
        same_at(names_read_fields(fs), env, env2),
    ensures
        eval_fields(l, fs, env, w) == eval_fields(l, fs, env2, w),
    decreases fs,
{
    if fs.len() > 0 {
        same_at_parts(names_read_fields(fs.drop_last()), names_read_field(fs.last()), env, env2);
        same_eval_fields(l, fs.drop_last(), env, env2, w);
        let u = eval_fields(l, fs.drop_last(), env, w).w;
        match fs.last() {
            FieldV::Item(e) => {
                same_eval(l, e, env, env2, u);
            },
            FieldV::Named(_, e) => {
                same_eval(l, e, env, env2, u);
            },
            FieldV::Keyed(k, e) => {
                same_at_parts(names_read(k), names_read(e), env, env2);
                same_eval(l, k, env, env2, u);
                same_eval(l, e, env, env2, eval(l, k, env, u).w);
            },
        }
        assert(eval_field(l, fs.last(), env, u) == eval_field(l, fs.last(), env2, u));
    }
}

// ---- what stands between ------------------------------------------------------------------------------------

/// What passes a value writes none of the variables that the value reads.
proof fn passes_writes(s: StmtV, v: ExprV, x: Text)
    requires
        passes(s, v),
        names_read(v).contains(x),
    ensures
        deep_stmt(writes_to(x), s) == 0,
{
    let rs = crate::inline::read_set(v);
    crate::names::insert_all_members(Seq::empty(), names_read(v), x);
    let a = writes_to(x);
    let b = crate::query::writes_to_any(rs);
    assert forall|t: StmtV| #[trigger] a(t) <= b(t) by {
        if crate::query::own_writes(t).contains(x) {
            assert(crate::query::writes_one_of(t, rs));
        }
    }
    crate::weight::deep_stmt_le(a, b, s);
}

/// After statements that a value passes, the variables that it reads are as before; and if they
/// have no effect, so is the world.
proof fn passed(l: Lang, b: Block, v: ExprV, st: StateV, fuel: nat)
    requires
        passes_all(b, v),
    ensures
        same_at(names_read(v), st.env, run(l, b, st, fuel).st.env),
        reads_table(v) || !pure(v) ==> run(l, b, st, fuel).st.w == st.w,
    decreases b.len(),
{
    if b.len() > 0 {
        let front = b.drop_last();
        assert forall|k: int| 0 <= k < front.len() implies passes(#[trigger] front[k], v) by {
            assert(front[k] == b[k]);
        }
        passed(l, front, v, st, fuel);
        let r = run(l, front, st, fuel);
        assert(passes(b[b.len() - 1], v));
        let s = b.last();
        if r.out is Normal {
            let t = exec(l, s, r.st, fuel);
            assert forall|x: Text| #[trigger] names_read(v).contains(x) implies (st.env)(x) == (t.st.env)(x) by {
                passes_writes(s, v, x);
                unwritten_exec(l, s, r.st, x, fuel);
            }
            if reads_table(v) || !pure(v) {
                effectless_exec(l, s, r.st, fuel);
            }
        }
    }
}

/// A statement without effect leaves the world as it is.
proof fn effectless_exec(l: Lang, s: StmtV, st: StateV, fuel: nat)
    requires
        !effectful(s),
        !(s is If) && !(s is Loop),
    ensures
        exec(l, s, st, fuel).st.w == st.w,
{
    match s {
        StmtV::Local { names, values } => {
            pure_eval_all(l, values, st.env, st.w, st.w);
            let a = eval_all(l, values, st.env, st.w);
            names_stored(
                l,
                StateV { env: st.env, w: a.w },
                crate::meaning::name_places(names),
                a.vs,
                names.len() as int,
            );
        },
        StmtV::Assign { targets, values } => {
            assert forall|i: int| 0 <= i < targets.len() implies pure(#[trigger] targets[i]) by {
                assert(targets[i] is Var);
            }
            pure_places(l, targets, st.env, st.w);
            let p = eval_places(l, targets, st.env, st.w);
            crate::meaning::places_of_targets(l, targets, st.env, st.w);
            pure_eval_all(l, values, st.env, st.w, st.w);
            let a = eval_all(l, values, st.env, p.w);
            assert forall|i: int| 0 <= i < p.places.len() implies (#[trigger] p.places[i]) is Name by {
                assert(targets[i] is Var);
            }
            names_stored(l, StateV { env: st.env, w: a.w }, p.places, a.vs, p.places.len() as int);
        },
        StmtV::Return(es) => {
            pure_eval_all(l, es, st.env, st.w, st.w);
        },
        _ => {},
    }
}

/// Storing in variables leaves the world as it is.
proof fn names_stored(l: Lang, st: StateV, ps: Seq<crate::meaning::PlaceV>, vs: Seq<Val>, k: int)
    requires
        k <= ps.len(),
        forall|i: int| 0 <= i < ps.len() ==> (#[trigger] ps[i]) is Name,
    ensures
        stored_all(l, st, ps, vs, k).w == st.w,
    decreases k,
{
    if k > 0 {
        names_stored(l, st, ps, vs, k - 1);
        assert(ps[k - 1] is Name);
    }
}

/// Whether `s` runs the same in every world, and ends normally.
pub open spec fn worldless(s: StmtV) -> bool {
    match s {
        StmtV::Local { values, .. } => pure_all(values) && !some_reads_table(values),
        StmtV::Assign { targets, values } => pure_all(values) && !some_reads_table(values) && (forall|i: int|
            0 <= i < targets.len() ==> (#[trigger] targets[i]) is Var),
        StmtV::Comment(_) => true,
        _ => false,
    }
}

/// Statements that run the same in every world do so in any two.
proof fn worldless_run(l: Lang, b: Block, st: StateV, st2: StateV, n: Text, fuel: nat)
    requires
        forall|k: int| 0 <= k < b.len() ==> worldless(#[trigger] b[k]),
        deep(reads_of(n), b) == 0,
        forall|x: Text| x != n ==> #[trigger] (st.env)(x) == (st2.env)(x),
    ensures
        ({
            let r = run(l, b, st, fuel);
            let r2 = run(l, b, st2, fuel);
            &&& r.out is Normal && r2.out is Normal
            &&& r.st.w == st.w && r2.st.w == st2.w
            &&& forall|x: Text| x != n ==> #[trigger] (r.st.env)(x) == (r2.st.env)(x)
        }),
    decreases b.len(),
{
    if b.len() > 0 {
        let front = b.drop_last();
        assert forall|k: int| 0 <= k < front.len() implies worldless(#[trigger] front[k]) by {
            assert(front[k] == b[k]);
        }
        worldless_run(l, front, st, st2, n, fuel);
        let r = run(l, front, st, fuel);
        let r2 = run(l, front, st2, fuel);
        let s = b.last();
        assert(worldless(b[b.len() - 1]));
        let mid = StateV { env: r2.st.env, w: r.st.w };
        unread_exec(l, s, r.st, mid, n, fuel);
        match s {
            StmtV::Local { names, values } => {
                pure_eval_all(l, values, mid.env, mid.w, r2.st.w);
                effectless_exec(l, s, r.st, fuel);
                effectless_exec(l, s, r2.st, fuel);
                let a = eval_all(l, values, mid.env, mid.w);
                stored_in_worlds(
                    l,
                    mid,
                    r2.st,
                    crate::meaning::name_places(names),
                    a.vs,
                    names.len() as int,
                );
                assert(StateV { env: mid.env, w: a.w } == mid);
                let c = eval_all(l, values, r2.st.env, r2.st.w);
                assert(StateV { env: r2.st.env, w: c.w } == r2.st);
                assert(exec(l, s, mid, fuel).st.env == exec(l, s, r2.st, fuel).st.env);
            },
            StmtV::Assign { targets, values } => {
                assert forall|i: int| 0 <= i < targets.len() implies pure(#[trigger] targets[i]) by {
                    assert(targets[i] is Var);
                }
                effectless_exec(l, s, r.st, fuel);
                effectless_exec(l, s, r2.st, fuel);
                pure_places(l, targets, mid.env, mid.w);
                pure_places(l, targets, mid.env, r2.st.w);
                crate::meaning::places_of_targets(l, targets, mid.env, mid.w);
                crate::meaning::places_of_targets(l, targets, mid.env, r2.st.w);
                let p = eval_places(l, targets, mid.env, mid.w);
                let q = eval_places(l, targets, mid.env, r2.st.w);
                assert(p.places =~= q.places) by {
                    assert forall|i: int| 0 <= i < p.places.len() implies p.places[i] == q.places[i] by {
                        assert(targets[i] is Var);
                    }
                }
                pure_eval_all(l, values, mid.env, mid.w, r2.st.w);
                let a = eval_all(l, values, mid.env, mid.w);
                assert forall|i: int| 0 <= i < p.places.len() implies (#[trigger] p.places[i]) is Name by {
                    assert(targets[i] is Var);
                }
                stored_in_worlds(l, mid, r2.st, p.places, a.vs, p.places.len() as int);
                assert(StateV { env: mid.env, w: a.w } == mid);
                let c = eval_all(l, values, r2.st.env, q.w);
                assert(StateV { env: r2.st.env, w: c.w } == r2.st);
                assert(exec(l, s, mid, fuel).st.env == exec(l, s, r2.st, fuel).st.env);
            },
            _ => {},
        }
        assert(exec(l, s, mid, fuel).st.env == exec(l, s, r2.st, fuel).st.env);
        let t = exec(l, s, r.st, fuel);
        let t2 = exec(l, s, r2.st, fuel);
        assert forall|x: Text| x != n implies #[trigger] (t.st.env)(x) == (t2.st.env)(x) by {
            assert((t.st.env)(x) == (exec(l, s, mid, fuel).st.env)(x));
        }
    }
}

proof fn stored_in_worlds(l: Lang, st: StateV, st2: StateV, ps: Seq<crate::meaning::PlaceV>, vs: Seq<Val>, k: int)
    requires
        k <= ps.len(),
        forall|i: int| 0 <= i < ps.len() ==> (#[trigger] ps[i]) is Name,
        st.env == st2.env,
    ensures
        stored_all(l, st, ps, vs, k).env == stored_all(l, st2, ps, vs, k).env,
    decreases k,
{
    if k > 0 {
        stored_in_worlds(l, st, st2, ps, vs, k - 1);
        assert(ps[k - 1] is Name);
    }
}

// ---- one inlining -------------------------------------------------------------------------------------------

/// Whether the definition at `i` can be inlined without a trace: the value is no constructor of a
/// datatype, the next write of the name is an assignment to it, a value that reads a table is read
/// before anything with an effect is evaluated, and what stands between a call and its new place
/// runs the same in every world.
pub open spec fn inlinable(b: Block, i: int) -> bool {
    sole_assign(b[i]) matches Some((n, v)) && {
        let nd = next_write(b, i + 1, n);
        let j = next_read(b, i + 1, nd, n)->Some_0;
        &&& plain(n, v)
        &&& nd < b.len() ==> assigns(b[nd], n)
        &&& pure(v) && reads_table(v) ==> calm_stmt(b[j], n)
        &&& !pure(v) ==> forall|k: int| i < k < j ==> worldless(#[trigger] b[k])
    }
}

/// Running the definition of a name.
pub proof fn definition_exec(l: Lang, s: StmtV, st: StateV, fuel: nat)
    requires
        sole_assign(s) is Some,
    ensures
        exec(l, s, st, fuel).out is Normal,
        exec(l, s, st, fuel).st == bound(l, st.env, st.w, sole_assign(s)->Some_0.0, sole_assign(s)->Some_0.1),
{
    let (n, v) = sole_assign(s)->Some_0;
    let name = seq![crate::meaning::PlaceV::Name(n)];
    match s {
        StmtV::Local { names, values } => {
            one_value(l, values, st.env, st.w);
            assert(crate::meaning::name_places(names) =~= name);
            one_stored(l, StateV { env: st.env, w: eval(l, v, st.env, st.w).w }, n, eval(l, v, st.env, st.w).v);
        },
        StmtV::Assign { targets, values } => {
            one_place(l, targets, st.env, st.w);
            one_value(l, values, st.env, st.w);
            one_stored(l, StateV { env: st.env, w: eval(l, v, st.env, st.w).w }, n, eval(l, v, st.env, st.w).v);
        },
        _ => {},
    }
}

pub proof fn one_value(l: Lang, es: Seq<ExprV>, env: Env, w: World)
    requires
        es.len() == 1,
    ensures
        eval_all(l, es, env, w).vs == seq![eval(l, es[0], env, w).v],
        eval_all(l, es, env, w).w == eval(l, es[0], env, w).w,
{
    let front = es.drop_last();
    assert(front.len() == 0);
    assert(eval_all(l, front, env, w) == (EvalsV { vs: Seq::empty(), w }));
    assert(es.last() == es[0]);
    assert(eval_all(l, es, env, w).vs =~= seq![eval(l, es[0], env, w).v]);
}

proof fn one_stored(l: Lang, st: StateV, n: Text, v: Val)
    ensures
        stored_all(l, st, seq![crate::meaning::PlaceV::Name(n)], seq![v], 1) == (StateV {
            env: with_var(st.env, n, v),
            w: st.w,
        }),
{
    let ps = seq![crate::meaning::PlaceV::Name(n)];
    assert(stored_all(l, st, ps, seq![v], 0) == st);
}

proof fn shallow_within(s: StmtV, n: Text)
    ensures
        shallow_reads(s, n) <= deep_stmt(reads_of(n), s),
{
}

/// Where a statement stands in a run of a block.
proof fn run_at(l: Lang, b: Block, i: int, st: StateV, fuel: nat)
    requires
        0 <= i < b.len(),
    ensures
        run(l, b, st, fuel) == ({
            let r = run(l, b.subrange(0, i), st, fuel);
            if r.out is Normal {
                let t = exec(l, b[i], r.st, fuel);
                if t.out is Normal {
                    run(l, b.subrange(i + 1, b.len() as int), t.st, fuel)
                } else {
                    t
                }
            } else {
                r
            }
        }),
{
    let head = b.subrange(0, i);
    let tail = b.subrange(i + 1, b.len() as int);
    assert(b =~= head + (seq![b[i]] + tail));
    run_concat(l, head, seq![b[i]] + tail, st, fuel);
    let r = run(l, head, st, fuel);
    if r.out is Normal {
        run_concat(l, seq![b[i]], tail, r.st, fuel);
        run_one(l, b[i], r.st, fuel);
    }
}

/// From where a name is not read before it is assigned, its value does not matter.
proof fn unneeded_run(l: Lang, b: Block, nd: int, st: StateV, st2: StateV, n: Text, fuel: nat)
    requires
        alike(n, st, st2),
        0 <= nd <= b.len(),
        deep(reads_of(n), b.subrange(0, nd)) == 0,
        nd < b.len() ==> assigns(b[nd], n) && deep_stmt(reads_of(n), b[nd]) == 0,
    ensures
        same_run(n, run(l, b, st, fuel), run(l, b, st2, fuel)),
{
    unread_run(l, b.subrange(0, nd), st, st2, n, fuel);
    if nd < b.len() {
        run_at(l, b, nd, st, fuel);
        run_at(l, b, nd, st2, fuel);
        let r = run(l, b.subrange(0, nd), st, fuel);
        let r2 = run(l, b.subrange(0, nd), st2, fuel);
        if r.out is Normal {
            unread_exec(l, b[nd], r.st, r2.st, n, fuel);
            let t = exec(l, b[nd], r.st, fuel);
            let t2 = exec(l, b[nd], r2.st, fuel);
            assert(t.st.env =~= t2.st.env);
        }
    } else {
        assert(b.subrange(0, nd) =~= b);
    }
}

/// The one read of `n` between its definition and its next write stands at `j`.
proof fn only_read(b: Block, i: int, nd: int, j: int, n: Text)
    requires
        0 <= i < j < nd <= b.len(),
        deep(reads_of(n), b.subrange(i + 1, nd)) == 1,
        deep_stmt(reads_of(n), b[j]) > 0,
    ensures
        deep_stmt(reads_of(n), b[j]) == 1,
        deep(reads_of(n), b.subrange(i + 1, j)) == 0,
        deep(reads_of(n), b.subrange(j + 1, nd)) == 0,
{
    let w = reads_of(n);
    crate::weight::deep_range(w, b, i + 1, j, nd);
    crate::weight::deep_range(w, b, j, j + 1, nd);
    crate::weight::deep_range_one(w, b, j);
}

proof fn unwritten_between(b: Block, i: int, nd: int, n: Text)
    requires
        0 <= i <= nd <= b.len(),
        forall|k: int| i <= k < nd ==> !stmt_writes(#[trigger] b[k], n),
    ensures
        deep(writes_to(n), b.subrange(i, nd)) == 0,
    decreases nd - i,
{
    let r = b.subrange(i, nd);
    if i < nd {
        unwritten_between(b, i, nd - 1, n);
        assert(r.drop_last() =~= b.subrange(i, nd - 1));
        assert(r.last() == b[nd - 1]);
        assert(!stmt_writes(b[nd - 1], n));
    }
}

/// One step of inlining changes nothing that a run of the block does: it ends the same way, makes
/// the same calls with the same values, writes the same to tables and returns the same, and leaves
/// the same in every variable but the one that was inlined.
pub proof fn inlining_keeps_runs(l: Lang, b: Block, i: int, protected: Seq<Text>, st: StateV, fuel: nat)
    requires
        0 <= i < b.len(),
        inlinable(b, i),
    ensures
        inlined_at(b, i, protected) matches Some(c) ==> same_run(
            sole_assign(b[i])->Some_0.0,
            run(l, c, st, fuel),
            run(l, b, st, fuel),
        ),
{
    if let Some(c) = inlined_at(b, i, protected) {
        let (n, v) = sole_assign(b[i])->Some_0;
        let nd = next_write(b, i + 1, n);
        next_write_bounds(b, i + 1, n);
        next_read_bounds(b, i + 1, nd, n);
        let j = next_read(b, i + 1, nd, n)->Some_0;
        let s = stmt_replaced(b[j], n, v);
        let d = b.update(j, s);
        shallow_within(b[j], n);
        unwritten_between(b, i + 1, j, n);
        let head = b.subrange(0, i);
        let rest = b.subrange(i + 1, b.len() as int);
        let rest2 = d.subrange(i + 1, b.len() as int);
        let between = b.subrange(i + 1, j);
        run_at(l, b, i, st, fuel);
        let r = run(l, head, st, fuel);
        if read_once(b, i, nd, n) {
            only_read(b, i, nd, j, n);
            assert(c =~= head + rest2);
            run_concat(l, head, rest2, st, fuel);
            if r.out is Normal {
                definition_exec(l, b[i], r.st, fuel);
                removed_runs(l, b, i, j, nd, n, v, r.st, fuel);
            }
        } else {
            run_at(l, d, i, st, fuel);
            assert(d.subrange(0, i) =~= head);
            if r.out is Normal {
                definition_exec(l, b[i], r.st, fuel);
                copied_runs(l, b, i, j, nd, n, v, exec(l, b[i], r.st, fuel).st, fuel);
            }
        }
    }
}

/// The rest of the block runs the same without the definition.
proof fn removed_runs(l: Lang, b: Block, i: int, j: int, nd: int, n: Text, v: ExprV, st: StateV, fuel: nat)
    requires
        0 <= i < j < nd <= b.len(),
        plain(n, v),
        shallow_reads(b[j], n) > 0,
        deep_stmt(reads_of(n), b[j]) == 1,
        deep(reads_of(n), b.subrange(i + 1, j)) == 0,
        deep(reads_of(n), b.subrange(j + 1, nd)) == 0,
        deep(writes_to(n), b.subrange(i + 1, j)) == 0,
        nd < b.len() ==> assigns(b[nd], n) && deep_stmt(reads_of(n), b[nd]) == 0,
        passes_all(b.subrange(i + 1, j), v),
        pure(v) || stmt_head(b[j]) == Some(n),
        !reads_in_targets(b[j], n),
        pure(v) && reads_table(v) ==> calm_stmt(b[j], n),
        !pure(v) ==> forall|k: int| i < k < j ==> worldless(#[trigger] b[k]),
    ensures
        same_run(
            n,
            run(l, b.update(j, stmt_replaced(b[j], n, v)).subrange(i + 1, b.len() as int), st, fuel),
            run(l, b.subrange(i + 1, b.len() as int), bound(l, st.env, st.w, n, v), fuel),
        ),
{
    let d = b.update(j, stmt_replaced(b[j], n, v));
    let rest = b.subrange(i + 1, b.len() as int);
    let rest2 = d.subrange(i + 1, b.len() as int);
    let k = j - i - 1;
    let between = b.subrange(i + 1, j);
    let tail = b.subrange(j + 1, b.len() as int);
    let st1 = bound(l, st.env, st.w, n, v);
    assert(rest.subrange(0, k) =~= between);
    assert(rest2.subrange(0, k) =~= between);
    assert(rest.subrange(k + 1, rest.len() as int) =~= tail);
    assert(rest2.subrange(k + 1, rest2.len() as int) =~= tail);
    run_at(l, rest, k, st1, fuel);
    run_at(l, rest2, k, st, fuel);
    let r = run(l, between, st, fuel);
    let r1 = run(l, between, st1, fuel);
    assert forall|x: Text| x != n implies #[trigger] (st.env)(x) == (st1.env)(x) by {}
    if pure(v) {
        pure_eval(l, v, st.env, st.w, st.w);
        unread_run(l, between, st, st1, n, fuel);
    } else {
        assert forall|x: int| 0 <= x < between.len() implies worldless(#[trigger] between[x]) by {
            assert(worldless(b[i + 1 + x]));
        }
        worldless_run(l, between, st, st1, n, fuel);
    }
    if r.out is Normal {
        passed(l, between, v, st, fuel);
        unwritten_run(l, between, st1, n, fuel);
        same_eval(l, v, st.env, r.st.env, st.w);
        if pure(v) && !reads_table(v) {
            pure_eval(l, v, r.st.env, st.w, r.st.w);
            pure_eval(l, v, r.st.env, r.st.w, st.w);
        } else if pure(v) {
            pure_eval(l, v, r.st.env, r.st.w, r.st.w);
        }
        let b2 = bound(l, r.st.env, r.st.w, n, v);
        assert(b2.env =~= r1.st.env);
        assert(b2.w == r1.st.w);
        assert(b2 == r1.st);
        replaced_exec(l, b[j], n, v, r.st, fuel);
        let t = exec(l, stmt_replaced(b[j], n, v), r.st, fuel);
        let t1 = exec(l, b[j], r1.st, fuel);
        if t.out is Normal {
            assert(tail.subrange(0, nd - j - 1) =~= b.subrange(j + 1, nd));
            if nd < b.len() {
                assert(tail[nd - j - 1] == b[nd]);
            }
            unneeded_run(l, tail, nd - j - 1, t.st, t1.st, n, fuel);
        }
    }
}

/// The rest of the block runs the same where the definition stays.
proof fn copied_runs(l: Lang, b: Block, i: int, j: int, nd: int, n: Text, v: ExprV, st1: StateV, fuel: nat)
    requires
        0 <= i < j < nd <= b.len(),
        plain(n, v),
        leaf(v),
        expr_reads(v, n) == 0,
        shallow_reads(b[j], n) == 1,
        deep_stmt(reads_of(n), b[j]) == 1,
        deep(writes_to(n), b.subrange(i + 1, j)) == 0,
        !stmt_writes(b[j], n),
        passes_all(b.subrange(i + 1, j), v),
        !reads_in_targets(b[j], n),
        (st1.env)(n) == eval(l, v, st1.env, st1.w).v,
    ensures
        same_run(
            n,
            run(l, b.update(j, stmt_replaced(b[j], n, v)).subrange(i + 1, b.len() as int), st1, fuel),
            run(l, b.subrange(i + 1, b.len() as int), st1, fuel),
        ),
{
    let s = stmt_replaced(b[j], n, v);
    let d = b.update(j, s);
    let rest = b.subrange(i + 1, b.len() as int);
    let rest2 = d.subrange(i + 1, b.len() as int);
    let k = j - i - 1;
    let between = b.subrange(i + 1, j);
    let tail = b.subrange(j + 1, b.len() as int);
    assert(rest.subrange(0, k) =~= between);
    assert(rest2.subrange(0, k) =~= between);
    assert(rest.subrange(k + 1, rest.len() as int) =~= tail);
    assert(rest2.subrange(k + 1, rest2.len() as int) =~= tail);
    run_at(l, rest, k, st1, fuel);
    run_at(l, rest2, k, st1, fuel);
    let r = run(l, between, st1, fuel);
    if r.out is Normal {
        passed(l, between, v, st1, fuel);
        unwritten_run(l, between, st1, n, fuel);
        same_eval(l, v, st1.env, r.st.env, st1.w);
        assert(pure(v) && !reads_table(v));
        pure_eval(l, v, r.st.env, st1.w, r.st.w);
        pure_eval(l, v, r.st.env, r.st.w, st1.w);
        let b2 = bound(l, r.st.env, r.st.w, n, v);
        assert(b2.env =~= r.st.env);
        assert(b2 == r.st);
        replaced_exec(l, b[j], n, v, r.st, fuel);
        let t = exec(l, s, r.st, fuel);
        let t1 = exec(l, b[j], r.st, fuel);
        crate::inline::stmt_replaced_writes(b[j], n, v, n);
        unwritten_exec(l, b[j], r.st, n, fuel);
        unwritten_exec(l, s, r.st, n, fuel);
        assert(t.st.env =~= t1.st.env);
    }
}

} // verus!
