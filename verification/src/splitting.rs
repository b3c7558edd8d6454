//! Splitting a register keeps what a run of the block does.
use vstd::prelude::*;

use crate::ast::{Block, ExprV, FieldV, LoopHead, StmtV};
use crate::markers::assigns;
use crate::meaning::{
    eval, eval_all, eval_field, eval_fields, eval_place, eval_places, exec, name_places, places_of_targets, run,
    stored, stored_all, target_named, unread_exec, value_at, with_var, Env, Lang, PlaceV, StateV, Val, World,
};
use crate::naming::{builds_value, datatype};
use crate::query::{
    expr_reads, exprs_reads, field_reads, fields_reads, own_reads, own_writes, reads_of, targets_reads, writes_to,
};
use crate::split::{
    renamed, renamed_all, renamed_field, renamed_fields, renamed_names, renamed_stmt, renamed_target, version,
    version_name, versioned,
};
use crate::text::Text;
use crate::weight::{deep, deep_stmt};

verus! {

// ---- states that differ in some variables -------------------------------------------------------------------

/// Whether two states differ in the variables `names` at most.
pub open spec fn alike_but(names: Seq<Text>, st: StateV, st2: StateV) -> bool {
    st.w == st2.w && forall|x: Text| !names.contains(x) ==> #[trigger] (st.env)(x) == (st2.env)(x)
}

/// Whether `s` reads none of `names`.
pub open spec fn reads_no(s: StmtV, names: Seq<Text>) -> bool {
    forall|i: int| 0 <= i < names.len() ==> deep_stmt(reads_of(#[trigger] names[i]), s) == 0
}

/// A statement that reads none of some variables runs the same whatever they are.
pub proof fn unread_by(l: Lang, s: StmtV, st: StateV, st2: StateV, names: Seq<Text>, fuel: nat)
    requires
        alike_but(names, st, st2),
        reads_no(s, names),
    ensures
        exec(l, s, st, fuel).out == exec(l, s, st2, fuel).out,
        alike_but(names, exec(l, s, st, fuel).st, exec(l, s, st2, fuel).st),
    decreases names.len(),
{
    if names.len() == 0 {
        assert(st.env =~= st2.env) by {
            assert forall|x: Text| #[trigger] (st.env)(x) == (st2.env)(x) by {
                assert(!names.contains(x));
            }
        }
        assert(st == st2);
    } else {
        let n = names.last();
        let front = names.drop_last();
        let mid = StateV { env: with_var(st.env, n, (st2.env)(n)), w: st.w };
        assert(deep_stmt(reads_of(names[names.len() - 1]), s) == 0);
        unread_exec(l, s, st, mid, n, fuel);
        assert forall|x: Text| !front.contains(x) implies #[trigger] (mid.env)(x) == (st2.env)(x) by {
            if x != n {
                if names.contains(x) {
                    let i = choose|i: int| 0 <= i < names.len() && names[i] == x;
                    assert(front[i] == x);
                }
                assert((st.env)(x) == (st2.env)(x));
            }
        }
        assert forall|i: int| 0 <= i < front.len() implies deep_stmt(reads_of(#[trigger] front[i]), s) == 0 by {
            assert(front[i] == names[i]);
        }
        unread_by(l, s, mid, st2, front, fuel);
        let a = exec(l, s, st, fuel).st;
        let b = exec(l, s, mid, fuel).st;
        let c = exec(l, s, st2, fuel).st;
        assert forall|x: Text| !names.contains(x) implies #[trigger] (a.env)(x) == (c.env)(x) by {
            assert(names[names.len() - 1] == n);
            if front.contains(x) {
                let i = choose|i: int| 0 <= i < front.len() && front[i] == x;
                assert(names[i] == x);
            }
            assert((a.env)(x) == (b.env)(x));
        }
    }
}

// ---- renaming a variable --------------------------------------------------------------------------------------

/// Whether `n` and `m` are names of variables, neither paths nor datatypes.
pub open spec fn plain_names(n: Text, m: Text) -> bool {
    !n.contains('.') && !m.contains('.') && !datatype(n) && !datatype(m)
}

/// Whether `env2` has under `m` what `env` has under `n`, and the rest is the same but for `names`.
pub open spec fn moved(names: Seq<Text>, n: Text, m: Text, env: Env, env2: Env) -> bool {
    &&& env2(m) == env(n)
    &&& forall|x: Text| !names.contains(x) ==> #[trigger] env(x) == env2(x)
}

/// Whether `e` reads none of `names` but `n`.
pub open spec fn reads_only(e: ExprV, names: Seq<Text>, n: Text) -> bool {
    forall|x: Text| names.contains(x) && x != n ==> #[trigger] expr_reads(e, x) == 0
}

pub open spec fn all_read_only(es: Seq<ExprV>, names: Seq<Text>, n: Text) -> bool {
    forall|x: Text| names.contains(x) && x != n ==> #[trigger] exprs_reads(es, x) == 0
}

pub open spec fn fields_read_only(fs: Seq<FieldV>, names: Seq<Text>, n: Text) -> bool {
    forall|x: Text| names.contains(x) && x != n ==> #[trigger] fields_reads(fs, x) == 0
}

proof fn renamed_keeps_builder(f: ExprV, n: Text, m: Text)
    requires
        plain_names(n, m),
    ensures
        builds_value(renamed(f, n, m)) == builds_value(f),
{
    crate::order::dotless_path(n, 0);
    crate::order::dotless_path(m, 0);
    match f {
        ExprV::Field(t, c) => {
            assert(renamed(f, n, m) == ExprV::Field(Box::new(renamed(*t, n, m)), c));
            if let ExprV::Var(x) = *t {
            } else {
                assert(!(renamed(*t, n, m) is Var));
            }
        },
        _ => {},
    }
}

/// A renamed expression has the value of the expression, where the new name has the value of the
/// old one.
proof fn renamed_eval(l: Lang, e: ExprV, n: Text, m: Text, names: Seq<Text>, env: Env, env2: Env, w: World)
    requires
        plain_names(n, m),
        moved(names, n, m, env, env2),
        reads_only(e, names, n),
    ensures
        eval(l, renamed(e, n, m), env2, w) == eval(l, e, env, w),
    decreases e,
{
    match e {
        ExprV::Var(x) => {
            if x != n && !x.contains('.') {
                assert(expr_reads(e, x) == 1);
                assert(!names.contains(x));
                assert(env(x) == env2(x));
            }
        },
        ExprV::Index(t, k) => {
            assert forall|x: Text| names.contains(x) && x != n implies #[trigger] expr_reads(*t, x) == 0 by {
                assert(expr_reads(e, x) == 0);
            }
            assert forall|x: Text| names.contains(x) && x != n implies #[trigger] expr_reads(*k, x) == 0 by {
                assert(expr_reads(e, x) == 0);
            }
            renamed_eval(l, *t, n, m, names, env, env2, w);
            renamed_eval(l, *k, n, m, names, env, env2, eval(l, *t, env, w).w);
        },
        ExprV::Field(t, _) => {
            assert forall|x: Text| names.contains(x) && x != n implies #[trigger] expr_reads(*t, x) == 0 by {
                assert(expr_reads(e, x) == 0);
            }
            renamed_eval(l, *t, n, m, names, env, env2, w);
        },
        ExprV::Call(f, args) => {
            assert forall|x: Text| names.contains(x) && x != n implies #[trigger] expr_reads(*f, x) == 0 by {
                assert(expr_reads(e, x) == 0);
            }
            assert forall|x: Text| names.contains(x) && x != n implies #[trigger] exprs_reads(args, x) == 0 by {
                assert(expr_reads(e, x) == 0);
            }
            renamed_keeps_builder(*f, n, m);
            renamed_eval(l, *f, n, m, names, env, env2, w);
            renamed_eval_all(l, args, n, m, names, env, env2, eval(l, *f, env, w).w);
        },
        ExprV::MethodCall(o, _, args) => {
            assert forall|x: Text| names.contains(x) && x != n implies #[trigger] expr_reads(*o, x) == 0 by {
                assert(expr_reads(e, x) == 0);
            }
            assert forall|x: Text| names.contains(x) && x != n implies #[trigger] exprs_reads(args, x) == 0 by {
                assert(expr_reads(e, x) == 0);
            }
            renamed_eval(l, *o, n, m, names, env, env2, w);
            renamed_eval_all(l, args, n, m, names, env, env2, eval(l, *o, env, w).w);
        },
        ExprV::Unary(_, a) => {
            assert forall|x: Text| names.contains(x) && x != n implies #[trigger] expr_reads(*a, x) == 0 by {
                assert(expr_reads(e, x) == 0);
            }
            renamed_eval(l, *a, n, m, names, env, env2, w);
        },
        ExprV::Binary(_, a, b) => {
            assert forall|x: Text| names.contains(x) && x != n implies #[trigger] expr_reads(*a, x) == 0 by {
                assert(expr_reads(e, x) == 0);
            }
            assert forall|x: Text| names.contains(x) && x != n implies #[trigger] expr_reads(*b, x) == 0 by {
                assert(expr_reads(e, x) == 0);
            }
            renamed_eval(l, *a, n, m, names, env, env2, w);
            renamed_eval(l, *b, n, m, names, env, env2, eval(l, *a, env, w).w);
        },
        ExprV::Table(fs) => {
            assert forall|x: Text| names.contains(x) && x != n implies #[trigger] fields_reads(fs, x) == 0 by {
                assert(expr_reads(e, x) == 0);
            }
            renamed_eval_fields(l, fs, n, m, names, env, env2, w);
        },
        _ => {},
    }
}

proof fn renamed_eval_all(
    l: Lang,
    es: Seq<ExprV>,
    n: Text,
    m: Text,
    names: Seq<Text>,
    env: Env,
    env2: Env,
    w: World,
)
    requires
        plain_names(n, m),
        moved(names, n, m, env, env2),
        all_read_only(es, names, n),
    ensures
        eval_all(l, renamed_all(es, n, m), env2, w) == eval_all(l, es, env, w),
    decreases es,
{
    if es.len() > 0 {
        let front = es.drop_last();
        let r = renamed_all(es, n, m);
        assert forall|x: Text| names.contains(x) && x != n implies #[trigger] exprs_reads(front, x) == 0 by {
            assert(exprs_reads(es, x) == 0);
        }
        assert forall|x: Text| names.contains(x) && x != n implies #[trigger] expr_reads(es.last(), x) == 0 by {
            assert(exprs_reads(es, x) == 0);
        }
        renamed_eval_all(l, front, n, m, names, env, env2, w);
        renamed_eval(l, es.last(), n, m, names, env, env2, eval_all(l, front, env, w).w);
        assert(r.drop_last() =~= renamed_all(front, n, m));
        assert(r.last() == renamed(es.last(), n, m));
    }
}

proof fn renamed_eval_fields(
    l: Lang,
    fs: Seq<FieldV>,
    n: Text,
    m: Text,
    names: Seq<Text>,
    env: Env,
    env2: Env,
    w: World,
)
    requires
        plain_names(n, m),
        moved(names, n, m, env, env2),
        fields_read_only(fs, names, n),
    ensures
        eval_fields(l, renamed_fields(fs, n, m), env2, w) == eval_fields(l, fs, env, w),
    decreases fs,
{
    if fs.len() > 0 {
        let front = fs.drop_last();
        let r = renamed_fields(fs, n, m);
        let f = fs.last();
        assert forall|x: Text| names.contains(x) && x != n implies #[trigger] fields_reads(front, x) == 0 by {
            assert(fields_reads(fs, x) == 0);
        }
        assert forall|x: Text| names.contains(x) && x != n implies #[trigger] field_reads(f, x) == 0 by {
            assert(fields_reads(fs, x) == 0);
        }
        renamed_eval_fields(l, front, n, m, names, env, env2, w);
        let u = eval_fields(l, front, env, w).w;
        match f {
            FieldV::Item(e) => {
                assert forall|x: Text| names.contains(x) && x != n implies #[trigger] expr_reads(e, x) == 0 by {
                    assert(field_reads(f, x) == 0);
                }
                renamed_eval(l, e, n, m, names, env, env2, u);
            },
            FieldV::Named(_, e) => {
                assert forall|x: Text| names.contains(x) && x != n implies #[trigger] expr_reads(e, x) == 0 by {
                    assert(field_reads(f, x) == 0);
                }
                renamed_eval(l, e, n, m, names, env, env2, u);
            },
            FieldV::Keyed(k, e) => {
                assert forall|x: Text| names.contains(x) && x != n implies #[trigger] expr_reads(e, x) == 0 by {
                    assert(field_reads(f, x) == 0);
                }
                assert forall|x: Text| names.contains(x) && x != n implies #[trigger] expr_reads(k, x) == 0 by {
                    assert(field_reads(f, x) == 0);
                }
                renamed_eval(l, k, n, m, names, env, env2, u);
                renamed_eval(l, e, n, m, names, env, env2, eval(l, k, env, u).w);
            },
        }
        assert(r.drop_last() =~= renamed_fields(front, n, m));
        assert(r.last() == renamed_field(f, n, m));
        assert(eval_field(l, r.last(), env2, u) == eval_field(l, f, env, u));
    }
}

/// Renaming a variable that is not read changes nothing.
proof fn renamed_unread(e: ExprV, n: Text, m: Text)
    requires
        expr_reads(e, n) == 0,
        !n.contains('.'),
    ensures
        renamed(e, n, m) == e,
    decreases e,
{
    match e {
        ExprV::Index(t, k) => {
            renamed_unread(*t, n, m);
            renamed_unread(*k, n, m);
        },
        ExprV::Field(t, _) => {
            renamed_unread(*t, n, m);
        },
        ExprV::Call(f, args) => {
            renamed_unread(*f, n, m);
            assert(args.take(args.len() as int) =~= args);
            renamed_unread_all(args, n, m, args.len() as int);
            assert(renamed_all(args, n, m) =~= args);
        },
        ExprV::MethodCall(o, _, args) => {
            renamed_unread(*o, n, m);
            assert(args.take(args.len() as int) =~= args);
            renamed_unread_all(args, n, m, args.len() as int);
            assert(renamed_all(args, n, m) =~= args);
        },
        ExprV::Unary(_, a) => {
            renamed_unread(*a, n, m);
        },
        ExprV::Binary(_, a, b) => {
            renamed_unread(*a, n, m);
            renamed_unread(*b, n, m);
        },
        ExprV::Table(fs) => {
            assert(fs.take(fs.len() as int) =~= fs);
            renamed_unread_fields(fs, n, m, fs.len() as int);
            assert(renamed_fields(fs, n, m) =~= fs);
        },
        _ => {},
    }
}

proof fn renamed_unread_all(es: Seq<ExprV>, n: Text, m: Text, k: int)
    requires
        0 <= k <= es.len(),
        exprs_reads(es.take(k), n) == 0,
        !n.contains('.'),
    ensures
        forall|i: int| 0 <= i < k ==> renamed(#[trigger] es[i], n, m) == es[i],
    decreases es, k,
{
    if k > 0 {
        let t = es.take(k);
        assert(t.drop_last() =~= es.take(k - 1));
        assert(t.last() == es[k - 1]);
        renamed_unread_all(es, n, m, k - 1);
        renamed_unread(es[k - 1], n, m);
    }
}

proof fn renamed_unread_fields(fs: Seq<FieldV>, n: Text, m: Text, k: int)
    requires
        0 <= k <= fs.len(),
        fields_reads(fs.take(k), n) == 0,
        !n.contains('.'),
    ensures
        forall|i: int| 0 <= i < k ==> renamed_field(#[trigger] fs[i], n, m) == fs[i],
    decreases fs, k,
{
    if k > 0 {
        let t = fs.take(k);
        assert(t.drop_last() =~= fs.take(k - 1));
        assert(t.last() == fs[k - 1]);
        renamed_unread_fields(fs, n, m, k - 1);
        assert(field_reads(fs[k - 1], n) == 0);
        match fs[k - 1] {
            FieldV::Item(e) => {
                renamed_unread(e, n, m);
            },
            FieldV::Named(_, e) => {
                renamed_unread(e, n, m);
            },
            FieldV::Keyed(a, e) => {
                renamed_unread(a, n, m);
                renamed_unread(e, n, m);
            },
        }
    }
}

// ---- assignments ------------------------------------------------------------------------------------------------

/// The place that `p` becomes when the variable `n` is called `q`.
pub open spec fn renamed_place(p: PlaceV, n: Text, q: Text) -> PlaceV {
    if p == PlaceV::Name(n) {
        PlaceV::Name(q)
    } else {
        p
    }
}

pub open spec fn renamed_places(ps: Seq<PlaceV>, n: Text, q: Text) -> Seq<PlaceV> {
    Seq::new(ps.len(), |i: int| renamed_place(ps[i], n, q))
}

proof fn renamed_eval_places(
    l: Lang,
    ts: Seq<ExprV>,
    n: Text,
    r: Text,
    q: Text,
    names: Seq<Text>,
    env: Env,
    env2: Env,
    w: World,
)
    requires
        plain_names(n, r),
        moved(names, n, r, env, env2),
        forall|x: Text| names.contains(x) && x != n ==> #[trigger] targets_reads(ts, x) == 0,
    ensures
        ({
            let ts2 = Seq::new(ts.len(), |i: int| renamed_target(ts[i], n, r, q));
            let a = eval_places(l, ts, env, w);
            let b = eval_places(l, ts2, env2, w);
            b.w == a.w && b.places == renamed_places(a.places, n, q)
        }),
    decreases ts.len(),
{
    let ts2 = Seq::new(ts.len(), |i: int| renamed_target(ts[i], n, r, q));
    if ts.len() > 0 {
        let front = ts.drop_last();
        let t = ts.last();
        assert forall|x: Text| names.contains(x) && x != n implies #[trigger] targets_reads(front, x) == 0 by {
            assert(targets_reads(ts, x) == 0);
        }
        renamed_eval_places(l, front, n, r, q, names, env, env2, w);
        assert(ts2.drop_last() =~= Seq::new(front.len(), |i: int| renamed_target(front[i], n, r, q)));
        assert(ts2.last() == renamed_target(t, n, r, q));
        let u = eval_places(l, front, env, w).w;
        if !(t is Var) {
            assert forall|x: Text| names.contains(x) && x != n implies #[trigger] expr_reads(t, x) == 0 by {
                assert(targets_reads(ts, x) == 0);
            }
        }
        match t {
            ExprV::Var(_) => {},
            ExprV::Field(x, _) => {
                assert forall|y: Text| names.contains(y) && y != n implies #[trigger] expr_reads(*x, y) == 0 by {
                    assert(expr_reads(t, y) == 0);
                }
                renamed_eval(l, *x, n, r, names, env, env2, u);
            },
            ExprV::Index(x, k) => {
                assert forall|y: Text| names.contains(y) && y != n implies #[trigger] expr_reads(*x, y) == 0 by {
                    assert(expr_reads(t, y) == 0);
                }
                assert forall|y: Text| names.contains(y) && y != n implies #[trigger] expr_reads(*k, y) == 0 by {
                    assert(expr_reads(t, y) == 0);
                }
                renamed_eval(l, *x, n, r, names, env, env2, u);
                renamed_eval(l, *k, n, r, names, env, env2, eval(l, *x, env, u).w);
            },
            _ => {
                renamed_eval(l, t, n, r, names, env, env2, u);
            },
        }
        let a = eval_places(l, ts, env, w);
        let b = eval_places(l, ts2, env2, w);
        assert(eval_place(l, ts2.last(), env2, u).0 == renamed_place(eval_place(l, t, env, u).0, n, q));
        assert(b.places =~= renamed_places(a.places, n, q));
    } else {
        assert(eval_places(l, ts2, env2, w).places =~= renamed_places(eval_places(l, ts, env, w).places, n, q));
    }
}

/// Whether `n` is among the first `k` places.
pub open spec fn named(ps: Seq<PlaceV>, k: int, n: Text) -> bool {
    crate::meaning::places_name(ps, k, n)
}

proof fn stored_moved(
    l: Lang,
    st: StateV,
    st2: StateV,
    ps: Seq<PlaceV>,
    vs: Seq<Val>,
    k: int,
    n: Text,
    r: Text,
    q: Text,
    names: Seq<Text>,
)
    requires
        0 <= k <= ps.len(),
        st.w == st2.w,
        moved(names, n, r, st.env, st2.env),
        names.contains(n) && names.contains(r) && names.contains(q),
        forall|i: int|
            0 <= i < ps.len() ==> ((#[trigger] ps[i]) matches PlaceV::Name(x) && names.contains(x) ==> ps[i]
                == PlaceV::Name(n)),
    ensures
        ({
            let a = stored_all(l, st, ps, vs, k);
            let b = stored_all(l, st2, renamed_places(ps, n, q), vs, k);
            &&& a.w == b.w
            &&& forall|x: Text| !names.contains(x) ==> #[trigger] (a.env)(x) == (b.env)(x)
            &&& (b.env)(if named(ps, k, n) { q } else { r }) == (a.env)(n)
        }),
    decreases k,
{
    if k > 0 {
        stored_moved(l, st, st2, ps, vs, k - 1, n, r, q, names);
        let ps2 = renamed_places(ps, n, q);
        let a = stored_all(l, st, ps, vs, k - 1);
        let b = stored_all(l, st2, ps2, vs, k - 1);
        let v = value_at(l, vs, k - 1, ps.len() as int);
        let p = ps[k - 1];
        let a2 = stored(l, a, p, v);
        let b2 = stored(l, b, ps2[k - 1], v);
        assert(stored_all(l, st, ps, vs, k) == a2);
        assert(stored_all(l, st2, ps2, vs, k) == b2);
        if p == PlaceV::Name(n) {
            assert(named(ps, k, n));
        } else {
            assert(named(ps, k, n) == named(ps, k - 1, n)) by {
                if named(ps, k, n) {
                    let i = choose|i: int| 0 <= i < k && #[trigger] ps[i] == PlaceV::Name(n);
                    assert(0 <= i < k - 1);
                }
                if named(ps, k - 1, n) {
                    let i = choose|i: int| 0 <= i < k - 1 && #[trigger] ps[i] == PlaceV::Name(n);
                    assert(ps[i] == PlaceV::Name(n));
                }
            }
            if let PlaceV::Name(x) = p {
                assert(!names.contains(x));
            }
        }
        assert forall|x: Text| !names.contains(x) implies #[trigger] (a2.env)(x) == (b2.env)(x) by {
            assert((a.env)(x) == (b.env)(x));
        }
    } else {
        assert(!named(ps, 0, n));
    }
}

// ---- statements -------------------------------------------------------------------------------------------------

/// Whether `s` mentions `n` in no statement inside it and in no loop, and no other of `names` at
/// all.
pub open spec fn outside_only(s: StmtV, n: Text, names: Seq<Text>) -> bool {
    &&& forall|x: Text|
        names.contains(x) && x != n ==> #[trigger] deep_stmt(reads_of(x), s) == 0 && deep_stmt(writes_to(x), s) == 0
    &&& s matches StmtV::If { then_body, else_body, .. } ==> deep(reads_of(n), then_body) == 0 && deep(
        reads_of(n),
        else_body,
    ) == 0 && deep(writes_to(n), then_body) == 0 && deep(writes_to(n), else_body) == 0
    &&& s is Loop ==> deep_stmt(reads_of(n), s) == 0 && deep_stmt(writes_to(n), s) == 0
}

/// A statement in which `n` is called `r` where it is read, and `q` where it is assigned, does what
/// the statement does.
proof fn split_exec(
    l: Lang,
    s: StmtV,
    n: Text,
    r: Text,
    q: Text,
    names: Seq<Text>,
    st: StateV,
    st2: StateV,
    fuel: nat,
)
    requires
        plain_names(n, r),
        st.w == st2.w,
        moved(names, n, r, st.env, st2.env),
        names.contains(n) && names.contains(r) && names.contains(q),
        r != n,
        outside_only(s, n, names),
        assigns(s, n) || q == r,
    ensures
        ({
            let a = exec(l, s, st, fuel);
            let b = exec(l, renamed_stmt(s, n, r, q), st2, fuel);
            a.out == b.out && a.st.w == b.st.w && moved(names, n, q, a.st.env, b.st.env)
        }),
{
    assert forall|x: Text| names.contains(x) && x != n implies own_reads(s, x) == 0 && !(#[trigger] own_writes(
        s,
    ).contains(x)) by {
        assert(deep_stmt(reads_of(x), s) == 0);
        assert(deep_stmt(writes_to(x), s) == 0);
    }
    match s {
        StmtV::Local { names: ns, values } => {
            assert forall|x: Text| names.contains(x) && x != n implies #[trigger] exprs_reads(values, x) == 0 by {
                assert(!own_writes(s).contains(x));
            }
            renamed_eval_all(l, values, n, r, names, st.env, st2.env, st.w);
            let a = eval_all(l, values, st.env, st.w);
            let ps = name_places(ns);
            assert(name_places(renamed_names(ns, n, q)) =~= renamed_places(ps, n, q));
            assert forall|i: int| 0 <= i < ps.len() implies ((#[trigger] ps[i]) matches PlaceV::Name(x)
                && names.contains(x) ==> ps[i] == PlaceV::Name(n)) by {
                assert(ns.contains(ns[i]));
                assert(own_writes(s).contains(ns[i]));
            }
            stored_moved(
                l,
                StateV { env: st.env, w: a.w },
                StateV { env: st2.env, w: a.w },
                ps,
                a.vs,
                ns.len() as int,
                n,
                r,
                q,
                names,
            );
            if assigns(s, n) {
                let i = choose|i: int| 0 <= i < ns.len() && ns[i] == n;
                assert(ps[i] == PlaceV::Name(n));
                assert(named(ps, ns.len() as int, n));
            }
        },
        StmtV::Assign { targets, values } => {
            assert forall|x: Text| names.contains(x) && x != n implies #[trigger] exprs_reads(values, x) == 0 by {
                assert(!own_writes(s).contains(x));
            }
            assert forall|x: Text| names.contains(x) && x != n implies #[trigger] targets_reads(targets, x) == 0 by {
                assert(!own_writes(s).contains(x));
            }
            renamed_eval_places(l, targets, n, r, q, names, st.env, st2.env, st.w);
            let p = eval_places(l, targets, st.env, st.w);
            renamed_eval_all(l, values, n, r, names, st.env, st2.env, p.w);
            let a = eval_all(l, values, st.env, p.w);
            places_of_targets(l, targets, st.env, st.w);
            assert forall|i: int| 0 <= i < p.places.len() implies ((#[trigger] p.places[i]) matches PlaceV::Name(x)
                && names.contains(x) ==> p.places[i] == PlaceV::Name(n)) by {
                if let PlaceV::Name(x) = p.places[i] {
                    assert(targets[i] == ExprV::Var(x));
                    target_named(targets, x);
                    assert(own_writes(s).contains(x));
                }
            }
            stored_moved(
                l,
                StateV { env: st.env, w: a.w },
                StateV { env: st2.env, w: a.w },
                p.places,
                a.vs,
                p.places.len() as int,
                n,
                r,
                q,
                names,
            );
            if assigns(s, n) {
                target_named(targets, n);
                let i = choose|i: int| 0 <= i < targets.len() && #[trigger] targets[i] == ExprV::Var(n);
                assert(p.places[i] == PlaceV::Name(n));
                assert(named(p.places, p.places.len() as int, n));
            }
        },
        StmtV::Call(e) => {
            assert forall|x: Text| names.contains(x) && x != n implies #[trigger] expr_reads(e, x) == 0 by {
                assert(!own_writes(s).contains(x));
            }
            renamed_eval(l, e, n, r, names, st.env, st2.env, st.w);
        },
        StmtV::Return(es) => {
            assert forall|x: Text| names.contains(x) && x != n implies #[trigger] exprs_reads(es, x) == 0 by {
                assert(!own_writes(s).contains(x));
            }
            renamed_eval_all(l, es, n, r, names, st.env, st2.env, st.w);
        },
        StmtV::If { cond, then_body, else_body } => {
            assert forall|x: Text| names.contains(x) && x != n implies #[trigger] expr_reads(cond, x) == 0 by {
                assert(!own_writes(s).contains(x));
            }
            renamed_eval(l, cond, n, r, names, st.env, st2.env, st.w);
            let a = eval(l, cond, st.env, st.w);
            let s1 = StateV { env: st.env, w: a.w };
            let s2 = StateV { env: st2.env, w: a.w };
            let body = if (l.truthy)(a.v) {
                then_body
            } else {
                else_body
            };
            assert forall|x: Text| names.contains(x) implies #[trigger] deep(reads_of(x), body) == 0 && deep(
                writes_to(x),
                body,
            ) == 0 by {
                if x != n {
                    assert(deep_stmt(reads_of(x), s) == 0);
                }
            }
            inner_run(l, body, n, r, names, s1, s2, fuel);
        },
        StmtV::Loop { head, body } => {
            match head {
                LoopHead::While(c) => {
                    renamed_unread(c, n, r);
                },
                LoopHead::Repeat(c) => {
                    renamed_unread(c, n, r);
                },
                _ => {},
            }
            assert(renamed_stmt(s, n, r, q) == s);
            assert forall|i: int| 0 <= i < names.len() implies deep_stmt(reads_of(#[trigger] names[i]), s) == 0 by {
                assert(names.contains(names[i]));
                if names[i] != n {
                    assert(deep_stmt(reads_of(names[i]), s) == 0);
                }
            }
            unread_by(l, s, st, st2, names, fuel);
            crate::meaning::unwritten_exec(l, s, st, n, fuel);
            assert(deep_stmt(reads_of(r), s) == 0 && deep_stmt(writes_to(r), s) == 0);
            crate::meaning::unwritten_exec(l, s, st2, r, fuel);
        },
        _ => {},
    }
}

/// A block that mentions none of some variables runs the same whatever they are, and leaves them.
proof fn inner_run(l: Lang, b: Block, n: Text, r: Text, names: Seq<Text>, st: StateV, st2: StateV, fuel: nat)
    requires
        st.w == st2.w,
        moved(names, n, r, st.env, st2.env),
        names.contains(n) && names.contains(r),
        forall|x: Text| names.contains(x) ==> #[trigger] deep(reads_of(x), b) == 0 && deep(writes_to(x), b) == 0,
    ensures
        ({
            let a = run(l, b, st, fuel);
            let c = run(l, b, st2, fuel);
            a.out == c.out && a.st.w == c.st.w && moved(names, n, r, a.st.env, c.st.env)
        }),
    decreases b.len(),
{
    if b.len() > 0 {
        let front = b.drop_last();
        let s = b.last();
        assert forall|x: Text| names.contains(x) implies #[trigger] deep(reads_of(x), front) == 0 && deep(
            writes_to(x),
            front,
        ) == 0 by {
            assert(deep(reads_of(x), b) == 0);
        }
        inner_run(l, front, n, r, names, st, st2, fuel);
        let a = run(l, front, st, fuel);
        let c = run(l, front, st2, fuel);
        if a.out is Normal {
            assert forall|i: int| 0 <= i < names.len() implies deep_stmt(reads_of(#[trigger] names[i]), s) == 0 by {
                assert(names.contains(names[i]));
                assert(deep(reads_of(names[i]), b) == 0);
            }
            unread_by(l, s, a.st, c.st, names, fuel);
            assert(deep(reads_of(n), b) == 0 && deep(reads_of(r), b) == 0);
            crate::meaning::unwritten_exec(l, s, a.st, n, fuel);
            crate::meaning::unwritten_exec(l, s, c.st, r, fuel);
        }
    }
}

// ---- versions ---------------------------------------------------------------------------------------------------

/// `n` and its first `k` versions.
pub open spec fn all_versions(n: Text, k: nat) -> Seq<Text> {
    Seq::new(
        k + 1,
        |i: int| if i == 0 {
            n
        } else {
            version_name(n, i as nat)
        },
    )
}

/// Whether `n` can be split in `b`: it is mentioned in no statement inside another and in no loop,
/// and the names of its versions are new, and names of variables.
pub open spec fn separable(b: Block, n: Text) -> bool {
    let names = all_versions(n, version(b, b.len() as int, n));
    &&& forall|i: int| 0 <= i < b.len() ==> outside_only(#[trigger] b[i], n, names)
    &&& forall|k: nat| plain_names(n, #[trigger] version_name(n, k)) && version_name(n, k) != n
}

proof fn version_grows(b: Block, k: int, m: int, n: Text)
    requires
        0 <= k <= m <= b.len(),
    ensures
        1 <= version(b, k, n) <= version(b, m, n),
    decreases m,
{
    if k < m {
        version_grows(b, k, m - 1, n);
    } else if k > 0 {
        version_grows(b, k - 1, k - 1, n);
    }
}

proof fn split_runs_to(l: Lang, b: Block, n: Text, k: int, st: StateV, st2: StateV, fuel: nat)
    requires
        version(b, b.len() as int, n) > 1,
        separable(b, n),
        0 <= k <= b.len(),
        st.w == st2.w,
        moved(all_versions(n, version(b, b.len() as int, n)), n, version_name(n, 1), st.env, st2.env),
    ensures
        ({
            let a = run(l, b.take(k), st, fuel);
            let c = run(l, versioned(b, n).take(k), st2, fuel);
            &&& a.out == c.out && a.st.w == c.st.w
            &&& forall|x: Text|
                !all_versions(n, version(b, b.len() as int, n)).contains(x) ==> #[trigger] (a.st.env)(x) == (c.st.env)(x)
            &&& a.out is Normal ==> (c.st.env)(version_name(n, version(b, k, n))) == (a.st.env)(n)
        }),
    decreases k,
{
    let names = all_versions(n, version(b, b.len() as int, n));
    let d = versioned(b, n);
    if k > 0 {
        split_runs_to(l, b, n, k - 1, st, st2, fuel);
        assert(b.take(k).drop_last() =~= b.take(k - 1));
        assert(d.take(k).drop_last() =~= d.take(k - 1));
        assert(b.take(k).last() == b[k - 1]);
        assert(d.take(k).last() == d[k - 1]);
        let a = run(l, b.take(k - 1), st, fuel);
        let c = run(l, d.take(k - 1), st2, fuel);
        if a.out is Normal {
            let vr = version(b, k - 1, n);
            let vq = version(b, k, n);
            version_grows(b, k - 1, b.len() as int, n);
            version_grows(b, k, b.len() as int, n);
            let r = version_name(n, vr);
            let q = version_name(n, vq);
            assert(names[0] == n);
            assert(names[vr as int] == r);
            assert(names[vq as int] == q);
            assert(plain_names(n, r));
            assert(outside_only(b[k - 1], n, names));
            split_exec(l, b[k - 1], n, r, q, names, a.st, c.st, fuel);
        }
    } else {
        assert(b.take(0) =~= Seq::<StmtV>::empty());
        assert(d.take(0) =~= Seq::<StmtV>::empty());
    }
}

/// Splitting a register changes nothing that a run of the block does, where its first version
/// begins with the value of the register: the run ends the same way, makes the same calls with the
/// same values, writes the same to tables and returns the same, leaves the same in every other
/// variable, and leaves in the last version what it left in the register.
pub proof fn splitting_keeps_runs(l: Lang, b: Block, n: Text, st: StateV, st2: StateV, fuel: nat)
    requires
        version(b, b.len() as int, n) > 1,
        separable(b, n),
        st.w == st2.w,
        moved(all_versions(n, version(b, b.len() as int, n)), n, version_name(n, 1), st.env, st2.env),
    ensures
        ({
            let last = version(b, b.len() as int, n);
            let a = run(l, b, st, fuel);
            let c = run(l, versioned(b, n), st2, fuel);
            &&& a.out == c.out && a.st.w == c.st.w
            &&& forall|x: Text| !all_versions(n, last).contains(x) ==> #[trigger] (a.st.env)(x) == (c.st.env)(x)
            &&& a.out is Normal ==> (c.st.env)(version_name(n, last)) == (a.st.env)(n)
        }),
{
    split_runs_to(l, b, n, b.len() as int, st, st2, fuel);
    assert(b.take(b.len() as int) =~= b);
    assert(versioned(b, n).take(b.len() as int) =~= versioned(b, n));
}

} // verus!
