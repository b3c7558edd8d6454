//! The order in which a function makes its calls and stores, and which passes keep it.
use vstd::prelude::*;

use crate::ast::{spec_splice, Block, ExprV, FieldV, LoopHead, StmtV};
use crate::back_loops::{return_guard, returns_values};
use crate::conditions::binary;
use crate::dead_stores::{
    dead_after, effect_of, fewer_stores, fewer_stores_fewer, first_dead_after, overwritten_in, store, unread,
    unread_in, wasted, without_dead_stores, without_overwritten, without_overwritten_inside, without_unread,
    without_wasted, DeadAfter,
};
use crate::effects::{body_protected_more, fills_end_fills, replaced_in_len, same_outside};
use crate::function_ends::{return_labels, returns_inlined, returns_inlined_stmt};
use crate::inline::{
    body_protected, effectful, expr_head, first_head, inlined, inlined_at, inlined_flat, inlined_from, inlined_in,
    inlined_inside, next_read, next_read_bounds, next_write, next_write_bounds, passes, pending, read_once,
    reads_in_targets, stmt_head,
};
use crate::jumps::{only, sole_assign};
use crate::liveness::{replaced, replaced_in, replaced_in_field, replaced_in_fields, stmt_replaced};
use crate::locals::{assigned, locals_of, undeclared, undeclared_in, with_declared, with_new, with_new_members};
use crate::markers::{dead_marker, markers_removed, markers_removed_in, markers_removed_inside, without_markers};
use crate::names::NameSet;
use crate::naming::{builds_value, datatype, dot_from, pure, pure_all, pure_field, pure_fields};
use crate::query::{expr_reads, exprs_reads, field_reads, fields_reads, one_if, shallow_reads};
use crate::rules::{
    everywhere, first_from, fixpoint, inside, inside_stmt, throughout, within, within_stmt, Measure, Rule, Scan, Step,
};
use crate::simplify::{
    chain, distinct, exprs_simplified, not_operand, operands, simplified, simplified_all, simplified_field,
    simplified_fields, stmt_simplified, NestedIf,
};
use crate::sweeps::{
    before, calls_carried, carried, carried_call, return_nil, temp_condition, until_inlined, CarriedCalls,
};
use crate::tables::{
    fill, fills, fills_end, fills_end_bounds, folded_at, literal, literals_moved, literals_moved_in,
    literals_moved_inside, moved_at, moved_from, placed, table_init, with_value, FoldFills,
};
use crate::text::Text;
use crate::weight::{deep, deep_at, deep_one, deep_range_one, deep_splice, deep_stmt};

verus! {

// ---- lists over a tree ------------------------------------------------------------------------------------------

/// What `f` and `g` list of the statements of `b`, in the order in which they run: `f` before the
/// statements inside a statement, `g` after them.
pub open spec fn trace<T>(f: spec_fn(StmtV) -> Seq<T>, g: spec_fn(StmtV) -> Seq<T>, b: Block) -> Seq<T>
    decreases b,
{
    if b.len() == 0 {
        Seq::empty()
    } else {
        trace(f, g, b.drop_last()) + trace_stmt(f, g, b.last())
    }
}

/// What `f` and `g` list of `s` and the statements inside it.
pub open spec fn trace_stmt<T>(f: spec_fn(StmtV) -> Seq<T>, g: spec_fn(StmtV) -> Seq<T>, s: StmtV) -> Seq<T>
    decreases s,
{
    f(s) + match s {
        StmtV::If { then_body, else_body, .. } => trace(f, g, then_body) + trace(f, g, else_body),
        StmtV::Loop { body, .. } => trace(f, g, body),
        _ => Seq::empty(),
    } + g(s)
}

proof fn trace_one<T>(f: spec_fn(StmtV) -> Seq<T>, g: spec_fn(StmtV) -> Seq<T>, s: StmtV)
    ensures
        trace(f, g, seq![s]) == trace_stmt(f, g, s),
{
    assert(seq![s].drop_last() =~= Seq::<StmtV>::empty());
    assert(trace(f, g, Seq::<StmtV>::empty()) =~= Seq::<T>::empty());
    assert(trace(f, g, seq![s]) =~= trace_stmt(f, g, s));
}

proof fn trace_concat<T>(f: spec_fn(StmtV) -> Seq<T>, g: spec_fn(StmtV) -> Seq<T>, a: Block, b: Block)
    ensures
        trace(f, g, a + b) == trace(f, g, a) + trace(f, g, b),
    decreases b.len(),
{
    if b.len() == 0 {
        assert(a + b =~= a);
        assert(trace(f, g, a) + trace(f, g, b) =~= trace(f, g, a));
    } else {
        trace_concat(f, g, a, b.drop_last());
        assert((a + b).drop_last() =~= a + b.drop_last());
        assert((a + b).last() == b.last());
        assert(trace(f, g, a + b) =~= trace(f, g, a) + trace(f, g, b));
    }
}

proof fn trace_split<T>(f: spec_fn(StmtV) -> Seq<T>, g: spec_fn(StmtV) -> Seq<T>, b: Block, i: int)
    requires
        0 <= i <= b.len(),
    ensures
        trace(f, g, b) == trace(f, g, b.subrange(0, i)) + trace(f, g, b.subrange(i, b.len() as int)),
{
    assert(b =~= b.subrange(0, i) + b.subrange(i, b.len() as int));
    trace_concat(f, g, b.subrange(0, i), b.subrange(i, b.len() as int));
}

proof fn trace_at<T>(f: spec_fn(StmtV) -> Seq<T>, g: spec_fn(StmtV) -> Seq<T>, b: Block, i: int)
    requires
        0 <= i < b.len(),
    ensures
        trace(f, g, b) == trace(f, g, b.subrange(0, i)) + trace_stmt(f, g, b[i]) + trace(
            f,
            g,
            b.subrange(i + 1, b.len() as int),
        ),
{
    let t = b.subrange(i, b.len() as int);
    trace_split(f, g, b, i);
    trace_split(f, g, t, 1);
    assert(t.subrange(0, 1) =~= seq![b[i]]);
    assert(t.subrange(1, t.len() as int) =~= b.subrange(i + 1, b.len() as int));
    trace_one(f, g, b[i]);
    assert(trace(f, g, b) =~= trace(f, g, b.subrange(0, i)) + trace_stmt(f, g, b[i]) + trace(
        f,
        g,
        b.subrange(i + 1, b.len() as int),
    ));
}

// ---- calls in order ---------------------------------------------------------------------------------------------

/// A call: its method, where it has one, and the number of its arguments.
#[verifier::ext_equal]
pub struct CallV {
    pub method: Option<Text>,
    pub args: nat,
}

/// The calls that `e` makes, in the order in which it makes them, but for those that only build a
/// value.
pub open spec fn calls_of(e: ExprV) -> Seq<CallV>
    decreases e,
{
    match e {
        ExprV::Index(t, k) => calls_of(*t) + calls_of(*k),
        ExprV::Field(t, _) => calls_of(*t),
        ExprV::Call(f, args) => calls_of(*f) + calls_of_all(args) + if builds_value(*f) {
            Seq::empty()
        } else {
            seq![CallV { method: None, args: args.len() }]
        },
        ExprV::MethodCall(o, m, args) => calls_of(*o) + calls_of_all(args) + seq![
            CallV { method: Some(m), args: args.len() },
        ],
        ExprV::Unary(_, a) => calls_of(*a),
        ExprV::Binary(_, a, b) => calls_of(*a) + calls_of(*b),
        ExprV::Table(fs) => calls_of_fields(fs),
        _ => Seq::empty(),
    }
}

pub open spec fn calls_of_all(es: Seq<ExprV>) -> Seq<CallV>
    decreases es,
{
    if es.len() == 0 {
        Seq::empty()
    } else {
        calls_of_all(es.drop_last()) + calls_of(es.last())
    }
}

pub open spec fn calls_of_fields(fs: Seq<FieldV>) -> Seq<CallV>
    decreases fs,
{
    if fs.len() == 0 {
        Seq::empty()
    } else {
        calls_of_fields(fs.drop_last()) + calls_of_field(fs.last())
    }
}

pub open spec fn calls_of_field(f: FieldV) -> Seq<CallV>
    decreases f,
{
    match f {
        FieldV::Item(e) => calls_of(e),
        FieldV::Named(_, e) => calls_of(e),
        FieldV::Keyed(k, e) => calls_of(k) + calls_of(e),
    }
}

/// The calls that a statement makes before the statements inside it run.
pub open spec fn calls_first() -> spec_fn(StmtV) -> Seq<CallV> {
    |s: StmtV|
        match s {
            StmtV::Local { values, .. } => calls_of_all(values),
            StmtV::Assign { targets, values } => calls_of_all(targets) + calls_of_all(values),
            StmtV::Call(e) => calls_of(e),
            StmtV::Return(es) => calls_of_all(es),
            StmtV::If { cond, .. } => calls_of(cond),
            StmtV::Loop { head: LoopHead::While(c), .. } => calls_of(c),
            StmtV::Loop { head: LoopHead::Numeric { start, limit, step, .. }, .. } => calls_of(start) + calls_of(limit)
                + match step {
                Some(e) => calls_of(e),
                None => Seq::empty(),
            },
            StmtV::Loop { head: LoopHead::Generic { exprs, .. }, .. } => calls_of_all(exprs),
            _ => Seq::empty(),
        }
}

/// The calls that a statement makes after the statements inside it have run.
pub open spec fn calls_last() -> spec_fn(StmtV) -> Seq<CallV> {
    |s: StmtV|
        match s {
            StmtV::Loop { head: LoopHead::Repeat(c), .. } => calls_of(c),
            _ => Seq::empty(),
        }
}

/// The calls of `b`, in the order in which they stand, but for those that only build a value.
pub open spec fn call_order(b: Block) -> Seq<CallV> {
    trace(calls_first(), calls_last(), b)
}

/// A value without effects makes no call but of constructors.
proof fn pure_makes_no_call(e: ExprV)
    requires
        pure(e),
    ensures
        calls_of(e) == Seq::<CallV>::empty(),
    decreases e,
{
    match e {
        ExprV::Index(t, k) => {
            pure_makes_no_call(*t);
            pure_makes_no_call(*k);
        },
        ExprV::Field(t, _) => {
            pure_makes_no_call(*t);
        },
        ExprV::Call(f, args) => {
            if let ExprV::Field(t, _) = *f {
                assert(calls_of(*t) =~= Seq::<CallV>::empty());
            }
            assert(calls_of(*f) =~= Seq::<CallV>::empty());
            pure_all_makes_no_call(args);
        },
        ExprV::Unary(_, a) => {
            pure_makes_no_call(*a);
        },
        ExprV::Binary(_, a, b) => {
            pure_makes_no_call(*a);
            pure_makes_no_call(*b);
        },
        ExprV::Table(fs) => {
            pure_fields_make_no_call(fs);
        },
        _ => {},
    }
    assert(calls_of(e) =~= Seq::<CallV>::empty());
}

proof fn pure_all_makes_no_call(es: Seq<ExprV>)
    requires
        pure_all(es),
    ensures
        calls_of_all(es) == Seq::<CallV>::empty(),
    decreases es,
{
    if es.len() > 0 {
        let front = es.drop_last();
        assert forall|i: int| 0 <= i < front.len() implies pure(#[trigger] front[i]) by {
            assert(es[i] == front[i]);
        }
        assert(pure_all(front));
        pure_all_makes_no_call(front);
        assert(pure(es[es.len() - 1]));
        pure_makes_no_call(es.last());
    }
    assert(calls_of_all(es) =~= Seq::<CallV>::empty());
}

proof fn pure_fields_make_no_call(fs: Seq<FieldV>)
    requires
        pure_fields(fs),
    ensures
        calls_of_fields(fs) == Seq::<CallV>::empty(),
    decreases fs,
{
    if fs.len() > 0 {
        let front = fs.drop_last();
        assert forall|i: int| 0 <= i < front.len() implies pure_field(#[trigger] front[i]) by {
            assert(fs[i] == front[i]);
        }
        assert(pure_fields(front));
        pure_fields_make_no_call(front);
        assert(pure_field(fs[fs.len() - 1]));
        match fs.last() {
            FieldV::Item(e) => {
                pure_makes_no_call(e);
            },
            FieldV::Named(_, e) => {
                pure_makes_no_call(e);
            },
            FieldV::Keyed(k, e) => {
                pure_makes_no_call(k);
                pure_makes_no_call(e);
            },
        }
        assert(calls_of_field(fs.last()) =~= Seq::<CallV>::empty());
    }
    assert(calls_of_fields(fs) =~= Seq::<CallV>::empty());
}

proof fn calls_of_one(e: ExprV)
    ensures
        calls_of_all(seq![e]) == calls_of(e),
{
    assert(seq![e].drop_last() =~= Seq::<ExprV>::empty());
    assert(calls_of_all(Seq::<ExprV>::empty()) =~= Seq::<CallV>::empty());
    assert(calls_of_all(seq![e]) =~= calls_of(e));
}

proof fn variables_make_no_call(es: Seq<ExprV>)
    requires
        forall|i: int| 0 <= i < es.len() ==> #[trigger] es[i] is Var,
    ensures
        calls_of_all(es) == Seq::<CallV>::empty(),
    decreases es.len(),
{
    if es.len() > 0 {
        let front = es.drop_last();
        assert forall|i: int| 0 <= i < front.len() implies #[trigger] front[i] is Var by {
            assert(es[i] is Var);
        }
        variables_make_no_call(front);
        assert(es[es.len() - 1] is Var);
        assert(calls_of(es.last()) =~= Seq::<CallV>::empty());
    }
    assert(calls_of_all(es) =~= Seq::<CallV>::empty());
}

/// The calls of an assignment to a variable are those of its value.
proof fn store_calls(s: StmtV)
    ensures
        sole_assign(s) matches Some((_, v)) ==> trace_stmt(calls_first(), calls_last(), s) == calls_of(v),
{
    if let Some((n, v)) = sole_assign(s) {
        calls_of_one(v);
        match s {
            StmtV::Assign { targets, values } => {
                assert(values =~= seq![v]);
                variables_make_no_call(targets);
            },
            StmtV::Local { values, .. } => {
                assert(values =~= seq![v]);
            },
            _ => {},
        }
        assert(trace_stmt(calls_first(), calls_last(), s) =~= calls_of(v));
    }
}

// ---- removing stores ---------------------------------------------------------------------------------------------

/// Whether removing `s`, if it is a store to a name other than `protected`, keeps what is listed.
pub open spec fn lists_effect<T>(
    f: spec_fn(StmtV) -> Seq<T>,
    g: spec_fn(StmtV) -> Seq<T>,
    protected: Seq<Text>,
    s: StmtV,
) -> bool {
    match sole_assign(s) {
        Some((n, v)) => protected.contains(n) || trace_stmt(f, g, s) == if pure(v) {
            Seq::empty()
        } else {
            trace_stmt(f, g, StmtV::Call(v))
        },
        None => true,
    }
}

/// Whether removing stores to names other than `protected` keeps what is listed.
pub open spec fn keeps_trace<T>(f: spec_fn(StmtV) -> Seq<T>, g: spec_fn(StmtV) -> Seq<T>, protected: Seq<Text>) -> bool {
    &&& forall|s: StmtV| #[trigger] lists_effect(f, g, protected, s)
    &&& forall|s: StmtV, t: StmtV| #[trigger] same_outside(s, t) ==> f(s) == f(t) && g(s) == g(t)
}

proof fn without_unread_traces<T>(
    f: spec_fn(StmtV) -> Seq<T>,
    g: spec_fn(StmtV) -> Seq<T>,
    b: Block,
    root: Block,
    protected: Seq<Text>,
)
    requires
        keeps_trace(f, g, protected),
    ensures
        trace(f, g, without_unread(b, root, protected)) == trace(f, g, b),
    decreases b,
{
    if b.len() > 0 {
        without_unread_traces(f, g, b.drop_last(), root, protected);
        unread_in_traces(f, g, b.last(), root, protected);
        trace_concat(f, g, without_unread(b.drop_last(), root, protected), unread_in(b.last(), root, protected));
    }
}

proof fn unread_in_traces<T>(
    f: spec_fn(StmtV) -> Seq<T>,
    g: spec_fn(StmtV) -> Seq<T>,
    s: StmtV,
    root: Block,
    protected: Seq<Text>,
)
    requires
        keeps_trace(f, g, protected),
    ensures
        trace(f, g, unread_in(s, root, protected)) == trace_stmt(f, g, s),
    decreases s,
{
    if unread(s, root, protected) {
        let v = sole_assign(s)->Some_0.1;
        assert(lists_effect(f, g, protected, s));
        assert(effect_of(v) == Seq::<StmtV>::empty() || effect_of(v) == seq![StmtV::Call(v)]);
        trace_one(f, g, StmtV::Call(v));
        assert(trace(f, g, Seq::<StmtV>::empty()) =~= Seq::<T>::empty());
    } else {
        let t = unread_in(s, root, protected);
        match s {
            StmtV::If { cond, then_body, else_body } => {
                without_unread_traces(f, g, then_body, root, protected);
                without_unread_traces(f, g, else_body, root, protected);
                let c = StmtV::If {
                    cond,
                    then_body: without_unread(then_body, root, protected),
                    else_body: without_unread(else_body, root, protected),
                };
                assert(t == seq![c]);
                trace_one(f, g, c);
                assert(same_outside(s, c));
            },
            StmtV::Loop { head, body } => {
                without_unread_traces(f, g, body, root, protected);
                let c = StmtV::Loop { head, body: without_unread(body, root, protected) };
                assert(t == seq![c]);
                trace_one(f, g, c);
                assert(same_outside(s, c));
            },
            _ => {
                assert(t == seq![s]);
                trace_one(f, g, s);
            },
        }
    }
}

proof fn without_wasted_traces<T>(
    f: spec_fn(StmtV) -> Seq<T>,
    g: spec_fn(StmtV) -> Seq<T>,
    b: Block,
    i: int,
    protected: Seq<Text>,
)
    requires
        keeps_trace(f, g, protected),
        0 <= i <= b.len(),
    ensures
        trace(f, g, without_wasted(b, i, protected)) == trace(f, g, b.subrange(i, b.len() as int)),
    decreases b.len() - i,
{
    let t = b.subrange(i, b.len() as int);
    if i < b.len() {
        without_wasted_traces(f, g, b, i + 1, protected);
        let rest = without_wasted(b, i + 1, protected);
        let u = b.subrange(i + 1, b.len() as int);
        assert(t =~= seq![b[i]] + u);
        trace_concat(f, g, seq![b[i]], u);
        trace_one(f, g, b[i]);
        if wasted(b, i, protected) {
            assert(lists_effect(f, g, protected, b[i]));
            assert(Seq::<T>::empty() + trace(f, g, u) =~= trace(f, g, u));
        } else {
            assert(before(b[i], rest) =~= seq![b[i]] + rest);
            trace_concat(f, g, seq![b[i]], rest);
        }
    } else {
        assert(t =~= Seq::<StmtV>::empty());
    }
}

proof fn keeps_trace_in_body<T>(
    f: spec_fn(StmtV) -> Seq<T>,
    g: spec_fn(StmtV) -> Seq<T>,
    head: LoopHead,
    protected: Seq<Text>,
)
    requires
        keeps_trace(f, g, protected),
    ensures
        keeps_trace(f, g, body_protected(head, protected)),
{
    assert forall|n: Text| protected.contains(n) implies body_protected(head, protected).contains(n) by {
        body_protected_more(head, protected, n);
    }
    assert forall|s: StmtV| #[trigger] lists_effect(f, g, body_protected(head, protected), s) by {
        assert(lists_effect(f, g, protected, s));
    }
}

proof fn without_overwritten_traces<T>(
    f: spec_fn(StmtV) -> Seq<T>,
    g: spec_fn(StmtV) -> Seq<T>,
    b: Block,
    protected: Seq<Text>,
)
    requires
        keeps_trace(f, g, protected),
    ensures
        trace(f, g, without_overwritten(b, protected)) == trace(f, g, b),
    decreases b, 1nat, 0int,
{
    let c = without_overwritten_inside(b, protected);
    without_overwritten_inside_traces(f, g, b, b.len() as int, protected);
    without_wasted_traces(f, g, c, 0, protected);
    assert(c.subrange(0, c.len() as int) =~= c);
    assert(c.take(b.len() as int) =~= c);
    assert(b.take(b.len() as int) =~= b);
}

proof fn without_overwritten_inside_traces<T>(
    f: spec_fn(StmtV) -> Seq<T>,
    g: spec_fn(StmtV) -> Seq<T>,
    b: Block,
    k: int,
    protected: Seq<Text>,
)
    requires
        keeps_trace(f, g, protected),
        0 <= k <= b.len(),
    ensures
        trace(f, g, without_overwritten_inside(b, protected).take(k)) == trace(f, g, b.take(k)),
    decreases b, 0nat, k,
{
    let c = without_overwritten_inside(b, protected);
    if k > 0 {
        without_overwritten_inside_traces(f, g, b, k - 1, protected);
        overwritten_in_traces(f, g, b[k - 1], protected);
        assert(c.take(k).drop_last() =~= c.take(k - 1));
        assert(b.take(k).drop_last() =~= b.take(k - 1));
        assert(c.take(k).last() == c[k - 1]);
        assert(b.take(k).last() == b[k - 1]);
    } else {
        assert(c.take(0) =~= b.take(0));
    }
}

proof fn overwritten_in_traces<T>(f: spec_fn(StmtV) -> Seq<T>, g: spec_fn(StmtV) -> Seq<T>, s: StmtV, protected: Seq<Text>)
    requires
        keeps_trace(f, g, protected),
    ensures
        trace_stmt(f, g, overwritten_in(s, protected)) == trace_stmt(f, g, s),
    decreases s, 0nat, 0int,
{
    let t = overwritten_in(s, protected);
    match s {
        StmtV::If { then_body, else_body, .. } => {
            without_overwritten_traces(f, g, then_body, protected);
            without_overwritten_traces(f, g, else_body, protected);
            assert(same_outside(s, t));
        },
        StmtV::Loop { head, body } => {
            keeps_trace_in_body(f, g, head, protected);
            without_overwritten_traces(f, g, body, body_protected(head, protected));
            assert(same_outside(s, t));
        },
        _ => {},
    }
}

proof fn without_dead_stores_traces<T>(
    f: spec_fn(StmtV) -> Seq<T>,
    g: spec_fn(StmtV) -> Seq<T>,
    b: Block,
    protected: Seq<Text>,
)
    requires
        keeps_trace(f, g, protected),
    ensures
        trace(f, g, without_dead_stores(b, protected)) == trace(f, g, b),
    decreases deep(store(), b),
{
    if fewer_stores(b, protected) != b {
        fewer_stores_fewer(b, protected);
        without_unread_traces(f, g, b, b, protected);
        without_overwritten_traces(f, g, without_unread(b, b, protected), protected);
        without_dead_stores_traces(f, g, fewer_stores(b, protected), protected);
    }
}

/// Eliminating dead stores keeps the calls, and the order in which they are made.
pub proof fn dead_stores_keep_call_order(b: Block, protected: Seq<Text>)
    ensures
        call_order(without_dead_stores(b, protected)) == call_order(b),
{
    let f = calls_first();
    let g = calls_last();
    assert forall|s: StmtV| #[trigger] lists_effect(f, g, protected, s) by {
        store_calls(s);
        if let Some((_, v)) = sole_assign(s) {
            if pure(v) {
                pure_makes_no_call(v);
            } else {
                assert(trace_stmt(f, g, StmtV::Call(v)) =~= calls_of(v));
            }
        }
    }
    without_dead_stores_traces(f, g, b, protected);
}

/// Lists the statements that assign a name in `names`.
pub open spec fn stores_in(names: Seq<Text>) -> spec_fn(StmtV) -> Seq<StmtV> {
    |s: StmtV|
        if assigns_one_of(s, names) {
            seq![s]
        } else {
            Seq::empty()
        }
}

/// Whether `s` itself assigns a name in `names`.
pub open spec fn assigns_one_of(s: StmtV, names: Seq<Text>) -> bool {
    match s {
        StmtV::Assign { targets, .. } => exists|i: int|
            0 <= i < targets.len() && (#[trigger] targets[i]) is Var && names.contains(targets[i]->Var_0),
        StmtV::Local { names: ns, .. } => exists|i: int| 0 <= i < ns.len() && names.contains(#[trigger] ns[i]),
        _ => false,
    }
}

/// Eliminating dead stores keeps every statement that assigns a protected name, in order.
pub proof fn dead_stores_keep_protected_order(b: Block, protected: Seq<Text>)
    ensures
        ({
            let f = stores_in(protected);
            let none = |s: StmtV| Seq::<StmtV>::empty();
            trace(f, none, without_dead_stores(b, protected)) == trace(f, none, b)
        }),
{
    let f = stores_in(protected);
    let none = |s: StmtV| Seq::<StmtV>::empty();
    assert forall|s: StmtV| #[trigger] lists_effect(f, none, protected, s) by {
        if let Some((n, v)) = sole_assign(s) {
            if !protected.contains(n) {
                assert(!assigns_one_of(s, protected));
                assert(trace_stmt(f, none, s) =~= Seq::<StmtV>::empty());
                assert(trace_stmt(f, none, StmtV::Call(v)) =~= Seq::<StmtV>::empty());
            }
        }
    }
    without_dead_stores_traces(f, none, b, protected);
}

/// Dropping stores after the last read keeps the calls, and the order in which they are made.
pub proof fn dead_after_keeps_call_order(b: Block, protected: &NameSet)
    ensures
        call_order(fixpoint(Scan(DeadAfter { protected }), b)) == call_order(b),
    decreases b.len(),
{
    let p = Scan(DeadAfter { protected });
    p.shrinks(b);
    if let Some(c) = p.step(b) {
        first_dead_after(protected, b, 0);
        let i = choose|i: int| 0 <= i < b.len() && #[trigger] dead_after(b, i, protected@) && c == b.remove(i);
        let v = sole_assign(b[i])->Some_0.1;
        store_calls(b[i]);
        pure_makes_no_call(v);
        trace_at(calls_first(), calls_last(), b, i);
        let head = b.subrange(0, i);
        let tail = b.subrange(i + 1, b.len() as int);
        assert(c =~= head + tail);
        trace_concat(calls_first(), calls_last(), head, tail);
        assert(call_order(c) =~= call_order(b));
        dead_after_keeps_call_order(c, protected);
    }
}

// ---- steps and passes --------------------------------------------------------------------------------------------

/// Whether what is listed of a statement that holds blocks does not depend on the blocks.
pub open spec fn lists_outside<T>(f: spec_fn(StmtV) -> Seq<T>, g: spec_fn(StmtV) -> Seq<T>) -> bool {
    forall|s: StmtV, t: StmtV| #[trigger] same_outside(s, t) ==> f(s) == f(t) && g(s) == g(t)
}

/// Whether a step keeps what is listed.
pub open spec fn step_traces<T, S: Step>(p: S, f: spec_fn(StmtV) -> Seq<T>, g: spec_fn(StmtV) -> Seq<T>) -> bool {
    forall|b: Block| (#[trigger] p.step(b)) matches Some(c) ==> trace(f, g, c) == trace(f, g, b)
}

proof fn fixpoint_traces<T, S: Step>(p: S, f: spec_fn(StmtV) -> Seq<T>, g: spec_fn(StmtV) -> Seq<T>, b: Block)
    requires
        step_traces(p, f, g),
    ensures
        trace(f, g, fixpoint(p, b)) == trace(f, g, b),
    decreases <S::M as Measure>::of(b),
{
    p.shrinks(b);
    if let Some(c) = p.step(b) {
        fixpoint_traces(p, f, g, c);
    }
}

proof fn everywhere_traces<T, S: Step>(p: S, f: spec_fn(StmtV) -> Seq<T>, g: spec_fn(StmtV) -> Seq<T>, b: Block)
    requires
        step_traces(p, f, g),
        lists_outside(f, g),
    ensures
        trace(f, g, everywhere(p, b)) == trace(f, g, b),
    decreases b, 1nat, 0int,
{
    let c = inside(p, b);
    inside_traces(p, f, g, b, b.len() as int);
    fixpoint_traces(p, f, g, c);
    assert(c.take(b.len() as int) =~= c);
    assert(b.take(b.len() as int) =~= b);
}

proof fn inside_traces<T, S: Step>(
    p: S,
    f: spec_fn(StmtV) -> Seq<T>,
    g: spec_fn(StmtV) -> Seq<T>,
    b: Block,
    k: int,
)
    requires
        step_traces(p, f, g),
        lists_outside(f, g),
        0 <= k <= b.len(),
    ensures
        trace(f, g, inside(p, b).take(k)) == trace(f, g, b.take(k)),
    decreases b, 0nat, k,
{
    let c = inside(p, b);
    if k > 0 {
        inside_traces(p, f, g, b, k - 1);
        let s = b[k - 1];
        let t = c[k - 1];
        assert(t == inside_stmt(p, s));
        match s {
            StmtV::If { then_body, else_body, .. } => {
                everywhere_traces(p, f, g, then_body);
                everywhere_traces(p, f, g, else_body);
                assert(same_outside(s, t));
            },
            StmtV::Loop { body, .. } => {
                everywhere_traces(p, f, g, body);
                assert(same_outside(s, t));
            },
            _ => {},
        }
        assert(trace_stmt(f, g, t) == trace_stmt(f, g, s));
        trace_take(f, g, b, c, k);
    } else {
        assert(c.take(0) =~= b.take(0));
    }
}

/// What is listed of the first `k` statements, by the last of them.
proof fn trace_take<T>(f: spec_fn(StmtV) -> Seq<T>, g: spec_fn(StmtV) -> Seq<T>, b: Block, c: Block, k: int)
    requires
        0 < k <= b.len(),
        k <= c.len(),
        trace(f, g, c.take(k - 1)) == trace(f, g, b.take(k - 1)),
        trace_stmt(f, g, c[k - 1]) == trace_stmt(f, g, b[k - 1]),
    ensures
        trace(f, g, c.take(k)) == trace(f, g, b.take(k)),
{
    assert(c.take(k).drop_last() =~= c.take(k - 1));
    assert(b.take(k).drop_last() =~= b.take(k - 1));
    assert(c.take(k).last() == c[k - 1]);
    assert(b.take(k).last() == b[k - 1]);
}

/// What is listed of a block is as before, where a part of it is replaced that lists the same.
proof fn splice_traces<T>(
    f: spec_fn(StmtV) -> Seq<T>,
    g: spec_fn(StmtV) -> Seq<T>,
    b: Block,
    lo: int,
    hi: int,
    mid: Block,
)
    requires
        0 <= lo <= hi <= b.len(),
        trace(f, g, mid) == trace(f, g, b.subrange(lo, hi)),
    ensures
        trace(f, g, spec_splice(b, lo, hi, mid)) == trace(f, g, b),
{
    let head = b.subrange(0, lo);
    let old_mid = b.subrange(lo, hi);
    let tail = b.subrange(hi, b.len() as int);
    assert(spec_splice(b, lo, hi, mid) =~= head + mid + tail);
    assert(b =~= head + old_mid + tail);
    trace_concat(f, g, head + mid, tail);
    trace_concat(f, g, head, mid);
    trace_concat(f, g, head + old_mid, tail);
    trace_concat(f, g, head, old_mid);
}

proof fn calls_list_outside()
    ensures
        lists_outside(calls_first(), calls_last()),
{
    let f = calls_first();
    let g = calls_last();
    assert forall|s: StmtV, t: StmtV| #[trigger] same_outside(s, t) implies f(s) == f(t) && g(s) == g(t) by {
        match (s, t) {
            (StmtV::Loop { head: a, .. }, StmtV::Loop { head: b, .. }) => {
                match a {
                    LoopHead::While(_) => {},
                    LoopHead::Repeat(_) => {},
                    LoopHead::Numeric { .. } => {},
                    LoopHead::Generic { .. } => {},
                }
            },
            _ => {},
        }
    }
}

// ---- table literals ----------------------------------------------------------------------------------------------

proof fn literal_calls_in_order(fs: Seq<FieldV>, more: Seq<FieldV>)
    ensures
        calls_of_fields(literal(fs, more)) == calls_of_fields(fs) + calls_of_fields(more),
    decreases more.len(),
{
    if more.len() > 0 {
        literal_calls_in_order(fs, more.drop_last());
        let front = literal(fs, more.drop_last());
        let l = literal(fs, more);
        let x = more.last();
        assert(l.drop_last() =~= front);
        assert(l.last() == placed(front, x));
        if let FieldV::Keyed(ExprV::Num(n), v) = x {
            assert(calls_of(ExprV::Num(n)) =~= Seq::<CallV>::empty());
        }
        assert(calls_of_field(placed(front, x)) =~= calls_of_field(x));
    }
    assert(calls_of_fields(literal(fs, more)) =~= calls_of_fields(fs) + calls_of_fields(more));
}

/// A fill makes the calls of the field that it sets.
proof fn fill_calls_in_order(s: StmtV, t: Text)
    ensures
        fill(s, t) matches Some(x) ==> trace_stmt(calls_first(), calls_last(), s) == calls_of_field(x),
{
    if let Some(x) = fill(s, t) {
        if let StmtV::Assign { targets, values } = s {
            calls_of_one(values[0]);
            calls_of_one(targets[0]);
            assert(values =~= seq![values[0]]);
            assert(targets =~= seq![targets[0]]);
            assert(calls_of(ExprV::Var(t)) =~= Seq::<CallV>::empty());
            match targets[0] {
                ExprV::Index(_, key) => {
                    assert(calls_of(targets[0]) =~= calls_of(*key));
                },
                _ => {
                    assert(calls_of(targets[0]) =~= Seq::<CallV>::empty());
                },
            }
        }
        assert(trace_stmt(calls_first(), calls_last(), s) =~= calls_of_field(x));
    }
}

proof fn fills_calls_in_order(b: Block, lo: int, hi: int, t: Text)
    requires
        0 <= lo <= hi <= b.len(),
        forall|j: int| lo <= j < hi ==> fill(#[trigger] b[j], t) is Some,
    ensures
        call_order(b.subrange(lo, hi)) == calls_of_fields(fills(b, lo, hi, t)),
    decreases hi - lo,
{
    let r = b.subrange(lo, hi);
    let x = fills(b, lo, hi, t);
    if lo < hi {
        fills_calls_in_order(b, lo, hi - 1, t);
        assert(r.drop_last() =~= b.subrange(lo, hi - 1));
        assert(x.drop_last() =~= fills(b, lo, hi - 1, t));
        assert(r.last() == b[hi - 1]);
        assert(fill(b[hi - 1], t) is Some);
        fill_calls_in_order(b[hi - 1], t);
    } else {
        assert(r =~= Seq::<StmtV>::empty());
        assert(x =~= Seq::<FieldV>::empty());
        assert(call_order(r) =~= calls_of_fields(x));
    }
}

proof fn folded_at_call_order(b: Block, i: int)
    requires
        0 <= i < b.len(),
    ensures
        folded_at(b, i) matches Some(c) ==> call_order(c) == call_order(b),
{
    if let Some(c) = folded_at(b, i) {
        let f = calls_first();
        let g = calls_last();
        let (t, fs) = table_init(b[i])->Some_0;
        let end = fills_end(b, i + 1, t);
        let more = fills(b, i + 1, end, t);
        let e = ExprV::Table(literal(fs, more));
        let s = with_value(b[i], e);
        fills_end_bounds(b, i + 1, t);
        fills_end_fills(b, i + 1, t);
        fills_calls_in_order(b, i + 1, end, t);
        literal_calls_in_order(fs, more);
        store_calls(b[i]);
        assert(sole_assign(s) == Some((t, e)));
        store_calls(s);
        trace_one(f, g, s);
        trace_one(f, g, b[i]);
        let old_part = b.subrange(i, end);
        assert(old_part =~= seq![b[i]] + b.subrange(i + 1, end));
        trace_concat(f, g, seq![b[i]], b.subrange(i + 1, end));
        splice_traces(f, g, b, i, end, only(s));
    }
}

proof fn folded_from_call_order(b: Block, i: int)
    requires
        0 <= i,
    ensures
        first_from(FoldFills, b, i) matches Some(c) ==> call_order(c) == call_order(b),
    decreases b.len() - i,
{
    if i < b.len() {
        folded_at_call_order(b, i);
        folded_from_call_order(b, i + 1);
    }
}

/// Folding fills into table literals keeps the calls, and the order in which they are made.
pub proof fn folding_keeps_call_order(b: Block)
    ensures
        call_order(everywhere(Scan(FoldFills), b)) == call_order(b),
{
    let p = Scan(FoldFills);
    let f = calls_first();
    let g = calls_last();
    assert forall|c: Block| (#[trigger] p.step(c)) matches Some(d) ==> trace(f, g, d) == trace(f, g, c) by {
        folded_from_call_order(c, 0);
    }
    calls_list_outside();
    everywhere_traces(p, f, g, b);
}

proof fn moved_at_call_order(b: Block, i: int, cont: Seq<Block>, last: bool, protected: Seq<Text>)
    requires
        0 <= i,
        i + 1 < b.len(),
    ensures
        moved_at(b, i, cont, last, protected) matches Some(c) ==> call_order(c) == call_order(b),
{
    if let Some(c) = moved_at(b, i, cont, last, protected) {
        let f = calls_first();
        let g = calls_last();
        let (n, fs) = table_init(b[i])->Some_0;
        let e = ExprV::Table(fs);
        let s = with_value(b[i + 1], e);
        store_calls(b[i]);
        if let StmtV::Assign { targets, values } = b[i + 1] {
            assert(values =~= seq![ExprV::Var(n)]);
            calls_of_one(ExprV::Var(n));
            calls_of_one(e);
            assert(calls_of(ExprV::Var(n)) =~= Seq::<CallV>::empty());
            if pure_fields(fs) {
                pure_fields_make_no_call(fs);
            } else {
                pure_all_makes_no_call(targets);
            }
            assert(trace_stmt(f, g, b[i + 1]) =~= calls_of_all(targets));
            assert(trace_stmt(f, g, s) =~= calls_of_all(targets) + calls_of(e));
            trace_one(f, g, s);
            trace_one(f, g, b[i]);
            trace_one(f, g, b[i + 1]);
            let old_part = b.subrange(i, i + 2);
            assert(old_part =~= seq![b[i]] + seq![b[i + 1]]);
            trace_concat(f, g, seq![b[i]], seq![b[i + 1]]);
            assert(trace(f, g, only(s)) =~= trace(f, g, old_part));
            splice_traces(f, g, b, i, i + 2, only(s));
        }
    }
}

proof fn moved_from_call_order(b: Block, i: int, cont: Seq<Block>, last: bool, protected: Seq<Text>)
    requires
        0 <= i,
    ensures
        call_order(moved_from(b, i, cont, last, protected)) == call_order(b),
    decreases b.len() - i,
{
    if i + 1 < b.len() {
        moved_at_call_order(b, i, cont, last, protected);
        match moved_at(b, i, cont, last, protected) {
            Some(c) => {
                if c.len() < b.len() {
                    moved_from_call_order(c, i, cont, last, protected);
                }
            },
            None => {
                moved_from_call_order(b, i + 1, cont, last, protected);
            },
        }
    }
}

/// Moving table literals into the assignments that store them keeps the calls, and the order in
/// which they are made.
pub proof fn moving_keeps_call_order(b: Block, cont: Seq<Block>, last: bool, protected: Seq<Text>)
    ensures
        call_order(literals_moved(b, cont, last, protected)) == call_order(b),
    decreases b, 1nat, 0int,
{
    let c = literals_moved_inside(b, cont, last, protected);
    moving_inside_call_order(b, b.len() as int, cont, last, protected);
    moved_from_call_order(c, 0, cont, last, protected);
    assert(c.take(b.len() as int) =~= c);
    assert(b.take(b.len() as int) =~= b);
}

proof fn moving_inside_call_order(b: Block, k: int, cont: Seq<Block>, last: bool, protected: Seq<Text>)
    requires
        0 <= k <= b.len(),
    ensures
        call_order(literals_moved_inside(b, cont, last, protected).take(k)) == call_order(b.take(k)),
    decreases b, 0nat, k,
{
    let c = literals_moved_inside(b, cont, last, protected);
    if k > 0 {
        let rest = seq![b.subrange(k, b.len() as int)] + cont;
        let s = b[k - 1];
        let t = c[k - 1];
        moving_inside_call_order(b, k - 1, cont, last, protected);
        assert(t == literals_moved_in(s, rest, last, protected));
        calls_list_outside();
        match s {
            StmtV::If { then_body, else_body, .. } => {
                moving_keeps_call_order(then_body, rest, last, protected);
                moving_keeps_call_order(else_body, rest, last, protected);
                assert(same_outside(s, t));
            },
            StmtV::Loop { body, .. } => {
                moving_keeps_call_order(body, Seq::empty(), true, protected);
                assert(same_outside(s, t));
            },
            _ => {},
        }
        trace_take(calls_first(), calls_last(), b, c, k);
    } else {
        assert(c.take(0) =~= b.take(0));
    }
}

// ---- markers -----------------------------------------------------------------------------------------------------

proof fn without_markers_call_order(b: Block, i: int, cont: Seq<Block>, protected: Seq<Text>)
    requires
        0 <= i <= b.len(),
    ensures
        call_order(without_markers(b, i, cont, protected)) == call_order(b.skip(i)),
    decreases b.len() - i,
{
    let f = calls_first();
    let g = calls_last();
    if i < b.len() {
        let rest = without_markers(b, i + 1, cont, protected);
        without_markers_call_order(b, i + 1, cont, protected);
        assert(b.skip(i) =~= seq![b[i]] + b.skip(i + 1));
        trace_concat(f, g, seq![b[i]], b.skip(i + 1));
        trace_concat(f, g, seq![b[i]], rest);
        if dead_marker(b, i, cont, protected) {
            store_calls(b[i]);
            pure_makes_no_call(sole_assign(b[i])->Some_0.1);
            trace_one(f, g, b[i]);
            assert(call_order(b.skip(i)) =~= call_order(b.skip(i + 1)));
        }
    } else {
        assert(b.skip(i) =~= Seq::<StmtV>::empty());
    }
}

/// Removing markers keeps the calls, and the order in which they are made.
pub proof fn markers_keep_call_order(b: Block, cont: Seq<Block>, protected: Seq<Text>)
    ensures
        call_order(markers_removed(b, cont, protected)) == call_order(b),
    decreases b, 1nat, 0int,
{
    let c = markers_removed_inside(b, cont, protected);
    markers_inside_call_order(b, b.len() as int, cont, protected);
    without_markers_call_order(c, 0, cont, protected);
    assert(c.skip(0) =~= c);
    assert(c.take(b.len() as int) =~= c);
    assert(b.take(b.len() as int) =~= b);
}

proof fn markers_inside_call_order(b: Block, k: int, cont: Seq<Block>, protected: Seq<Text>)
    requires
        0 <= k <= b.len(),
    ensures
        call_order(markers_removed_inside(b, cont, protected).take(k)) == call_order(b.take(k)),
    decreases b, 0nat, k,
{
    let c = markers_removed_inside(b, cont, protected);
    if k > 0 {
        let rest = seq![b.subrange(k, b.len() as int)] + cont;
        let s = b[k - 1];
        let t = c[k - 1];
        markers_inside_call_order(b, k - 1, cont, protected);
        assert(t == markers_removed_in(s, rest, protected));
        calls_list_outside();
        match s {
            StmtV::If { then_body, else_body, .. } => {
                markers_keep_call_order(then_body, rest, protected);
                markers_keep_call_order(else_body, rest, protected);
                assert(same_outside(s, t));
            },
            StmtV::Loop { body, .. } => {
                markers_keep_call_order(body, Seq::empty(), protected);
                assert(same_outside(s, t));
            },
            _ => {},
        }
        trace_take(calls_first(), calls_last(), b, c, k);
    } else {
        assert(c.take(0) =~= b.take(0));
    }
}

// ---- values carried round a loop ---------------------------------------------------------------------------------

proof fn carried_call_order(s: StmtV, next: StmtV)
    ensures
        carried(s, next) matches Some(part) ==> call_order(part) == call_order(seq![s, next]),
{
    if let Some(part) = carried(s, next) {
        let f = calls_first();
        let g = calls_last();
        let (n, e) = carried_call(s)->Some_0;
        let test = part[1];
        trace_one(f, g, s);
        trace_one(f, g, next);
        trace_one(f, g, part[0]);
        trace_one(f, g, test);
        assert(part =~= seq![part[0]] + seq![test]);
        assert(seq![s, next] =~= seq![s] + seq![next]);
        trace_concat(f, g, seq![part[0]], seq![test]);
        trace_concat(f, g, seq![s], seq![next]);
        store_calls(part[0]);
        assert(sole_assign(part[0]) == Some((n, e)));
        calls_of_one(ExprV::Nil);
        assert(calls_of(ExprV::Nil) =~= Seq::<CallV>::empty());
        assert(calls_of(ExprV::Var(n)) =~= Seq::<CallV>::empty());
        assert(trace_stmt(f, g, next) =~= Seq::<CallV>::empty());
        trace_one(f, g, return_nil());
        trace_one(f, g, StmtV::Continue);
        assert(trace_stmt(f, g, StmtV::Continue) =~= Seq::<CallV>::empty());
        let nothing: Block = Seq::empty();
        assert(trace(f, g, nothing) =~= Seq::<CallV>::empty());
        if let StmtV::If { cond, then_body, else_body } = s {
            assert(else_body =~= nothing);
            assert(calls_of(cond) =~= calls_of(e));
            assert(trace_stmt(f, g, s) =~= calls_of(e));
        }
        if let StmtV::If { cond, then_body, else_body } = test {
            assert(else_body =~= nothing);
            assert(then_body =~= seq![return_nil()]);
            assert(calls_of(cond) =~= Seq::<CallV>::empty());
            assert(trace_stmt(f, g, test) =~= Seq::<CallV>::empty());
        }
        assert(call_order(part) =~= call_order(seq![s, next]));
    }
}

proof fn calls_carried_call_order(b: Block, i: int)
    requires
        0 <= i <= b.len(),
    ensures
        call_order(calls_carried(b, i)) == call_order(b.skip(i)),
    decreases b.len() - i,
{
    let f = calls_first();
    let g = calls_last();
    if i >= b.len() {
        assert(b.skip(i) =~= Seq::<StmtV>::empty());
    } else if i + 1 < b.len() && carried(b[i], b[i + 1]) is Some {
        let part = carried(b[i], b[i + 1])->Some_0;
        calls_carried_call_order(b, i + 2);
        carried_call_order(b[i], b[i + 1]);
        assert(b.skip(i) =~= seq![b[i], b[i + 1]] + b.skip(i + 2));
        trace_concat(f, g, part, calls_carried(b, i + 2));
        trace_concat(f, g, seq![b[i], b[i + 1]], b.skip(i + 2));
    } else {
        calls_carried_call_order(b, i + 1);
        assert(b.skip(i) =~= seq![b[i]] + b.skip(i + 1));
        trace_concat(f, g, seq![b[i]], b.skip(i + 1));
        trace_concat(f, g, seq![b[i]], calls_carried(b, i + 1));
    }
}

/// Recovering a variable that a loop passes through a callback keeps the calls, and the order in
/// which they are made.
pub proof fn carried_calls_keep_call_order(b: Block)
    ensures
        call_order(throughout(CarriedCalls, b)) == call_order(b),
    decreases b, 1nat, 0int,
{
    let c = within(CarriedCalls, b);
    carried_within_call_order(b, b.len() as int);
    calls_carried_call_order(c, 0);
    assert(c.skip(0) =~= c);
    assert(c.take(b.len() as int) =~= c);
    assert(b.take(b.len() as int) =~= b);
}

proof fn carried_within_call_order(b: Block, k: int)
    requires
        0 <= k <= b.len(),
    ensures
        call_order(within(CarriedCalls, b).take(k)) == call_order(b.take(k)),
    decreases b, 0nat, k,
{
    let c = within(CarriedCalls, b);
    if k > 0 {
        let s = b[k - 1];
        let t = c[k - 1];
        carried_within_call_order(b, k - 1);
        assert(t == within_stmt(CarriedCalls, s));
        calls_list_outside();
        match s {
            StmtV::If { then_body, else_body, .. } => {
                carried_calls_keep_call_order(then_body);
                carried_calls_keep_call_order(else_body);
                assert(same_outside(s, t));
            },
            StmtV::Loop { body, .. } => {
                carried_calls_keep_call_order(body);
                assert(same_outside(s, t));
            },
            _ => {},
        }
        trace_take(calls_first(), calls_last(), b, c, k);
    } else {
        assert(c.take(0) =~= b.take(0));
    }
}

// ---- conditions --------------------------------------------------------------------------------------------------

/// Whether, in `e`, simplifying the function of a call changes nothing about whether the call only
/// builds a value.
pub open spec fn calls_stay(e: ExprV) -> bool
    decreases e,
{
    match e {
        ExprV::Index(t, k) => calls_stay(*t) && calls_stay(*k),
        ExprV::Field(t, _) => calls_stay(*t),
        ExprV::Call(f, args) => calls_stay(*f) && calls_stay_all(args) && builds_value(simplified(*f).0) == builds_value(
            *f,
        ),
        ExprV::MethodCall(o, _, args) => calls_stay(*o) && calls_stay_all(args),
        ExprV::Unary(_, a) => calls_stay(*a),
        ExprV::Binary(_, a, b) => calls_stay(*a) && calls_stay(*b),
        ExprV::Table(fs) => calls_stay_fields(fs),
        _ => true,
    }
}

pub open spec fn calls_stay_all(es: Seq<ExprV>) -> bool
    decreases es,
{
    es.len() == 0 || (calls_stay_all(es.drop_last()) && calls_stay(es.last()))
}

pub open spec fn calls_stay_fields(fs: Seq<FieldV>) -> bool
    decreases fs,
{
    fs.len() == 0 || (calls_stay_fields(fs.drop_last()) && match fs.last() {
        FieldV::Item(e) => calls_stay(e),
        FieldV::Named(_, e) => calls_stay(e),
        FieldV::Keyed(k, e) => calls_stay(k) && calls_stay(e),
    })
}

/// Whether the same holds of the expressions of `s` itself.
pub open spec fn own_calls_stay(s: StmtV) -> bool {
    match s {
        StmtV::Local { values, .. } => calls_stay_all(values),
        StmtV::Assign { values, .. } => calls_stay_all(values),
        StmtV::Call(e) => calls_stay(e),
        StmtV::Return(es) => calls_stay_all(es),
        StmtV::If { cond, .. } => calls_stay(cond),
        StmtV::Loop { head: LoopHead::While(c), .. } => calls_stay(c),
        StmtV::Loop { head: LoopHead::Repeat(c), .. } => calls_stay(c),
        StmtV::Loop { head: LoopHead::Numeric { start, limit, step, .. }, .. } => calls_stay(start) && calls_stay(limit)
            && (step matches Some(e) ==> calls_stay(e)),
        StmtV::Loop { head: LoopHead::Generic { exprs, .. }, .. } => calls_stay_all(exprs),
        _ => true,
    }
}

/// Weighs the statements of which it does not hold.
pub open spec fn call_changed() -> spec_fn(StmtV) -> nat {
    |s: StmtV| one_if(!own_calls_stay(s))
}

proof fn calls_of_concat(xs: Seq<ExprV>, ys: Seq<ExprV>)
    ensures
        calls_of_all(xs + ys) == calls_of_all(xs) + calls_of_all(ys),
    decreases ys.len(),
{
    if ys.len() == 0 {
        assert(xs + ys =~= xs);
        assert(calls_of_all(xs) + calls_of_all(ys) =~= calls_of_all(xs));
    } else {
        calls_of_concat(xs, ys.drop_last());
        assert((xs + ys).drop_last() =~= xs + ys.drop_last());
        assert((xs + ys).last() == ys.last());
        assert(calls_of_all(xs + ys) =~= calls_of_all(xs) + calls_of_all(ys));
    }
}

proof fn operands_calls(e: ExprV, op: Text)
    ensures
        calls_of_all(operands(e, op)) == calls_of(e),
    decreases e,
{
    match e {
        ExprV::Binary(o, a, b) => if o == op {
            operands_calls(*a, op);
            operands_calls(*b, op);
            calls_of_concat(operands(*a, op), operands(*b, op));
        } else {
            calls_of_one(e);
        },
        _ => {
            calls_of_one(e);
        },
    }
}

proof fn distinct_calls(es: Seq<ExprV>)
    ensures
        calls_of_all(distinct(es)) == calls_of_all(es),
    decreases es.len(),
{
    if es.len() > 0 {
        let front = distinct(es.drop_last());
        distinct_calls(es.drop_last());
        if pure(es.last()) && front.contains(es.last()) {
            pure_makes_no_call(es.last());
            assert(calls_of_all(es) =~= calls_of_all(es.drop_last()));
        } else {
            assert(distinct(es).drop_last() =~= front);
        }
    }
}

proof fn chain_calls(op: Text, es: Seq<ExprV>)
    ensures
        calls_of(chain(op, es)) == calls_of_all(es),
    decreases es.len(),
{
    if es.len() == 0 {
        assert(calls_of(ExprV::Bool(true)) =~= Seq::<CallV>::empty());
    } else if es.len() == 1 {
        assert(es =~= seq![es[0]]);
        calls_of_one(es[0]);
    } else {
        chain_calls(op, es.drop_last());
    }
}

proof fn simplified_calls(e: ExprV)
    requires
        calls_stay(e),
    ensures
        calls_of(simplified(e).0) == calls_of(e),
    decreases e,
{
    match e {
        ExprV::Index(t, k) => {
            simplified_calls(*t);
            simplified_calls(*k);
        },
        ExprV::Field(t, _) => {
            simplified_calls(*t);
        },
        ExprV::Call(f, args) => {
            simplified_calls(*f);
            simplified_all_calls(args);
        },
        ExprV::MethodCall(o, _, args) => {
            simplified_calls(*o);
            simplified_all_calls(args);
        },
        ExprV::Unary(op, a) => {
            simplified_calls(*a);
            let x = simplified(*a).0;
            if let Some(y) = not_operand(x) {
                pure_makes_no_call(y);
                assert(calls_of(ExprV::Nil) =~= Seq::<CallV>::empty());
                assert(calls_of(x) =~= Seq::<CallV>::empty());
            }
        },
        ExprV::Binary(op, a, b) => {
            simplified_calls(*a);
            simplified_calls(*b);
            let x = binary(op, simplified(*a).0, simplified(*b).0);
            assert(calls_of(x) == calls_of(e));
            operands_calls(x, op);
            distinct_calls(operands(x, op));
            chain_calls(op, distinct(operands(x, op)));
        },
        ExprV::Table(fs) => {
            simplified_fields_calls(fs);
        },
        _ => {},
    }
}

proof fn simplified_all_calls(es: Seq<ExprV>)
    requires
        calls_stay_all(es),
    ensures
        calls_of_all(simplified_all(es).0) == calls_of_all(es),
        simplified_all(es).0.len() == es.len(),
    decreases es,
{
    if es.len() > 0 {
        simplified_all_calls(es.drop_last());
        simplified_calls(es.last());
        let r = simplified_all(es).0;
        assert(r.drop_last() =~= simplified_all(es.drop_last()).0);
        assert(r.last() == simplified(es.last()).0);
    }
}

proof fn simplified_fields_calls(fs: Seq<FieldV>)
    requires
        calls_stay_fields(fs),
    ensures
        calls_of_fields(simplified_fields(fs).0) == calls_of_fields(fs),
    decreases fs,
{
    if fs.len() > 0 {
        simplified_fields_calls(fs.drop_last());
        match fs.last() {
            FieldV::Item(e) => {
                simplified_calls(e);
            },
            FieldV::Named(_, e) => {
                simplified_calls(e);
            },
            FieldV::Keyed(k, e) => {
                simplified_calls(k);
                simplified_calls(e);
            },
        }
        let r = simplified_fields(fs).0;
        assert(r.drop_last() =~= simplified_fields(fs.drop_last()).0);
        assert(r.last() == simplified_field(fs.last()).0);
        assert(calls_of_field(r.last()) == calls_of_field(fs.last()));
    }
}

proof fn own_simplified_calls(s: StmtV)
    requires
        own_calls_stay(s),
    ensures
        calls_first()(stmt_simplified(s)) == calls_first()(s),
        calls_last()(stmt_simplified(s)) == calls_last()(s),
{
    match s {
        StmtV::Local { values, .. } => {
            simplified_all_calls(values);
        },
        StmtV::Assign { values, .. } => {
            simplified_all_calls(values);
        },
        StmtV::Call(e) => {
            simplified_calls(e);
        },
        StmtV::Return(es) => {
            simplified_all_calls(es);
        },
        StmtV::If { cond, .. } => {
            simplified_calls(cond);
        },
        StmtV::Loop { head, .. } => {
            match head {
                LoopHead::While(c) => {
                    simplified_calls(c);
                },
                LoopHead::Repeat(c) => {
                    simplified_calls(c);
                },
                LoopHead::Numeric { start, limit, step, .. } => {
                    simplified_calls(start);
                    simplified_calls(limit);
                    if let Some(e) = step {
                        simplified_calls(e);
                    }
                },
                LoopHead::Generic { exprs, .. } => {
                    simplified_all_calls(exprs);
                },
            }
        },
        _ => {},
    }
}

proof fn exprs_simplified_call_order(b: Block)
    requires
        deep(call_changed(), b) == 0,
    ensures
        call_order(exprs_simplified(b)) == call_order(b),
    decreases b, 2nat, 0int,
{
    let c = exprs_simplified(b);
    first_simplified_call_order(b, b.len() as int);
    assert(c.take(b.len() as int) =~= c);
    assert(b.take(b.len() as int) =~= b);
}

proof fn first_simplified_call_order(b: Block, k: int)
    requires
        deep(call_changed(), b) == 0,
        0 <= k <= b.len(),
    ensures
        call_order(exprs_simplified(b).take(k)) == call_order(b.take(k)),
    decreases b, 1nat, k,
{
    let c = exprs_simplified(b);
    if k > 0 {
        let s = b[k - 1];
        first_simplified_call_order(b, k - 1);
        deep_at(call_changed(), b, k - 1);
        own_simplified_calls(s);
        match s {
            StmtV::If { then_body, else_body, .. } => {
                exprs_simplified_call_order(then_body);
                exprs_simplified_call_order(else_body);
            },
            StmtV::Loop { body, .. } => {
                exprs_simplified_call_order(body);
            },
            _ => {},
        }
        assert(c[k - 1] == stmt_simplified(s));
        trace_take(calls_first(), calls_last(), b, c, k);
    } else {
        assert(c.take(0) =~= b.take(0));
    }
}

proof fn nested_if_call_order(b: Block, i: int)
    requires
        0 <= i,
    ensures
        first_from(NestedIf, b, i) matches Some(c) ==> call_order(c) == call_order(b),
    decreases b.len() - i,
{
    if i < b.len() {
        let f = calls_first();
        let g = calls_last();
        if NestedIf.at(b, i) is Some {
            if let StmtV::If { cond, then_body, else_body } = b[i] {
                if let StmtV::If { then_body: inner, else_body: e, .. } = then_body[0] {
                    let s = StmtV::If { cond, then_body: inner, else_body };
                    pure_makes_no_call(cond);
                    assert(then_body =~= seq![then_body[0]]);
                    trace_one(f, g, then_body[0]);
                    trace_one(f, g, s);
                    trace_one(f, g, b[i]);
                    assert(e =~= Seq::<StmtV>::empty());
                    assert(else_body =~= Seq::<StmtV>::empty());
                    assert(trace(f, g, e) =~= Seq::<CallV>::empty());
                    assert(trace_stmt(f, g, then_body[0]) =~= trace(f, g, inner));
                    assert(trace_stmt(f, g, b[i]) =~= trace(f, g, inner));
                    assert(trace_stmt(f, g, s) =~= trace(f, g, inner));
                    assert(b.subrange(i, i + 1) =~= seq![b[i]]);
                    splice_traces(f, g, b, i, i + 1, only(s));
                }
            }
        }
        nested_if_call_order(b, i + 1);
    }
}

/// Simplifying conditions keeps the calls, and the order in which they are made, where no call is
/// of an `and` or `or` that comes down to a constructor.
pub proof fn conditions_keep_call_order(b: Block)
    requires
        deep(call_changed(), b) == 0,
    ensures
        call_order(everywhere(Scan(NestedIf), exprs_simplified(b))) == call_order(b),
{
    let p = Scan(NestedIf);
    let f = calls_first();
    let g = calls_last();
    assert forall|c: Block| (#[trigger] p.step(c)) matches Some(d) ==> trace(f, g, d) == trace(f, g, c) by {
        nested_if_call_order(c, 0);
    }
    calls_list_outside();
    exprs_simplified_call_order(b);
    everywhere_traces(p, f, g, exprs_simplified(b));
}

// ---- limits of loops ---------------------------------------------------------------------------------------------

/// Taking the last assignment of a `repeat` loop before `return vs` into its condition keeps the
/// calls of the loop, and the order in which they are made, but for those of a `return vs` inside
/// the loop, which makes way for the one behind it.
pub proof fn limits_keep_call_order(body: Block, cond: ExprV, vs: Seq<ExprV>, protected: &NameSet)
    ensures
        until_inlined(body, cond, vs, Some(protected)) matches Some(s) ==> {
            let before = call_order(seq![StmtV::Loop { head: LoopHead::Repeat(cond), body }]);
            let after = call_order(seq![s]);
            before == after || exists|k: int|
                0 <= k <= after.len() && before == #[trigger] after.take(k) + calls_of_all(vs) + after.skip(k)
        },
{
    if let Some(s) = until_inlined(body, cond, vs, Some(protected)) {
        let f = calls_first();
        let g = calls_last();
        let old_loop = StmtV::Loop { head: LoopHead::Repeat(cond), body };
        let rest = body.drop_last();
        let (n, e) = sole_assign(body.last())->Some_0;
        let (_, c) = temp_condition(cond, e)->Some_0;
        let other = *c->Binary_1;
        trace_one(f, g, old_loop);
        trace_one(f, g, s);
        store_calls(body.last());
        assert(calls_of(ExprV::Var(n)) =~= Seq::<CallV>::empty());
        assert(calls_of(cond) =~= calls_of(other));
        if pure(e) {
            pure_makes_no_call(e);
        } else {
            pure_makes_no_call(other);
        }
        assert(calls_of(c) =~= calls_of(e) + calls_of(cond));
        let first = call_order(rest);
        let before_all = trace_stmt(f, g, old_loop);
        assert(before_all =~= first + calls_of(e) + calls_of(cond));
        if rest.len() > 0 && returns_values(rest.last(), vs) {
            let d = return_guard(rest.last())->Some_0.0;
            let lead = call_order(rest.drop_last());
            let after = trace_stmt(f, g, s);
            if let StmtV::If { then_body, else_body, .. } = rest.last() {
                assert(then_body =~= seq![StmtV::Return(vs)]);
                assert(else_body =~= Seq::<StmtV>::empty());
                trace_one(f, g, StmtV::Return(vs));
                assert(trace(f, g, else_body) =~= Seq::<CallV>::empty());
                assert(trace_stmt(f, g, StmtV::Return(vs)) =~= calls_of_all(vs));
                assert(trace_stmt(f, g, rest.last()) =~= calls_of(d) + calls_of_all(vs));
            }
            assert(first =~= lead + calls_of(d) + calls_of_all(vs));
            assert(after =~= lead + calls_of(d) + calls_of(e) + calls_of(cond));
            let k = (lead + calls_of(d)).len() as int;
            assert(after.take(k) =~= lead + calls_of(d));
            assert(after.skip(k) =~= calls_of(e) + calls_of(cond));
            assert(before_all =~= after.take(k) + calls_of_all(vs) + after.skip(k));
        } else {
            assert(trace_stmt(f, g, s) =~= before_all);
        }
    }
}

// ---- inlining ----------------------------------------------------------------------------------------------------

/// Whether `s` stores, under a single name, a datatype or one of its constructors, or stores under
/// the name of a datatype. What such a store holds decides, once it is inlined, whether a call only
/// builds a value.
pub open spec fn names_constructor(s: StmtV) -> bool {
    sole_assign(s) matches Some((n, v)) && (datatype(n) || builds_value(v) || (v matches ExprV::Var(m) && datatype(m)))
}

pub open spec fn constructor_named() -> spec_fn(StmtV) -> nat {
    |s: StmtV| one_if(names_constructor(s))
}

/// Whether putting `v` in the place of `n` changes no call into one that only builds a value, nor
/// back.
pub open spec fn plain(n: Text, v: ExprV) -> bool {
    &&& !n.contains('.')
    &&& !datatype(n)
    &&& !builds_value(v)
    &&& !(v matches ExprV::Var(m) && datatype(m))
}

pub proof fn dotless_path(n: Text, i: int)
    requires
        !n.contains('.'),
        0 <= i <= n.len(),
    ensures
        dot_from(n, i) == n.len(),
    decreases n.len() - i,
{
    if i < n.len() {
        assert(n.contains(n[i]));
        dotless_path(n, i + 1);
    }
}

proof fn dotted_unread(e: ExprV, n: Text)
    requires
        n.contains('.'),
    ensures
        expr_reads(e, n) == 0,
    decreases e,
{
    match e {
        ExprV::Index(t, k) => {
            dotted_unread(*t, n);
            dotted_unread(*k, n);
        },
        ExprV::Field(t, _) => {
            dotted_unread(*t, n);
        },
        ExprV::Call(f, args) => {
            dotted_unread(*f, n);
            dotted_unread_all(args, n);
        },
        ExprV::MethodCall(o, _, args) => {
            dotted_unread(*o, n);
            dotted_unread_all(args, n);
        },
        ExprV::Unary(_, a) => {
            dotted_unread(*a, n);
        },
        ExprV::Binary(_, a, b) => {
            dotted_unread(*a, n);
            dotted_unread(*b, n);
        },
        ExprV::Table(fs) => {
            dotted_unread_fields(fs, n);
        },
        _ => {},
    }
}

proof fn dotted_unread_all(es: Seq<ExprV>, n: Text)
    requires
        n.contains('.'),
    ensures
        exprs_reads(es, n) == 0,
    decreases es,
{
    if es.len() > 0 {
        dotted_unread_all(es.drop_last(), n);
        dotted_unread(es.last(), n);
    }
}

proof fn dotted_unread_fields(fs: Seq<FieldV>, n: Text)
    requires
        n.contains('.'),
    ensures
        fields_reads(fs, n) == 0,
    decreases fs,
{
    if fs.len() > 0 {
        dotted_unread_fields(fs.drop_last(), n);
        match fs.last() {
            FieldV::Item(e) => {
                dotted_unread(e, n);
            },
            FieldV::Named(_, e) => {
                dotted_unread(e, n);
            },
            FieldV::Keyed(k, e) => {
                dotted_unread(k, n);
                dotted_unread(e, n);
            },
        }
        assert(field_reads(fs.last(), n) == 0);
    }
}

pub proof fn read_is_dotless(s: StmtV, n: Text)
    requires
        shallow_reads(s, n) > 0,
        !reads_in_targets(s, n),
    ensures
        !n.contains('.'),
{
    if n.contains('.') {
        match s {
            StmtV::Local { values, .. } => {
                dotted_unread_all(values, n);
            },
            StmtV::Assign { values, .. } => {
                dotted_unread_all(values, n);
            },
            StmtV::Call(e) => {
                dotted_unread(e, n);
            },
            StmtV::Return(es) => {
                dotted_unread_all(es, n);
            },
            StmtV::If { cond, .. } => {
                dotted_unread(cond, n);
            },
            StmtV::Loop { head: LoopHead::Numeric { start, limit, step, .. }, .. } => {
                dotted_unread(start, n);
                dotted_unread(limit, n);
                if let Some(e) = step {
                    dotted_unread(e, n);
                }
            },
            StmtV::Loop { head: LoopHead::Generic { exprs, .. }, .. } => {
                dotted_unread_all(exprs, n);
            },
            _ => {},
        }
    }
}

/// A plain value changes no call into one that only builds a value, nor back.
pub proof fn replaced_builds(f: ExprV, n: Text, v: ExprV)
    requires
        plain(n, v),
    ensures
        builds_value(replaced(f, n, v)) == builds_value(f),
{
    dotless_path(n, 0);
    match f {
        ExprV::Field(t, c) => {
            assert(replaced(f, n, v) == ExprV::Field(Box::new(replaced(*t, n, v)), c));
            if let ExprV::Var(m) = *t {
            } else {
                assert(!(replaced(*t, n, v) is Var));
            }
        },
        _ => {},
    }
}

pub proof fn head_is_read(e: ExprV, n: Text)
    requires
        expr_head(e) == Some(n),
        !n.contains('.'),
    ensures
        expr_reads(e, n) > 0,
    decreases e,
{
    match e {
        ExprV::Field(t, _) => {
            head_is_read(*t, n);
        },
        ExprV::Index(t, _) => {
            head_is_read(*t, n);
        },
        ExprV::MethodCall(o, _, _) => {
            head_is_read(*o, n);
        },
        ExprV::Call(f, _) => {
            head_is_read(*f, n);
        },
        ExprV::Binary(_, a, _) => {
            head_is_read(*a, n);
        },
        ExprV::Unary(_, a) => {
            head_is_read(*a, n);
        },
        _ => {},
    }
}

/// A value that is evaluated first makes its calls first.
proof fn head_replaced_calls(e: ExprV, n: Text, v: ExprV)
    requires
        plain(n, v),
        expr_head(e) == Some(n),
    ensures
        calls_of(replaced(e, n, v)) == calls_of(v) + calls_of(e),
    decreases e,
{
    head_is_read(e, n);
    match e {
        ExprV::Field(t, _) => {
            head_replaced_calls(*t, n, v);
        },
        ExprV::Index(t, _) => {
            head_is_read(*t, n);
            head_replaced_calls(*t, n, v);
        },
        ExprV::MethodCall(o, _, _) => {
            head_is_read(*o, n);
            head_replaced_calls(*o, n, v);
        },
        ExprV::Call(f, _) => {
            head_is_read(*f, n);
            head_replaced_calls(*f, n, v);
            replaced_builds(*f, n, v);
        },
        ExprV::Binary(_, a, _) => {
            head_is_read(*a, n);
            head_replaced_calls(*a, n, v);
        },
        ExprV::Unary(_, a) => {
            head_replaced_calls(*a, n, v);
        },
        _ => {},
    }
    assert(calls_of(replaced(e, n, v)) =~= calls_of(v) + calls_of(e));
}

proof fn head_replaced_in_calls(es: Seq<ExprV>, n: Text, v: ExprV)
    requires
        plain(n, v),
        first_head(es) == Some(n),
    ensures
        calls_of_all(replaced_in(es, n, v)) == calls_of(v) + calls_of_all(es),
        exprs_reads(es, n) > 0,
    decreases es.len(),
{
    let front = es.drop_last();
    let r = replaced_in(es, n, v);
    if es.len() == 1 {
        assert(exprs_reads(front, n) == 0);
        head_is_read(es[0], n);
        head_replaced_calls(es[0], n, v);
        assert(r.drop_last() =~= front);
        assert(r.last() == replaced(es.last(), n, v));
        assert(calls_of_all(front) =~= Seq::<CallV>::empty());
    } else {
        assert(front[0] == es[0]);
        head_replaced_in_calls(front, n, v);
        assert(r.drop_last() =~= replaced_in(front, n, v));
        assert(r.last() == es.last());
    }
    assert(calls_of_all(r) =~= calls_of(v) + calls_of_all(es));
}

/// A value that makes no call changes no list of calls.
proof fn replaced_calls(e: ExprV, n: Text, v: ExprV)
    requires
        plain(n, v),
        calls_of(v) == Seq::<CallV>::empty(),
    ensures
        calls_of(replaced(e, n, v)) == calls_of(e),
    decreases e,
{
    match e {
        ExprV::Index(t, k) => {
            replaced_calls(*t, n, v);
            replaced_calls(*k, n, v);
        },
        ExprV::Field(t, _) => {
            replaced_calls(*t, n, v);
        },
        ExprV::Call(f, args) => {
            replaced_calls(*f, n, v);
            replaced_builds(*f, n, v);
            replaced_in_calls(args, n, v);
            replaced_in_len(args, n, v);
        },
        ExprV::MethodCall(o, _, args) => {
            replaced_calls(*o, n, v);
            replaced_in_calls(args, n, v);
            replaced_in_len(args, n, v);
        },
        ExprV::Unary(_, a) => {
            replaced_calls(*a, n, v);
        },
        ExprV::Binary(_, a, b) => {
            replaced_calls(*a, n, v);
            replaced_calls(*b, n, v);
        },
        ExprV::Table(fs) => {
            replaced_in_fields_calls(fs, n, v);
        },
        _ => {},
    }
}

proof fn replaced_in_calls(es: Seq<ExprV>, n: Text, v: ExprV)
    requires
        plain(n, v),
        calls_of(v) == Seq::<CallV>::empty(),
    ensures
        calls_of_all(replaced_in(es, n, v)) == calls_of_all(es),
    decreases es,
{
    if es.len() > 0 {
        let r = replaced_in(es, n, v);
        replaced_in_calls(es.drop_last(), n, v);
        replaced_calls(es.last(), n, v);
        if exprs_reads(es.drop_last(), n) > 0 {
            assert(r.drop_last() =~= replaced_in(es.drop_last(), n, v));
        } else {
            assert(r.drop_last() =~= es.drop_last());
        }
    }
}

proof fn replaced_in_fields_calls(fs: Seq<FieldV>, n: Text, v: ExprV)
    requires
        plain(n, v),
        calls_of(v) == Seq::<CallV>::empty(),
    ensures
        calls_of_fields(replaced_in_fields(fs, n, v)) == calls_of_fields(fs),
    decreases fs,
{
    if fs.len() > 0 {
        let r = replaced_in_fields(fs, n, v);
        replaced_in_fields_calls(fs.drop_last(), n, v);
        match fs.last() {
            FieldV::Item(e) => {
                replaced_calls(e, n, v);
            },
            FieldV::Named(_, e) => {
                replaced_calls(e, n, v);
            },
            FieldV::Keyed(k, e) => {
                replaced_calls(k, n, v);
                replaced_calls(e, n, v);
            },
        }
        assert(calls_of_field(replaced_in_field(fs.last(), n, v)) == calls_of_field(fs.last()));
        if fields_reads(fs.drop_last(), n) > 0 {
            assert(r.drop_last() =~= replaced_in_fields(fs.drop_last(), n, v));
        } else {
            assert(r.drop_last() =~= fs.drop_last());
        }
    }
}

proof fn stmt_replaced_calls(s: StmtV, n: Text, v: ExprV)
    requires
        plain(n, v),
        calls_of(v) == Seq::<CallV>::empty(),
    ensures
        trace_stmt(calls_first(), calls_last(), stmt_replaced(s, n, v)) == trace_stmt(calls_first(), calls_last(), s),
{
    match s {
        StmtV::Local { values, .. } => {
            replaced_in_calls(values, n, v);
        },
        StmtV::Assign { values, .. } => {
            replaced_in_calls(values, n, v);
        },
        StmtV::Call(e) => {
            replaced_calls(e, n, v);
        },
        StmtV::Return(es) => {
            replaced_in_calls(es, n, v);
        },
        StmtV::If { cond, .. } => {
            replaced_calls(cond, n, v);
        },
        StmtV::Loop { head: LoopHead::Numeric { start, limit, step, .. }, .. } => {
            replaced_calls(start, n, v);
            replaced_calls(limit, n, v);
            if let Some(e) = step {
                replaced_calls(e, n, v);
            }
        },
        StmtV::Loop { head: LoopHead::Generic { exprs, .. }, .. } => {
            replaced_in_calls(exprs, n, v);
        },
        _ => {},
    }
}

proof fn head_stmt_replaced_calls(s: StmtV, n: Text, v: ExprV)
    requires
        plain(n, v),
        stmt_head(s) == Some(n),
    ensures
        trace_stmt(calls_first(), calls_last(), stmt_replaced(s, n, v)) == calls_of(v) + trace_stmt(
            calls_first(),
            calls_last(),
            s,
        ),
{
    match s {
        StmtV::Local { values, .. } => {
            head_replaced_in_calls(values, n, v);
        },
        StmtV::Assign { targets, values } => {
            head_replaced_in_calls(values, n, v);
            assert forall|i: int| 0 <= i < targets.len() implies #[trigger] targets[i] is Var by {}
            variables_make_no_call(targets);
        },
        StmtV::Call(e) => {
            head_replaced_calls(e, n, v);
        },
        StmtV::Return(es) => {
            head_replaced_in_calls(es, n, v);
        },
        StmtV::If { cond, .. } => {
            head_replaced_calls(cond, n, v);
        },
        _ => {},
    }
    assert(trace_stmt(calls_first(), calls_last(), stmt_replaced(s, n, v)) =~= calls_of(v) + trace_stmt(
        calls_first(),
        calls_last(),
        s,
    ));
}

/// What has no effect makes no call.
proof fn effectless_calls(s: StmtV)
    requires
        !effectful(s),
    ensures
        trace_stmt(calls_first(), calls_last(), s) == Seq::<CallV>::empty(),
{
    match s {
        StmtV::Assign { targets, values } => {
            variables_make_no_call(targets);
            pure_all_makes_no_call(values);
        },
        StmtV::Local { values, .. } => {
            pure_all_makes_no_call(values);
        },
        StmtV::Return(es) => {
            pure_all_makes_no_call(es);
        },
        _ => {},
    }
    assert(trace_stmt(calls_first(), calls_last(), s) =~= Seq::<CallV>::empty());
}

proof fn effectless_call_order(b: Block)
    requires
        forall|k: int| 0 <= k < b.len() ==> !effectful(#[trigger] b[k]),
    ensures
        call_order(b) == Seq::<CallV>::empty(),
    decreases b.len(),
{
    if b.len() > 0 {
        let front = b.drop_last();
        assert forall|k: int| 0 <= k < front.len() implies !effectful(#[trigger] front[k]) by {
            assert(front[k] == b[k]);
        }
        effectless_call_order(front);
        assert(!effectful(b[b.len() - 1]));
        effectless_calls(b.last());
    }
    assert(call_order(b) =~= Seq::<CallV>::empty());
}

proof fn stmt_replaced_names(s: StmtV, n: Text, v: ExprV)
    requires
        plain(n, v),
        !names_constructor(s),
    ensures
        !names_constructor(stmt_replaced(s, n, v)),
        deep_stmt(constructor_named(), stmt_replaced(s, n, v)) == deep_stmt(constructor_named(), s),
{
    let t = stmt_replaced(s, n, v);
    match s {
        StmtV::Local { values, .. } => {
            replaced_in_len(values, n, v);
            if values.len() == 1 {
                assert(exprs_reads(values.drop_last(), n) == 0);
                assert(replaced_in(values, n, v)[0] == replaced(values[0], n, v));
                replaced_builds(values[0], n, v);
            }
        },
        StmtV::Assign { values, .. } => {
            replaced_in_len(values, n, v);
            if values.len() == 1 {
                assert(exprs_reads(values.drop_last(), n) == 0);
                assert(replaced_in(values, n, v)[0] == replaced(values[0], n, v));
                replaced_builds(values[0], n, v);
            }
        },
        _ => {},
    }
}

proof fn inlined_at_call_order(b: Block, i: int, protected: Seq<Text>)
    requires
        0 <= i < b.len(),
        deep(constructor_named(), b) == 0,
    ensures
        inlined_at(b, i, protected) matches Some(c) ==> {
            &&& call_order(c) == call_order(b)
            &&& deep(constructor_named(), c) == 0
        },
{
    if let Some(c) = inlined_at(b, i, protected) {
        let f = calls_first();
        let g = calls_last();
        let w = constructor_named();
        let (n, v) = sole_assign(b[i])->Some_0;
        let nd = next_write(b, i + 1, n);
        next_write_bounds(b, i + 1, n);
        next_read_bounds(b, i + 1, nd, n);
        let j = next_read(b, i + 1, nd, n)->Some_0;
        let s = stmt_replaced(b[j], n, v);
        let d = b.update(j, s);
        deep_at(w, b, i);
        deep_at(w, b, j);
        read_is_dotless(b[j], n);
        assert(plain(n, v));
        stmt_replaced_names(b[j], n, v);
        assert(d =~= spec_splice(b, j, j + 1, seq![s]));
        deep_splice(w, b, j, j + 1, seq![s]);
        deep_one(w, s);
        deep_range_one(w, b, j);
        if read_once(b, i, nd, n) {
            deep_splice(w, d, i, i + 1, Seq::empty());
        }
        store_calls(b[i]);
        // The lists of the parts of the block.
        let head = b.subrange(0, i);
        let between = b.subrange(i + 1, j);
        let tail = b.subrange(j + 1, b.len() as int);
        let after = b.subrange(i + 1, b.len() as int);
        trace_at(f, g, b, i);
        trace_at(f, g, after, j - i - 1);
        assert(after.subrange(0, j - i - 1) =~= between);
        assert(after.subrange(j - i, after.len() as int) =~= tail);
        let after2 = d.subrange(i + 1, d.len() as int);
        trace_at(f, g, after2, j - i - 1);
        assert(after2.subrange(0, j - i - 1) =~= between);
        assert(after2.subrange(j - i, after2.len() as int) =~= tail);
        if pure(v) {
            pure_makes_no_call(v);
            stmt_replaced_calls(b[j], n, v);
            assert(trace(f, g, after2) == trace(f, g, after));
        } else {
            assert forall|k: int| 0 <= k < between.len() implies !effectful(#[trigger] between[k]) by {
                assert(passes(between[k], v));
            }
            effectless_call_order(between);
            head_stmt_replaced_calls(b[j], n, v);
            assert(trace(f, g, after2) =~= calls_of(v) + trace(f, g, after));
        }
        if read_once(b, i, nd, n) {
            assert(c =~= head + after2);
            trace_concat(f, g, head, after2);
        } else {
            assert(pure(v));
            assert(d.subrange(0, i) =~= head);
            trace_at(f, g, d, i);
        }
        assert(call_order(c) =~= call_order(b));
    }
}

proof fn inlined_from_call_order(b: Block, i: int, protected: Seq<Text>)
    requires
        0 <= i,
        deep(constructor_named(), b) == 0,
    ensures
        inlined_from(b, i, protected) matches Some(c) ==> {
            &&& call_order(c) == call_order(b)
            &&& deep(constructor_named(), c) == 0
        },
    decreases b.len() - i,
{
    if i < b.len() {
        inlined_at_call_order(b, i, protected);
        inlined_from_call_order(b, i + 1, protected);
    }
}

proof fn inlined_flat_call_order(b: Block, protected: Seq<Text>)
    requires
        deep(constructor_named(), b) == 0,
    ensures
        call_order(inlined_flat(b, protected)) == call_order(b),
        deep(constructor_named(), inlined_flat(b, protected)) == 0,
    decreases b.len(), pending(b, b.len() as int),
{
    inlined_from_call_order(b, 0, protected);
    if let Some(c) = inlined_from(b, 0, protected) {
        if c.len() < b.len() || (c.len() == b.len() && pending(c, c.len() as int) < pending(b, b.len() as int)) {
            inlined_flat_call_order(c, protected);
        }
    }
}

/// Inlining keeps the calls, and the order in which they are made, where no datatype and no
/// constructor of one goes by another name: nothing is stored that, once inlined, decides whether a
/// call only builds a value.
pub proof fn inlining_keeps_call_order(b: Block, protected: Seq<Text>)
    requires
        deep(constructor_named(), b) == 0,
    ensures
        call_order(inlined(b, protected)) == call_order(b),
        deep(constructor_named(), inlined(b, protected)) == 0,
    decreases b, 1nat, 0int,
{
    let c = inlined_inside(b, protected);
    inlined_inside_call_order(b, b.len() as int, protected);
    assert(c.take(b.len() as int) =~= c);
    assert(b.take(b.len() as int) =~= b);
    inlined_flat_call_order(c, protected);
}

proof fn inlined_inside_call_order(b: Block, k: int, protected: Seq<Text>)
    requires
        deep(constructor_named(), b) == 0,
        0 <= k <= b.len(),
    ensures
        call_order(inlined_inside(b, protected).take(k)) == call_order(b.take(k)),
        deep(constructor_named(), inlined_inside(b, protected).take(k)) == 0,
    decreases b, 0nat, k,
{
    let c = inlined_inside(b, protected);
    if k > 0 {
        inlined_inside_call_order(b, k - 1, protected);
        deep_at(constructor_named(), b, k - 1);
        inlined_in_call_order(b[k - 1], protected);
        assert(c.take(k).drop_last() =~= c.take(k - 1));
        assert(b.take(k).drop_last() =~= b.take(k - 1));
        assert(c.take(k).last() == c[k - 1]);
        assert(b.take(k).last() == b[k - 1]);
    } else {
        assert(c.take(0) =~= b.take(0));
    }
}

proof fn inlined_in_call_order(s: StmtV, protected: Seq<Text>)
    requires
        deep_stmt(constructor_named(), s) == 0,
    ensures
        trace_stmt(calls_first(), calls_last(), inlined_in(s, protected)) == trace_stmt(
            calls_first(),
            calls_last(),
            s,
        ),
        deep_stmt(constructor_named(), inlined_in(s, protected)) == 0,
    decreases s, 0nat, 0int,
{
    match s {
        StmtV::If { then_body, else_body, .. } => {
            inlining_keeps_call_order(then_body, protected);
            inlining_keeps_call_order(else_body, protected);
        },
        StmtV::Loop { head, body } => {
            inlining_keeps_call_order(body, body_protected(head, protected));
        },
        _ => {},
    }
}

// ---- names to declare --------------------------------------------------------------------------------------------

/// The bare names that `b` assigns, in the order in which the assignments stand, those of a `then`
/// branch before those of its `else` branch.
pub open spec fn assignments(b: Block) -> Seq<Text> {
    trace(|s: StmtV| assigned(s), |s: StmtV| Seq::<Text>::empty(), b)
}

proof fn with_new_concat(acc: Seq<Text>, declared: Seq<Text>, x: Seq<Text>, y: Seq<Text>)
    ensures
        with_new(acc, declared, x + y) == with_new(with_new(acc, declared, x), declared, y),
    decreases y.len(),
{
    if y.len() == 0 {
        assert(x + y =~= x);
    } else {
        with_new_concat(acc, declared, x, y.drop_last());
        assert((x + y).drop_last() =~= x + y.drop_last());
        assert((x + y).last() == y.last());
    }
}

proof fn undeclared_in_order(b: Block, declared: Seq<Text>, acc: Seq<Text>)
    ensures
        undeclared(b, declared, acc) == with_new(acc, declared, assignments(b)),
    decreases b,
{
    if b.len() > 0 {
        let f = |s: StmtV| assigned(s);
        let none = |s: StmtV| Seq::<Text>::empty();
        undeclared_in_order(b.drop_last(), declared, acc);
        stmt_undeclared_in_order(b.last(), declared, undeclared(b.drop_last(), declared, acc));
        with_new_concat(acc, declared, assignments(b.drop_last()), trace_stmt(f, none, b.last()));
    }
}

proof fn stmt_undeclared_in_order(s: StmtV, declared: Seq<Text>, acc: Seq<Text>)
    ensures
        undeclared_in(s, declared, acc) == with_new(
            acc,
            declared,
            trace_stmt(|s: StmtV| assigned(s), |s: StmtV| Seq::<Text>::empty(), s),
        ),
    decreases s,
{
    let f = |s: StmtV| assigned(s);
    let none = |s: StmtV| Seq::<Text>::empty();
    let own = with_new(acc, declared, assigned(s));
    let all = trace_stmt(f, none, s);
    match s {
        StmtV::If { then_body, else_body, .. } => {
            undeclared_in_order(then_body, declared, own);
            undeclared_in_order(else_body, declared, undeclared(then_body, declared, own));
            with_new_concat(own, declared, assignments(then_body), assignments(else_body));
            with_new_concat(acc, declared, assigned(s), assignments(then_body) + assignments(else_body));
            assert(all =~= assigned(s) + (assignments(then_body) + assignments(else_body)));
        },
        StmtV::Loop { body, .. } => {
            undeclared_in_order(body, declared, own);
            with_new_concat(acc, declared, assigned(s), assignments(body));
            assert(all =~= assigned(s) + assignments(body));
        },
        _ => {
            assert(all =~= assigned(s));
        },
    }
}

/// Whether `x` stands in `names` before any `y`.
pub open spec fn appears_before(names: Seq<Text>, x: Text, y: Text) -> bool {
    exists|p: int| 0 <= p < names.len() && #[trigger] names[p] == x && !names.take(p + 1).contains(y)
}

proof fn new_in_order(declared: Seq<Text>, names: Seq<Text>)
    ensures
        ({
            let r = with_new(Seq::empty(), declared, names);
            forall|i: int, j: int| 0 <= i < j < r.len() ==> #[trigger] appears_before(names, r[i], r[j])
        }),
    decreases names.len(),
{
    if names.len() > 0 {
        let shorter = names.drop_last();
        let n = names.last();
        let front = with_new(Seq::empty(), declared, shorter);
        let r = with_new(Seq::empty(), declared, names);
        new_in_order(declared, shorter);
        with_new_members(Seq::empty(), declared, shorter, n);
        assert forall|i: int, j: int| 0 <= i < j < r.len() implies #[trigger] appears_before(names, r[i], r[j]) by {
            assert(r[i] == front[i]);
            if j < front.len() {
                assert(appears_before(shorter, front[i], front[j]));
                let p = choose|p: int|
                    0 <= p < shorter.len() && #[trigger] shorter[p] == r[i] && !shorter.take(p + 1).contains(r[j]);
                assert(names.take(p + 1) =~= shorter.take(p + 1));
                assert(names[p] == r[i]);
            } else {
                with_new_members(Seq::empty(), declared, shorter, r[i]);
                assert(front.contains(front[i]));
                let p = choose|p: int| 0 <= p < shorter.len() && #[trigger] shorter[p] == r[i];
                assert(names[p] == r[i]);
                if names.take(p + 1).contains(n) {
                    let q = choose|q: int| 0 <= q < p + 1 && #[trigger] names.take(p + 1)[q] == n;
                    assert(shorter[q] == n);
                }
            }
        }
    }
}

/// The names to declare come in the order in which they are first assigned.
pub proof fn locals_of_in_order(b: Block, exclude: Seq<Text>)
    ensures
        ({
            let r = locals_of(b, exclude);
            forall|i: int, j: int| 0 <= i < j < r.len() ==> #[trigger] appears_before(assignments(b), r[i], r[j])
        }),
{
    let declared = with_declared(b, exclude);
    undeclared_in_order(b, declared, Seq::empty());
    new_in_order(declared, assignments(b));
}

// ---- labels before a return --------------------------------------------------------------------------------------

/// The statement without the statements inside it.
pub open spec fn shell(s: StmtV) -> StmtV {
    match s {
        StmtV::If { cond, .. } => StmtV::If { cond, then_body: Seq::empty(), else_body: Seq::empty() },
        StmtV::Loop { head, .. } => StmtV::Loop { head, body: Seq::empty() },
        _ => s,
    }
}

/// The statement, with a jump to a label for which `f` gives values turned into `return`, and
/// without such a label.
pub open spec fn resolved(s: StmtV, f: spec_fn(Text) -> Option<Seq<ExprV>>) -> Seq<StmtV> {
    match s {
        StmtV::Goto(l) if f(l) is Some => seq![StmtV::Return(f(l)->Some_0)],
        StmtV::Label(l) if f(l) is Some => Seq::empty(),
        _ => seq![shell(s)],
    }
}

/// The statements of `b` in order, nested ones after the statement that they stand in.
pub open spec fn outline(b: Block) -> Seq<StmtV> {
    trace(|s: StmtV| seq![shell(s)], |s: StmtV| Seq::<StmtV>::empty(), b)
}

/// The same, with jumps and labels resolved.
pub open spec fn outline_resolved(b: Block, f: spec_fn(Text) -> Option<Seq<ExprV>>) -> Seq<StmtV> {
    trace(|s: StmtV| resolved(s, f), |s: StmtV| Seq::<StmtV>::empty(), b)
}

proof fn returns_inlined_outline(b: Block, f: spec_fn(Text) -> Option<Seq<ExprV>>)
    ensures
        outline(returns_inlined(b, f)) == outline_resolved(b, f),
    decreases b,
{
    if b.len() > 0 {
        returns_inlined_outline(b.drop_last(), f);
        stmt_returns_inlined_outline(b.last(), f);
        trace_concat(
            |s: StmtV| seq![shell(s)],
            |s: StmtV| Seq::<StmtV>::empty(),
            returns_inlined(b.drop_last(), f),
            returns_inlined_stmt(b.last(), f),
        );
    }
}

proof fn stmt_returns_inlined_outline(s: StmtV, f: spec_fn(Text) -> Option<Seq<ExprV>>)
    ensures
        outline(returns_inlined_stmt(s, f)) == trace_stmt(
            |s: StmtV| resolved(s, f),
            |s: StmtV| Seq::<StmtV>::empty(),
            s,
        ),
    decreases s,
{
    let head = |s: StmtV| seq![shell(s)];
    let none = |s: StmtV| Seq::<StmtV>::empty();
    let r = returns_inlined_stmt(s, f);
    match s {
        StmtV::If { then_body, else_body, .. } => {
            returns_inlined_outline(then_body, f);
            returns_inlined_outline(else_body, f);
        },
        StmtV::Loop { body, .. } => {
            returns_inlined_outline(body, f);
        },
        _ => {},
    }
    if r.len() > 0 {
        assert(r =~= seq![r[0]]);
        trace_one(head, none, r[0]);
    }
    assert(outline(r) =~= trace_stmt(|s: StmtV| resolved(s, f), none, s));
}

/// Resolving labels that stand before a `return` changes nothing but the jumps to them, which
/// become that `return`, and the labels, which go: all other statements stay, in order.
pub proof fn return_labels_change_nothing_else(b: Block)
    ensures
        outline(returns_inlined(b, return_labels(b))) == outline_resolved(b, return_labels(b)),
{
    returns_inlined_outline(b, return_labels(b));
}

} // verus!
