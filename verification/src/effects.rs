//! What the passes that remove and move values keep: calls, and assignments that can be seen
//! elsewhere.
use vstd::prelude::*;

use crate::ast::{spec_splice, Block, ExprV, FieldV, LoopHead, StmtV};
use crate::dead_stores::{
    dead_after, effect_of, fewer_stores, fewer_stores_fewer, overwritten_in, store, unread, unread_in, wasted,
    without_dead_stores, without_overwritten, without_overwritten_inside, without_unread, without_wasted, DeadAfter,
};
use crate::inline::{
    body_protected, inlined, inlined_at, inlined_flat, inlined_from, inlined_in, inlined_inside, leaf, next_read,
    next_read_bounds, next_write, next_write_bounds, pending, read_once, reads_in_targets,
};
use crate::jumps::{only, sole_assign};
use crate::liveness::{names_read, replaced, replaced_in, replaced_in_field, replaced_in_fields, stmt_replaced};
use crate::names::{insert_all_members, NameSet};
use crate::naming::{builds_value, pure, pure_all, pure_field, pure_fields};
use crate::query::{expr_reads, exprs_reads, field_reads, fields_reads, one_if, shallow_reads};
use crate::rules::{everywhere, first_from, fixpoint, inside, inside_stmt, Measure, Scan, Step};
use crate::sweeps::before;
use crate::tables::{
    fill, fills, fills_end, fills_end_bounds, folded_at, literal, literals_moved, literals_moved_in,
    literals_moved_inside, moved_at, moved_from, placed, table_init, with_value, FoldFills,
};
use crate::text::Text;
use crate::weight::{deep, deep_at, deep_concat, deep_one, deep_range, deep_range_one, deep_splice, deep_stmt};

verus! {

// ---- calls ------------------------------------------------------------------------------------------------

/// The number of calls in `e`, and of pieces whose meaning is not known; calls that only build a
/// value count where `all` does.
pub open spec fn calls(e: ExprV, all: bool) -> nat
    decreases e,
{
    match e {
        ExprV::Index(t, k) => calls(*t, all) + calls(*k, all),
        ExprV::Field(t, _) => calls(*t, all),
        ExprV::Call(f, args) => one_if(all || !builds_value(*f)) + calls(*f, all) + calls_all(args, all),
        ExprV::MethodCall(o, _, args) => 1 + calls(*o, all) + calls_all(args, all),
        ExprV::Unary(_, a) => calls(*a, all),
        ExprV::Binary(_, a, b) => calls(*a, all) + calls(*b, all),
        ExprV::Table(fs) => calls_fields(fs, all),
        ExprV::Raw(_) => 1,
        _ => 0,
    }
}

pub open spec fn calls_all(es: Seq<ExprV>, all: bool) -> nat
    decreases es,
{
    if es.len() == 0 {
        0
    } else {
        calls_all(es.drop_last(), all) + calls(es.last(), all)
    }
}

pub open spec fn calls_fields(fs: Seq<FieldV>, all: bool) -> nat
    decreases fs,
{
    if fs.len() == 0 {
        0
    } else {
        calls_fields(fs.drop_last(), all) + calls_field(fs.last(), all)
    }
}

pub open spec fn calls_field(f: FieldV, all: bool) -> nat
    decreases f,
{
    match f {
        FieldV::Item(e) => calls(e, all),
        FieldV::Named(_, e) => calls(e, all),
        FieldV::Keyed(k, e) => calls(k, all) + calls(e, all),
    }
}

/// The number of calls in what stands before the body of a loop.
pub open spec fn head_calls(h: LoopHead, all: bool) -> nat {
    match h {
        LoopHead::While(c) => calls(c, all),
        LoopHead::Repeat(c) => calls(c, all),
        LoopHead::Numeric { start, limit, step, .. } => calls(start, all) + calls(limit, all) + match step {
            Some(e) => calls(e, all),
            None => 0,
        },
        LoopHead::Generic { exprs, .. } => calls_all(exprs, all),
    }
}

/// Weighs the calls in the expressions of a statement itself.
pub open spec fn call_count(all: bool) -> spec_fn(StmtV) -> nat {
    |s: StmtV|
        match s {
            StmtV::Local { values, .. } => calls_all(values, all),
            StmtV::Assign { targets, values } => calls_all(targets, all) + calls_all(values, all),
            StmtV::Call(e) => calls(e, all),
            StmtV::Return(es) => calls_all(es, all),
            StmtV::If { cond, .. } => calls(cond, all),
            StmtV::Loop { head, .. } => head_calls(head, all),
            _ => 0,
        }
}

/// Weighs the assignments to `n` alone.
pub open spec fn stores_to(n: Text) -> spec_fn(StmtV) -> nat {
    |s: StmtV| one_if(sole_assign(s) matches Some((m, _)) && m == n)
}

/// A value without effects calls nothing but constructors.
proof fn pure_calls(e: ExprV)
    requires
        pure(e),
    ensures
        calls(e, false) == 0,
    decreases e,
{
    match e {
        ExprV::Index(t, k) => {
            pure_calls(*t);
            pure_calls(*k);
        },
        ExprV::Field(t, _) => {
            pure_calls(*t);
        },
        ExprV::Call(f, args) => {
            if let ExprV::Field(t, _) = *f {
                assert(calls(*t, false) == 0);
            }
            assert(calls(*f, false) == 0);
            pure_all_calls(args);
        },
        ExprV::Unary(_, a) => {
            pure_calls(*a);
        },
        ExprV::Binary(_, a, b) => {
            pure_calls(*a);
            pure_calls(*b);
        },
        ExprV::Table(fs) => {
            pure_fields_calls(fs);
        },
        _ => {},
    }
}

proof fn pure_all_calls(es: Seq<ExprV>)
    requires
        pure_all(es),
    ensures
        calls_all(es, false) == 0,
    decreases es,
{
    if es.len() > 0 {
        let front = es.drop_last();
        assert forall|i: int| 0 <= i < front.len() implies pure(#[trigger] front[i]) by {
            assert(es[i] == front[i]);
        }
        assert(pure_all(front));
        pure_all_calls(front);
        assert(pure(es[es.len() - 1]));
        pure_calls(es.last());
    }
}

proof fn pure_fields_calls(fs: Seq<FieldV>)
    requires
        pure_fields(fs),
    ensures
        calls_fields(fs, false) == 0,
    decreases fs,
{
    if fs.len() > 0 {
        let front = fs.drop_last();
        assert forall|i: int| 0 <= i < front.len() implies pure_field(#[trigger] front[i]) by {
            assert(fs[i] == front[i]);
        }
        assert(pure_fields(front));
        pure_fields_calls(front);
        assert(pure_field(fs[fs.len() - 1]));
        match fs.last() {
            FieldV::Item(e) => {
                pure_calls(e);
            },
            FieldV::Named(_, e) => {
                pure_calls(e);
            },
            FieldV::Keyed(k, e) => {
                pure_calls(k);
                pure_calls(e);
            },
        }
        assert(calls_field(fs.last(), false) == 0);
    }
}

proof fn calls_one(e: ExprV, all: bool)
    ensures
        calls_all(seq![e], all) == calls(e, all),
{
    assert(seq![e].drop_last() =~= Seq::<ExprV>::empty());
    assert(calls_all(Seq::<ExprV>::empty(), all) == 0);
}

/// The calls of an assignment to a variable are those of its value.
proof fn sole_assign_calls(s: StmtV, all: bool)
    ensures
        sole_assign(s) matches Some((_, v)) ==> call_count(all)(s) == calls(v, all),
{
    if let Some((n, v)) = sole_assign(s) {
        calls_one(v, all);
        match s {
            StmtV::Assign { targets, values } => {
                assert(values =~= seq![v]);
                assert(targets =~= seq![ExprV::Var(n)]);
                calls_one(ExprV::Var(n), all);
            },
            StmtV::Local { values, .. } => {
                assert(values =~= seq![v]);
            },
            _ => {},
        }
    }
}

// ---- removing stores ------------------------------------------------------------------------------------------

/// Whether `s` and `t` differ only in the blocks that they hold.
pub open spec fn same_outside(s: StmtV, t: StmtV) -> bool {
    match (s, t) {
        (StmtV::If { cond: a, .. }, StmtV::If { cond: b, .. }) => a == b,
        (StmtV::Loop { head: a, .. }, StmtV::Loop { head: b, .. }) => a == b,
        _ => false,
    }
}

/// Whether removing `s`, if it is a store to a name other than `protected`, keeps the weight `w`.
pub open spec fn weighs_effect(w: spec_fn(StmtV) -> nat, protected: Seq<Text>, s: StmtV) -> bool {
    match sole_assign(s) {
        Some((n, v)) => protected.contains(n) || w(s) == if pure(v) {
            0
        } else {
            w(StmtV::Call(v))
        },
        None => true,
    }
}

/// Whether removing stores to names other than `protected` keeps the weight `w`.
pub open spec fn keeps_weight(w: spec_fn(StmtV) -> nat, protected: Seq<Text>) -> bool {
    &&& forall|s: StmtV| #[trigger] weighs_effect(w, protected, s)
    &&& forall|s: StmtV, t: StmtV| #[trigger] same_outside(s, t) ==> w(s) == w(t)
}

proof fn without_unread_keeps(w: spec_fn(StmtV) -> nat, b: Block, root: Block, protected: Seq<Text>)
    requires
        keeps_weight(w, protected),
    ensures
        deep(w, without_unread(b, root, protected)) == deep(w, b),
    decreases b,
{
    if b.len() > 0 {
        without_unread_keeps(w, b.drop_last(), root, protected);
        unread_in_keeps(w, b.last(), root, protected);
        deep_concat(w, without_unread(b.drop_last(), root, protected), unread_in(b.last(), root, protected));
    }
}

proof fn unread_in_keeps(w: spec_fn(StmtV) -> nat, s: StmtV, root: Block, protected: Seq<Text>)
    requires
        keeps_weight(w, protected),
    ensures
        deep(w, unread_in(s, root, protected)) == deep_stmt(w, s),
    decreases s,
{
    if unread(s, root, protected) {
        let v = sole_assign(s)->Some_0.1;
        assert(weighs_effect(w, protected, s));
        assert(effect_of(v) == Seq::<StmtV>::empty() || effect_of(v) == seq![StmtV::Call(v)]);
        deep_one(w, StmtV::Call(v));
        assert(deep(w, Seq::<StmtV>::empty()) == 0);
    } else {
        let t = unread_in(s, root, protected);
        match s {
            StmtV::If { cond, then_body, else_body } => {
                without_unread_keeps(w, then_body, root, protected);
                without_unread_keeps(w, else_body, root, protected);
                let c = StmtV::If {
                    cond,
                    then_body: without_unread(then_body, root, protected),
                    else_body: without_unread(else_body, root, protected),
                };
                assert(t == seq![c]);
                deep_one(w, c);
                assert(same_outside(s, c));
            },
            StmtV::Loop { head, body } => {
                without_unread_keeps(w, body, root, protected);
                let c = StmtV::Loop { head, body: without_unread(body, root, protected) };
                assert(t == seq![c]);
                deep_one(w, c);
                assert(same_outside(s, c));
            },
            _ => {
                assert(t == seq![s]);
                deep_one(w, s);
            },
        }
    }
}

proof fn without_wasted_keeps(w: spec_fn(StmtV) -> nat, b: Block, i: int, protected: Seq<Text>)
    requires
        keeps_weight(w, protected),
        0 <= i <= b.len(),
    ensures
        deep(w, without_wasted(b, i, protected)) == deep(w, b.subrange(i, b.len() as int)),
    decreases b.len() - i,
{
    let t = b.subrange(i, b.len() as int);
    if i < b.len() {
        without_wasted_keeps(w, b, i + 1, protected);
        deep_at(w, t, 0);
        assert(t.subrange(0, 0) =~= Seq::<StmtV>::empty());
        assert(t.subrange(1, t.len() as int) =~= b.subrange(i + 1, b.len() as int));
        let rest = without_wasted(b, i + 1, protected);
        if wasted(b, i, protected) {
            assert(weighs_effect(w, protected, b[i]));
            assert(deep_stmt(w, b[i]) == 0);
        } else {
            assert(before(b[i], rest) =~= seq![b[i]] + rest);
            deep_concat(w, seq![b[i]], rest);
            deep_one(w, b[i]);
        }
    } else {
        assert(t =~= Seq::<StmtV>::empty());
    }
}

pub proof fn body_protected_more(head: LoopHead, protected: Seq<Text>, n: Text)
    ensures
        protected.contains(n) ==> body_protected(head, protected).contains(n),
{
    match head {
        LoopHead::While(c) => {
            insert_all_members(protected, names_read(c), n);
        },
        LoopHead::Repeat(c) => {
            insert_all_members(protected, names_read(c), n);
        },
        _ => {},
    }
}

proof fn keeps_weight_in_body(w: spec_fn(StmtV) -> nat, head: LoopHead, protected: Seq<Text>)
    requires
        keeps_weight(w, protected),
    ensures
        keeps_weight(w, body_protected(head, protected)),
{
    assert forall|n: Text| protected.contains(n) implies body_protected(head, protected).contains(n) by {
        body_protected_more(head, protected, n);
    }
    assert forall|s: StmtV| #[trigger] weighs_effect(w, body_protected(head, protected), s) by {
        assert(weighs_effect(w, protected, s));
    }
}

proof fn without_overwritten_keeps(w: spec_fn(StmtV) -> nat, b: Block, protected: Seq<Text>)
    requires
        keeps_weight(w, protected),
    ensures
        deep(w, without_overwritten(b, protected)) == deep(w, b),
    decreases b, 1nat, 0int,
{
    let c = without_overwritten_inside(b, protected);
    without_overwritten_inside_keeps(w, b, b.len() as int, protected);
    without_wasted_keeps(w, c, 0, protected);
    assert(c.subrange(0, c.len() as int) =~= c);
    assert(c.take(b.len() as int) =~= c);
    assert(b.take(b.len() as int) =~= b);
}

proof fn without_overwritten_inside_keeps(w: spec_fn(StmtV) -> nat, b: Block, k: int, protected: Seq<Text>)
    requires
        keeps_weight(w, protected),
        0 <= k <= b.len(),
    ensures
        deep(w, without_overwritten_inside(b, protected).take(k)) == deep(w, b.take(k)),
    decreases b, 0nat, k,
{
    let c = without_overwritten_inside(b, protected);
    if k > 0 {
        without_overwritten_inside_keeps(w, b, k - 1, protected);
        overwritten_in_keeps(w, b[k - 1], protected);
        assert(c.take(k).drop_last() =~= c.take(k - 1));
        assert(b.take(k).drop_last() =~= b.take(k - 1));
        assert(c.take(k).last() == c[k - 1]);
        assert(b.take(k).last() == b[k - 1]);
    } else {
        assert(c.take(0) =~= b.take(0));
    }
}

proof fn overwritten_in_keeps(w: spec_fn(StmtV) -> nat, s: StmtV, protected: Seq<Text>)
    requires
        keeps_weight(w, protected),
    ensures
        deep_stmt(w, overwritten_in(s, protected)) == deep_stmt(w, s),
    decreases s, 0nat, 0int,
{
    let t = overwritten_in(s, protected);
    match s {
        StmtV::If { then_body, else_body, .. } => {
            without_overwritten_keeps(w, then_body, protected);
            without_overwritten_keeps(w, else_body, protected);
            assert(same_outside(s, t));
        },
        StmtV::Loop { head, body } => {
            keeps_weight_in_body(w, head, protected);
            without_overwritten_keeps(w, body, body_protected(head, protected));
            assert(same_outside(s, t));
        },
        _ => {},
    }
}

proof fn without_dead_stores_keeps(w: spec_fn(StmtV) -> nat, b: Block, protected: Seq<Text>)
    requires
        keeps_weight(w, protected),
    ensures
        deep(w, without_dead_stores(b, protected)) == deep(w, b),
    decreases deep(store(), b),
{
    if fewer_stores(b, protected) != b {
        fewer_stores_fewer(b, protected);
        without_unread_keeps(w, b, b, protected);
        without_overwritten_keeps(w, without_unread(b, b, protected), protected);
        without_dead_stores_keeps(w, fewer_stores(b, protected), protected);
    }
}

proof fn effects_fit(protected: Seq<Text>)
    ensures
        keeps_weight(call_count(false), protected),
{
    let w = call_count(false);
    assert forall|s: StmtV| #[trigger] weighs_effect(w, protected, s) by {
        sole_assign_calls(s, false);
        if let Some((_, v)) = sole_assign(s) {
            if pure(v) {
                pure_calls(v);
            }
        }
    }
}

/// Eliminating dead stores keeps every call that has an effect.
pub proof fn dead_stores_keep_effects(b: Block, protected: Seq<Text>)
    ensures
        deep(call_count(false), without_dead_stores(b, protected)) == deep(call_count(false), b),
{
    effects_fit(protected);
    without_dead_stores_keeps(call_count(false), b, protected);
}

/// Eliminating dead stores keeps every store to a protected name.
pub proof fn dead_stores_keep_protected(b: Block, protected: Seq<Text>, n: Text)
    requires
        protected.contains(n),
    ensures
        deep(stores_to(n), without_dead_stores(b, protected)) == deep(stores_to(n), b),
{
    assert forall|s: StmtV| #[trigger] weighs_effect(stores_to(n), protected, s) by {}
    without_dead_stores_keeps(stores_to(n), b, protected);
}

proof fn dead_after_keeps(w: spec_fn(StmtV) -> nat, protected: &NameSet, b: Block)
    requires
        keeps_weight(w, protected@),
    ensures
        deep(w, fixpoint(Scan(DeadAfter { protected }), b)) == deep(w, b),
    decreases b.len(),
{
    let p = Scan(DeadAfter { protected });
    p.shrinks(b);
    if let Some(c) = p.step(b) {
        dead_after_from_keeps(w, protected, b, 0);
        dead_after_keeps(w, protected, c);
    }
}

proof fn dead_after_from_keeps(w: spec_fn(StmtV) -> nat, protected: &NameSet, b: Block, i: int)
    requires
        keeps_weight(w, protected@),
        0 <= i,
    ensures
        first_from(DeadAfter { protected }, b, i) matches Some(c) ==> deep(w, c) == deep(w, b),
    decreases b.len() - i,
{
    if i < b.len() {
        if dead_after(b, i, protected@) {
            assert(weighs_effect(w, protected@, b[i]));
            deep_splice(w, b, i, i + 1, Seq::empty());
            deep_range_one(w, b, i);
            assert(deep_stmt(w, b[i]) == 0);
        } else {
            dead_after_from_keeps(w, protected, b, i + 1);
        }
    }
}

/// Dropping stores after the last read keeps every call that has an effect.
pub proof fn dead_after_keeps_effects(b: Block, protected: &NameSet)
    ensures
        deep(call_count(false), fixpoint(Scan(DeadAfter { protected }), b)) == deep(call_count(false), b),
{
    effects_fit(protected@);
    dead_after_keeps(call_count(false), protected, b);
}

/// Dropping stores after the last read keeps every store to a protected name.
pub proof fn dead_after_keeps_protected(b: Block, protected: &NameSet, n: Text)
    requires
        protected@.contains(n),
    ensures
        deep(stores_to(n), fixpoint(Scan(DeadAfter { protected }), b)) == deep(stores_to(n), b),
{
    assert forall|s: StmtV| #[trigger] weighs_effect(stores_to(n), protected@, s) by {}
    dead_after_keeps(stores_to(n), protected, b);
}

// ---- inlining --------------------------------------------------------------------------------------------------

proof fn replaced_calls(e: ExprV, n: Text, v: ExprV)
    requires
        expr_reads(e, n) > 0,
    ensures
        calls(replaced(e, n, v), true) == calls(e, true) + calls(v, true),
    decreases e,
{
    match e {
        ExprV::Index(t, k) => {
            if expr_reads(*t, n) > 0 {
                replaced_calls(*t, n, v);
            } else {
                replaced_calls(*k, n, v);
            }
        },
        ExprV::Field(t, _) => {
            replaced_calls(*t, n, v);
        },
        ExprV::Call(g, args) => {
            if expr_reads(*g, n) > 0 {
                replaced_calls(*g, n, v);
            } else {
                replaced_in_calls(args, n, v);
            }
        },
        ExprV::MethodCall(o, _, args) => {
            if expr_reads(*o, n) > 0 {
                replaced_calls(*o, n, v);
            } else {
                replaced_in_calls(args, n, v);
            }
        },
        ExprV::Unary(_, a) => {
            replaced_calls(*a, n, v);
        },
        ExprV::Binary(_, a, b) => {
            if expr_reads(*a, n) > 0 {
                replaced_calls(*a, n, v);
            } else {
                replaced_calls(*b, n, v);
            }
        },
        ExprV::Table(fs) => {
            replaced_in_fields_calls(fs, n, v);
        },
        _ => {},
    }
}

proof fn replaced_in_calls(es: Seq<ExprV>, n: Text, v: ExprV)
    requires
        exprs_reads(es, n) > 0,
    ensures
        calls_all(replaced_in(es, n, v), true) == calls_all(es, true) + calls(v, true),
    decreases es,
{
    let r = replaced_in(es, n, v);
    if exprs_reads(es.drop_last(), n) > 0 {
        replaced_in_calls(es.drop_last(), n, v);
        assert(r.drop_last() =~= replaced_in(es.drop_last(), n, v));
        assert(r.last() == es.last());
    } else {
        replaced_calls(es.last(), n, v);
        assert(r.drop_last() =~= es.drop_last());
    }
}

proof fn replaced_in_fields_calls(fs: Seq<FieldV>, n: Text, v: ExprV)
    requires
        fields_reads(fs, n) > 0,
    ensures
        calls_fields(replaced_in_fields(fs, n, v), true) == calls_fields(fs, true) + calls(v, true),
    decreases fs,
{
    let r = replaced_in_fields(fs, n, v);
    if fields_reads(fs.drop_last(), n) > 0 {
        replaced_in_fields_calls(fs.drop_last(), n, v);
        assert(r.drop_last() =~= replaced_in_fields(fs.drop_last(), n, v));
        assert(r.last() == fs.last());
    } else {
        replaced_in_field_calls(fs.last(), n, v);
        assert(r.drop_last() =~= fs.drop_last());
    }
}

proof fn replaced_in_field_calls(x: FieldV, n: Text, v: ExprV)
    requires
        field_reads(x, n) > 0,
    ensures
        calls_field(replaced_in_field(x, n, v), true) == calls_field(x, true) + calls(v, true),
    decreases x,
{
    match x {
        FieldV::Item(e) => {
            replaced_calls(e, n, v);
        },
        FieldV::Named(_, e) => {
            replaced_calls(e, n, v);
        },
        FieldV::Keyed(k, e) => {
            if expr_reads(k, n) > 0 {
                replaced_calls(k, n, v);
            } else {
                replaced_calls(e, n, v);
            }
        },
    }
}

proof fn stmt_replaced_calls(s: StmtV, n: Text, v: ExprV)
    requires
        shallow_reads(s, n) > 0,
        !reads_in_targets(s, n),
    ensures
        call_count(true)(stmt_replaced(s, n, v)) == call_count(true)(s) + calls(v, true),
{
    match s {
        StmtV::Local { values, .. } => {
            replaced_in_calls(values, n, v);
        },
        StmtV::Assign { values, .. } => {
            replaced_in_calls(values, n, v);
        },
        StmtV::Call(e) => {
            replaced_calls(e, n, v);
        },
        StmtV::Return(es) => {
            replaced_in_calls(es, n, v);
        },
        StmtV::If { cond, .. } => {
            replaced_calls(cond, n, v);
        },
        StmtV::Loop { head: LoopHead::Numeric { start, limit, step, .. }, .. } => {
            if expr_reads(start, n) > 0 {
                replaced_calls(start, n, v);
            } else if expr_reads(limit, n) > 0 {
                replaced_calls(limit, n, v);
            } else if let Some(e) = step {
                replaced_calls(e, n, v);
            }
        },
        StmtV::Loop { head: LoopHead::Generic { exprs, .. }, .. } => {
            replaced_in_calls(exprs, n, v);
        },
        _ => {},
    }
}

/// Whether inlining values of names other than `protected` keeps the weight `w`, where `g` is what
/// a value adds to it.
pub open spec fn moves_weight(w: spec_fn(StmtV) -> nat, g: spec_fn(ExprV) -> nat, protected: Seq<Text>) -> bool {
    &&& forall|s: StmtV| #[trigger] weighs_value(w, g, protected, s)
    &&& forall|s: StmtV, n: Text, v: ExprV|
        shallow_reads(s, n) > 0 && !reads_in_targets(s, n) ==> w(#[trigger] stmt_replaced(s, n, v)) == w(s) + g(v)
    &&& forall|v: ExprV| leaf(v) ==> #[trigger] g(v) == 0
    &&& forall|s: StmtV, t: StmtV| #[trigger] same_outside(s, t) ==> w(s) == w(t)
}

/// Whether `s`, if it is a store to a name other than `protected`, weighs what its value does.
pub open spec fn weighs_value(
    w: spec_fn(StmtV) -> nat,
    g: spec_fn(ExprV) -> nat,
    protected: Seq<Text>,
    s: StmtV,
) -> bool {
    match sole_assign(s) {
        Some((n, v)) => protected.contains(n) || w(s) == g(v),
        None => true,
    }
}

proof fn inlined_at_keeps(w: spec_fn(StmtV) -> nat, g: spec_fn(ExprV) -> nat, b: Block, i: int, protected: Seq<Text>)
    requires
        moves_weight(w, g, protected),
        0 <= i < b.len(),
    ensures
        inlined_at(b, i, protected) matches Some(c) ==> deep(w, c) == deep(w, b),
{
    if let Some(c) = inlined_at(b, i, protected) {
        let (n, v) = sole_assign(b[i])->Some_0;
        let nd = next_write(b, i + 1, n);
        next_write_bounds(b, i + 1, n);
        next_read_bounds(b, i + 1, nd, n);
        let j = next_read(b, i + 1, nd, n)->Some_0;
        let s = stmt_replaced(b[j], n, v);
        let d = b.update(j, s);
        assert(d =~= spec_splice(b, j, j + 1, seq![s]));
        deep_splice(w, b, j, j + 1, seq![s]);
        deep_one(w, s);
        deep_range_one(w, b, j);
        assert(deep_stmt(w, s) == deep_stmt(w, b[j]) + g(v));
        assert(weighs_value(w, g, protected, b[i]));
        assert(deep_stmt(w, b[i]) == g(v));
        if read_once(b, i, nd, n) {
            deep_splice(w, d, i, i + 1, Seq::empty());
            deep_range_one(w, d, i);
            assert(d[i] == b[i]);
        }
    }
}

proof fn inlined_from_keeps(w: spec_fn(StmtV) -> nat, g: spec_fn(ExprV) -> nat, b: Block, i: int, protected: Seq<Text>)
    requires
        moves_weight(w, g, protected),
        0 <= i,
    ensures
        inlined_from(b, i, protected) matches Some(c) ==> deep(w, c) == deep(w, b),
    decreases b.len() - i,
{
    if i < b.len() {
        inlined_at_keeps(w, g, b, i, protected);
        inlined_from_keeps(w, g, b, i + 1, protected);
    }
}

proof fn inlined_flat_keeps(w: spec_fn(StmtV) -> nat, g: spec_fn(ExprV) -> nat, b: Block, protected: Seq<Text>)
    requires
        moves_weight(w, g, protected),
    ensures
        deep(w, inlined_flat(b, protected)) == deep(w, b),
    decreases b.len(), pending(b, b.len() as int),
{
    inlined_from_keeps(w, g, b, 0, protected);
    if let Some(c) = inlined_from(b, 0, protected) {
        if c.len() < b.len() || (c.len() == b.len() && pending(c, c.len() as int) < pending(b, b.len() as int)) {
            inlined_flat_keeps(w, g, c, protected);
        }
    }
}

proof fn inlined_keeps(w: spec_fn(StmtV) -> nat, g: spec_fn(ExprV) -> nat, b: Block, protected: Seq<Text>)
    requires
        moves_weight(w, g, protected),
    ensures
        deep(w, inlined(b, protected)) == deep(w, b),
    decreases b, 1nat, 0int,
{
    let c = inlined_inside(b, protected);
    inlined_inside_keeps(w, g, b, b.len() as int, protected);
    inlined_flat_keeps(w, g, c, protected);
    assert(c.take(b.len() as int) =~= c);
    assert(b.take(b.len() as int) =~= b);
}

proof fn inlined_inside_keeps(w: spec_fn(StmtV) -> nat, g: spec_fn(ExprV) -> nat, b: Block, k: int, protected: Seq<Text>)
    requires
        moves_weight(w, g, protected),
        0 <= k <= b.len(),
    ensures
        deep(w, inlined_inside(b, protected).take(k)) == deep(w, b.take(k)),
    decreases b, 0nat, k,
{
    let c = inlined_inside(b, protected);
    if k > 0 {
        inlined_inside_keeps(w, g, b, k - 1, protected);
        inlined_in_keeps(w, g, b[k - 1], protected);
        assert(c.take(k).drop_last() =~= c.take(k - 1));
        assert(b.take(k).drop_last() =~= b.take(k - 1));
        assert(c.take(k).last() == c[k - 1]);
        assert(b.take(k).last() == b[k - 1]);
    } else {
        assert(c.take(0) =~= b.take(0));
    }
}

proof fn inlined_in_keeps(w: spec_fn(StmtV) -> nat, g: spec_fn(ExprV) -> nat, s: StmtV, protected: Seq<Text>)
    requires
        moves_weight(w, g, protected),
    ensures
        deep_stmt(w, inlined_in(s, protected)) == deep_stmt(w, s),
    decreases s, 0nat, 0int,
{
    let t = inlined_in(s, protected);
    match s {
        StmtV::If { then_body, else_body, .. } => {
            inlined_keeps(w, g, then_body, protected);
            inlined_keeps(w, g, else_body, protected);
            assert(same_outside(s, t));
        },
        StmtV::Loop { head, body } => {
            let p = body_protected(head, protected);
            assert forall|n: Text| protected.contains(n) implies p.contains(n) by {
                body_protected_more(head, protected, n);
            }
            assert forall|x: StmtV| #[trigger] weighs_value(w, g, p, x) by {
                assert(weighs_value(w, g, protected, x));
            }
            inlined_keeps(w, g, body, p);
            assert(same_outside(s, t));
        },
        _ => {},
    }
}

/// Inlining neither drops a call nor makes it happen twice.
pub proof fn inlining_keeps_calls(b: Block, protected: Seq<Text>)
    ensures
        deep(call_count(true), inlined(b, protected)) == deep(call_count(true), b),
{
    let w = call_count(true);
    let g = |v: ExprV| calls(v, true);
    assert forall|s: StmtV| #[trigger] weighs_value(w, g, protected, s) by {
        sole_assign_calls(s, true);
    }
    assert forall|s: StmtV, n: Text, v: ExprV| shallow_reads(s, n) > 0 && !reads_in_targets(s, n) implies w(
        #[trigger] stmt_replaced(s, n, v),
    ) == w(s) + g(v) by {
        stmt_replaced_calls(s, n, v);
    }
    inlined_keeps(w, g, b, protected);
}

/// Inlining keeps every store to a protected name.
pub proof fn inlining_keeps_protected(b: Block, protected: Seq<Text>, n: Text)
    requires
        protected.contains(n),
    ensures
        deep(stores_to(n), inlined(b, protected)) == deep(stores_to(n), b),
{
    let w = stores_to(n);
    let g = |v: ExprV| 0nat;
    assert forall|s: StmtV| #[trigger] weighs_value(w, g, protected, s) by {}
    assert forall|s: StmtV, m: Text, v: ExprV| shallow_reads(s, m) > 0 && !reads_in_targets(s, m) implies w(
        #[trigger] stmt_replaced(s, m, v),
    ) == w(s) + g(v) by {
        stmt_replaced_target(s, m, v);
    }
    inlined_keeps(w, g, b, protected);
}

/// What the condition of a `while` or `repeat` reads is assigned in its body as often after inlining
/// as before, and what is protected around the loop is protected in it.
pub proof fn inlining_keeps_conditions(s: StmtV, protected: Seq<Text>, n: Text)
    requires
        s matches StmtV::Loop { head, .. } && match head {
            LoopHead::While(c) => names_read(c).contains(n) || protected.contains(n),
            LoopHead::Repeat(c) => names_read(c).contains(n) || protected.contains(n),
            _ => protected.contains(n),
        },
    ensures
        inlined_in(s, protected) matches StmtV::Loop { head, body } && head == s->head && deep(stores_to(n), body)
            == deep(stores_to(n), s->Loop_body),
{
    let head = s->head;
    match head {
        LoopHead::While(c) => {
            insert_all_members(protected, names_read(c), n);
        },
        LoopHead::Repeat(c) => {
            insert_all_members(protected, names_read(c), n);
        },
        _ => {},
    }
    inlining_keeps_protected(s->Loop_body, body_protected(head, protected), n);
}

proof fn stmt_replaced_target(s: StmtV, n: Text, v: ExprV)
    ensures
        match sole_assign(stmt_replaced(s, n, v)) {
            Some((m, _)) => sole_assign(s) is Some && sole_assign(s)->Some_0.0 == m,
            None => sole_assign(s) is None,
        },
{
    match s {
        StmtV::Local { values, .. } => {
            replaced_in_len(values, n, v);
        },
        StmtV::Assign { values, .. } => {
            replaced_in_len(values, n, v);
        },
        _ => {},
    }
}

pub proof fn replaced_in_len(es: Seq<ExprV>, n: Text, v: ExprV)
    ensures
        replaced_in(es, n, v).len() == es.len(),
    decreases es,
{
    if es.len() > 0 {
        replaced_in_len(es.drop_last(), n, v);
    }
}

// ---- table literals -----------------------------------------------------------------------------------------------

/// Whether a step keeps the weight `w`.
pub open spec fn step_keeps<S: Step>(p: S, w: spec_fn(StmtV) -> nat) -> bool {
    &&& forall|b: Block| (#[trigger] p.step(b)) matches Some(c) ==> deep(w, c) == deep(w, b)
    &&& forall|s: StmtV, t: StmtV| #[trigger] same_outside(s, t) ==> w(s) == w(t)
}

proof fn fixpoint_keeps<S: Step>(p: S, w: spec_fn(StmtV) -> nat, b: Block)
    requires
        step_keeps(p, w),
    ensures
        deep(w, fixpoint(p, b)) == deep(w, b),
    decreases <S::M as Measure>::of(b),
{
    p.shrinks(b);
    if let Some(c) = p.step(b) {
        fixpoint_keeps(p, w, c);
    }
}

pub proof fn everywhere_keeps<S: Step>(p: S, w: spec_fn(StmtV) -> nat, b: Block)
    requires
        step_keeps(p, w),
    ensures
        deep(w, everywhere(p, b)) == deep(w, b),
    decreases b, 1nat, 0int,
{
    let c = inside(p, b);
    inside_keeps(p, w, b, b.len() as int);
    fixpoint_keeps(p, w, c);
    assert(c.take(b.len() as int) =~= c);
    assert(b.take(b.len() as int) =~= b);
}

proof fn inside_keeps<S: Step>(p: S, w: spec_fn(StmtV) -> nat, b: Block, k: int)
    requires
        step_keeps(p, w),
        0 <= k <= b.len(),
    ensures
        deep(w, inside(p, b).take(k)) == deep(w, b.take(k)),
    decreases b, 0nat, k,
{
    let c = inside(p, b);
    if k > 0 {
        inside_keeps(p, w, b, k - 1);
        inside_stmt_keeps(p, w, b[k - 1]);
        assert(c.take(k).drop_last() =~= c.take(k - 1));
        assert(b.take(k).drop_last() =~= b.take(k - 1));
        assert(c.take(k).last() == c[k - 1]);
        assert(b.take(k).last() == b[k - 1]);
    } else {
        assert(c.take(0) =~= b.take(0));
    }
}

proof fn inside_stmt_keeps<S: Step>(p: S, w: spec_fn(StmtV) -> nat, s: StmtV)
    requires
        step_keeps(p, w),
    ensures
        deep_stmt(w, inside_stmt(p, s)) == deep_stmt(w, s),
    decreases s, 0nat, 0int,
{
    let t = inside_stmt(p, s);
    match s {
        StmtV::If { then_body, else_body, .. } => {
            everywhere_keeps(p, w, then_body);
            everywhere_keeps(p, w, else_body);
            assert(same_outside(s, t));
        },
        StmtV::Loop { body, .. } => {
            everywhere_keeps(p, w, body);
            assert(same_outside(s, t));
        },
        _ => {},
    }
}

proof fn literal_calls(fs: Seq<FieldV>, more: Seq<FieldV>)
    ensures
        calls_fields(literal(fs, more), true) == calls_fields(fs, true) + calls_fields(more, true),
    decreases more.len(),
{
    if more.len() > 0 {
        literal_calls(fs, more.drop_last());
        let front = literal(fs, more.drop_last());
        let l = literal(fs, more);
        let f = more.last();
        assert(l.drop_last() =~= front);
        assert(l.last() == placed(front, f));
        if let FieldV::Keyed(ExprV::Num(n), v) = f {
            assert(calls(ExprV::Num(n), true) == 0);
        }
        assert(calls_field(placed(front, f), true) == calls_field(f, true));
    }
}

/// A fill calls what the field that it sets does.
proof fn fill_calls(s: StmtV, t: Text)
    ensures
        fill(s, t) matches Some(f) ==> deep_stmt(call_count(true), s) == calls_field(f, true),
{
    if let Some(f) = fill(s, t) {
        if let StmtV::Assign { targets, values } = s {
            calls_one(values[0], true);
            calls_one(targets[0], true);
            assert(values =~= seq![values[0]]);
            assert(targets =~= seq![targets[0]]);
            assert(calls(ExprV::Var(t), true) == 0);
        }
    }
}

proof fn fills_calls(b: Block, lo: int, hi: int, t: Text)
    requires
        0 <= lo <= hi <= b.len(),
        forall|j: int| lo <= j < hi ==> fill(#[trigger] b[j], t) is Some,
    ensures
        deep(call_count(true), b.subrange(lo, hi)) == calls_fields(fills(b, lo, hi, t), true),
    decreases hi - lo,
{
    let r = b.subrange(lo, hi);
    let f = fills(b, lo, hi, t);
    if lo < hi {
        fills_calls(b, lo, hi - 1, t);
        assert(r.drop_last() =~= b.subrange(lo, hi - 1));
        assert(f.drop_last() =~= fills(b, lo, hi - 1, t));
        assert(r.last() == b[hi - 1]);
        fill_calls(b[hi - 1], t);
    } else {
        assert(r =~= Seq::<StmtV>::empty());
        assert(f =~= Seq::<FieldV>::empty());
    }
}

pub proof fn fills_end_fills(b: Block, k: int, t: Text)
    requires
        0 <= k <= b.len(),
    ensures
        forall|j: int| k <= j < fills_end(b, k, t) ==> fill(#[trigger] b[j], t) is Some,
    decreases b.len() - k,
{
    if k < b.len() && fill(b[k], t) is Some {
        fills_end_fills(b, k + 1, t);
    }
}

proof fn folded_at_keeps(b: Block, i: int)
    requires
        0 <= i < b.len(),
    ensures
        folded_at(b, i) matches Some(c) ==> deep(call_count(true), c) == deep(call_count(true), b),
{
    if let Some(c) = folded_at(b, i) {
        let w = call_count(true);
        let (t, fs) = table_init(b[i])->Some_0;
        let end = fills_end(b, i + 1, t);
        let more = fills(b, i + 1, end, t);
        let e = ExprV::Table(literal(fs, more));
        let s = with_value(b[i], e);
        fills_end_bounds(b, i + 1, t);
        fills_end_fills(b, i + 1, t);
        fills_calls(b, i + 1, end, t);
        literal_calls(fs, more);
        sole_assign_calls(b[i], true);
        assert(sole_assign(s) == Some((t, e)));
        sole_assign_calls(s, true);
        deep_one(w, s);
        deep_splice(w, b, i, end, only(s));
        deep_range(w, b, i, i + 1, end);
        deep_range_one(w, b, i);
    }
}

proof fn folded_from_keeps(b: Block, i: int)
    requires
        0 <= i,
    ensures
        first_from(FoldFills, b, i) matches Some(c) ==> deep(call_count(true), c) == deep(call_count(true), b),
    decreases b.len() - i,
{
    if i < b.len() {
        folded_at_keeps(b, i);
        folded_from_keeps(b, i + 1);
    }
}

/// Folding fills into table literals neither drops a call nor makes it happen twice.
pub proof fn folding_keeps_calls(b: Block)
    ensures
        deep(call_count(true), everywhere(Scan(FoldFills), b)) == deep(call_count(true), b),
{
    let p = Scan(FoldFills);
    assert forall|c: Block| (#[trigger] p.step(c)) matches Some(d) ==> deep(call_count(true), d) == deep(
        call_count(true),
        c,
    ) by {
        folded_from_keeps(c, 0);
    }
    everywhere_keeps(p, call_count(true), b);
}

proof fn moved_at_keeps(b: Block, i: int, cont: Seq<Block>, last: bool, protected: Seq<Text>)
    requires
        0 <= i,
        i + 1 < b.len(),
    ensures
        moved_at(b, i, cont, last, protected) matches Some(c) ==> deep(call_count(true), c) == deep(call_count(true), b),
{
    if let Some(c) = moved_at(b, i, cont, last, protected) {
        let w = call_count(true);
        let (n, fs) = table_init(b[i])->Some_0;
        let e = ExprV::Table(fs);
        let s = with_value(b[i + 1], e);
        sole_assign_calls(b[i], true);
        if let StmtV::Assign { values, .. } = b[i + 1] {
            assert(values =~= seq![ExprV::Var(n)]);
        }
        calls_one(ExprV::Var(n), true);
        calls_one(e, true);
        assert(calls(ExprV::Var(n), true) == 0);
        deep_one(w, s);
        deep_splice(w, b, i, i + 2, only(s));
        deep_range(w, b, i, i + 1, i + 2);
        deep_range_one(w, b, i);
        deep_range_one(w, b, i + 1);
    }
}

proof fn moved_from_keeps(b: Block, i: int, cont: Seq<Block>, last: bool, protected: Seq<Text>)
    requires
        0 <= i,
    ensures
        deep(call_count(true), moved_from(b, i, cont, last, protected)) == deep(call_count(true), b),
    decreases b.len() - i,
{
    if i + 1 < b.len() {
        moved_at_keeps(b, i, cont, last, protected);
        match moved_at(b, i, cont, last, protected) {
            Some(c) => {
                if c.len() < b.len() {
                    moved_from_keeps(c, i, cont, last, protected);
                }
            },
            None => {
                moved_from_keeps(b, i + 1, cont, last, protected);
            },
        }
    }
}

/// Moving table literals into the assignments that store them neither drops a call nor makes it
/// happen twice.
pub proof fn moving_keeps_calls(b: Block, cont: Seq<Block>, last: bool, protected: Seq<Text>)
    ensures
        deep(call_count(true), literals_moved(b, cont, last, protected)) == deep(call_count(true), b),
    decreases b, 1nat, 0int,
{
    let c = literals_moved_inside(b, cont, last, protected);
    moving_inside_keeps(b, b.len() as int, cont, last, protected);
    moved_from_keeps(c, 0, cont, last, protected);
    assert(c.take(b.len() as int) =~= c);
    assert(b.take(b.len() as int) =~= b);
}

proof fn moving_inside_keeps(b: Block, k: int, cont: Seq<Block>, last: bool, protected: Seq<Text>)
    requires
        0 <= k <= b.len(),
    ensures
        deep(call_count(true), literals_moved_inside(b, cont, last, protected).take(k)) == deep(call_count(true), b.take(k)),
    decreases b, 0nat, k,
{
    let c = literals_moved_inside(b, cont, last, protected);
    if k > 0 {
        moving_inside_keeps(b, k - 1, cont, last, protected);
        moving_in_stmt_keeps(b[k - 1], seq![b.subrange(k, b.len() as int)] + cont, last, protected);
        assert(c.take(k).drop_last() =~= c.take(k - 1));
        assert(b.take(k).drop_last() =~= b.take(k - 1));
        assert(c.take(k).last() == c[k - 1]);
        assert(b.take(k).last() == b[k - 1]);
    } else {
        assert(c.take(0) =~= b.take(0));
    }
}

proof fn moving_in_stmt_keeps(s: StmtV, cont: Seq<Block>, last: bool, protected: Seq<Text>)
    ensures
        deep_stmt(call_count(true), literals_moved_in(s, cont, last, protected)) == deep_stmt(call_count(true), s),
    decreases s, 0nat, 0int,
{
    match s {
        StmtV::If { then_body, else_body, .. } => {
            moving_keeps_calls(then_body, cont, last, protected);
            moving_keeps_calls(else_body, cont, last, protected);
        },
        StmtV::Loop { body, .. } => {
            moving_keeps_calls(body, Seq::empty(), true, protected);
        },
        _ => {},
    }
}

} // verus!
