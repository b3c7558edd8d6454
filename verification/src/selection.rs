//! Which registers are split: those that nothing inside loops and branches mentions.
use vstd::prelude::*;

use crate::ast::{Block, ExprV, FieldV, LoopHead, StmtV};
use crate::meaning::{run, Lang, StateV};
use crate::names::{ascending, insert_all, insert_all_members};
use crate::naming::datatype;
use crate::query::{
    collect, expr_reads, exprs_reads, field_reads, fields_reads, own_reads, own_writes, reads_of, target_reads,
    targets_reads, var_names, writes_to,
};
use crate::routing::each;
use crate::split::{
    block_vars, fused, fused_in, head_vars, is_digit, mentioned, mentions, number, registers_split, renamed,
    renamed_all, renamed_field, renamed_fields, renamed_names, renamed_stmt, renamed_target, split, split_in,
    split_inside, splittable, synthetic, vars, vars_all, vars_field, vars_fields, version, version_name, versioned,
    versioned_all,
};
use crate::splitting::{all_versions, moved, outside_only, plain_names, separable, splitting_keeps_runs};
use crate::text::{decimal, digit, Text};
use crate::weight::{deep, deep_stmt};

verus! {

// ---- mentioned variables are listed ---------------------------------------------------------------------------

proof fn either(a: Seq<Text>, b: Seq<Text>, n: Text)
    ensures
        (a + b).contains(n) <==> a.contains(n) || b.contains(n),
{
    if a.contains(n) {
        let i = choose|i: int| 0 <= i < a.len() && a[i] == n;
        assert((a + b)[i] == n);
    }
    if b.contains(n) {
        let i = choose|i: int| 0 <= i < b.len() && b[i] == n;
        assert((a + b)[a.len() + i] == n);
    }
}

/// A variable that an expression reads is among its variables.
proof fn read_is_listed(e: ExprV, n: Text)
    requires
        expr_reads(e, n) > 0,
    ensures
        vars(e, true, true).contains(n),
    decreases e,
{
    match e {
        ExprV::Var(m) => {
            assert(seq![m][0] == n);
        },
        ExprV::Index(t, k) => {
            either(vars(*t, true, true), vars(*k, true, true), n);
            if expr_reads(*t, n) > 0 {
                read_is_listed(*t, n);
            } else {
                read_is_listed(*k, n);
            }
        },
        ExprV::Field(t, _) => read_is_listed(*t, n),
        ExprV::Call(f, args) => {
            either(vars(*f, true, true), vars_all(args, true, true), n);
            if expr_reads(*f, n) > 0 {
                read_is_listed(*f, n);
            } else {
                reads_are_listed(args, n);
            }
        },
        ExprV::MethodCall(o, _, args) => {
            either(vars(*o, true, true), vars_all(args, true, true), n);
            if expr_reads(*o, n) > 0 {
                read_is_listed(*o, n);
            } else {
                reads_are_listed(args, n);
            }
        },
        ExprV::Unary(_, a) => read_is_listed(*a, n),
        ExprV::Binary(_, a, b) => {
            either(vars(*a, true, true), vars(*b, true, true), n);
            if expr_reads(*a, n) > 0 {
                read_is_listed(*a, n);
            } else {
                read_is_listed(*b, n);
            }
        },
        ExprV::Table(fs) => fields_are_listed(fs, n),
        _ => {},
    }
}

proof fn reads_are_listed(es: Seq<ExprV>, n: Text)
    requires
        exprs_reads(es, n) > 0,
    ensures
        vars_all(es, true, true).contains(n),
    decreases es,
{
    either(vars_all(es.drop_last(), true, true), vars(es.last(), true, true), n);
    if exprs_reads(es.drop_last(), n) > 0 {
        reads_are_listed(es.drop_last(), n);
    } else {
        read_is_listed(es.last(), n);
    }
}

proof fn fields_are_listed(fs: Seq<FieldV>, n: Text)
    requires
        fields_reads(fs, n) > 0,
    ensures
        vars_fields(fs, true, true).contains(n),
    decreases fs,
{
    either(vars_fields(fs.drop_last(), true, true), vars_field(fs.last(), true, true), n);
    if fields_reads(fs.drop_last(), n) > 0 {
        fields_are_listed(fs.drop_last(), n);
    } else {
        assert(field_reads(fs.last(), n) > 0);
        match fs.last() {
            FieldV::Item(e) => read_is_listed(e, n),
            FieldV::Named(_, e) => read_is_listed(e, n),
            FieldV::Keyed(k, e) => {
                either(vars(k, true, true), vars(e, true, true), n);
                if expr_reads(k, n) > 0 {
                    read_is_listed(k, n);
                } else {
                    read_is_listed(e, n);
                }
            },
        }
    }
}

proof fn targets_are_listed(ts: Seq<ExprV>, n: Text)
    requires
        targets_reads(ts, n) > 0 || var_names(ts).contains(n),
    ensures
        vars_all(ts, true, true).contains(n),
    decreases ts.len(),
{
    if ts.len() > 0 {
        let front = ts.drop_last();
        either(vars_all(front, true, true), vars(ts.last(), true, true), n);
        if targets_reads(front, n) > 0 || var_names(front).contains(n) {
            targets_are_listed(front, n);
        } else if target_reads(ts.last(), n) > 0 {
            read_is_listed(ts.last(), n);
        } else {
            let i = choose|i: int| 0 <= i < var_names(ts).len() && var_names(ts)[i] == n;
            if let ExprV::Var(m) = ts.last() {
                if i < var_names(front).len() {
                    assert(var_names(front)[i] == n);
                }
                assert(seq![m][0] == m);
            } else {
                assert(var_names(front).contains(n));
            }
        }
    }
}

/// A variable that a statement inside another reads or writes has to stay whole.
proof fn inside_stays_whole(s: StmtV, n: Text)
    requires
        deep_stmt(reads_of(n), s) > 0 || deep_stmt(writes_to(n), s) > 0,
    ensures
        fused_in(s, true).contains(n),
    decreases s,
{
    match s {
        StmtV::If { cond, then_body, else_body } => {
            let a = vars(cond, true, true);
            either(a + fused(then_body, true), fused(else_body, true), n);
            either(a, fused(then_body, true), n);
            if expr_reads(cond, n) > 0 {
                read_is_listed(cond, n);
            } else if deep(reads_of(n), then_body) > 0 || deep(writes_to(n), then_body) > 0 {
                block_stays_whole(then_body, n);
            } else {
                block_stays_whole(else_body, n);
            }
        },
        StmtV::Loop { head, body } => {
            either(head_vars(head), fused(body, true), n);
            if deep(reads_of(n), body) > 0 || deep(writes_to(n), body) > 0 {
                block_stays_whole(body, n);
            } else {
                head_is_listed(s, head, body, n);
            }
        },
        StmtV::Local { names, values } => {
            either(names, vars_all(values, true, true), n);
            if exprs_reads(values, n) > 0 {
                reads_are_listed(values, n);
            }
        },
        StmtV::Assign { targets, values } => {
            either(vars_all(targets, true, true), vars_all(values, true, true), n);
            if exprs_reads(values, n) > 0 {
                reads_are_listed(values, n);
            } else {
                targets_are_listed(targets, n);
            }
        },
        StmtV::Call(e) => read_is_listed(e, n),
        StmtV::Return(es) => reads_are_listed(es, n),
        _ => {},
    }
}

proof fn head_is_listed(s: StmtV, head: LoopHead, body: Block, n: Text)
    requires
        s == (StmtV::Loop { head, body }),
        own_reads(s, n) > 0 || own_writes(s).contains(n),
    ensures
        head_vars(head).contains(n),
{
    match head {
        LoopHead::While(c) => read_is_listed(c, n),
        LoopHead::Repeat(c) => read_is_listed(c, n),
        LoopHead::Numeric { var, start, limit, step } => {
            let a = seq![var];
            let b = vars(start, true, true);
            let c = vars(limit, true, true);
            let d = match step {
                Some(e) => vars(e, true, true),
                None => Seq::empty(),
            };
            either(a + b + c, d, n);
            either(a + b, c, n);
            either(a, b, n);
            if expr_reads(start, n) > 0 {
                read_is_listed(start, n);
            } else if expr_reads(limit, n) > 0 {
                read_is_listed(limit, n);
            } else if own_reads(s, n) > 0 {
                read_is_listed(step->Some_0, n);
            }
        },
        LoopHead::Generic { vars: names, exprs } => {
            either(names, vars_all(exprs, true, true), n);
            if exprs_reads(exprs, n) > 0 {
                reads_are_listed(exprs, n);
            }
        },
    }
}

proof fn block_stays_whole(b: Block, n: Text)
    requires
        deep(reads_of(n), b) > 0 || deep(writes_to(n), b) > 0,
    ensures
        fused(b, true).contains(n),
    decreases b,
{
    if b.len() > 0 {
        either(fused(b.drop_last(), true), fused_in(b.last(), true), n);
        if deep(reads_of(n), b.drop_last()) > 0 || deep(writes_to(n), b.drop_last()) > 0 {
            block_stays_whole(b.drop_last(), n);
        } else {
            inside_stays_whole(b.last(), n);
        }
    }
}

proof fn fused_at(b: Block, i: int, nested: bool, n: Text)
    requires
        0 <= i < b.len(),
        fused_in(b[i], nested).contains(n),
    ensures
        fused(b, nested).contains(n),
    decreases b.len(),
{
    either(fused(b.drop_last(), nested), fused_in(b.last(), nested), n);
    if i < b.len() - 1 {
        assert(b.drop_last()[i] == b[i]);
        fused_at(b.drop_last(), i, nested, n);
    }
}

/// Whether `s` mentions `n` in no statement inside it and in no loop.
pub open spec fn only_outside(s: StmtV, n: Text) -> bool {
    &&& s matches StmtV::If { then_body, else_body, .. } ==> deep(reads_of(n), then_body) == 0 && deep(
        reads_of(n),
        else_body,
    ) == 0 && deep(writes_to(n), then_body) == 0 && deep(writes_to(n), else_body) == 0
    &&& s is Loop ==> deep_stmt(reads_of(n), s) == 0 && deep_stmt(writes_to(n), s) == 0
}

/// What may be split is not protected, and nothing mentions it inside a loop or a branch.
pub proof fn split_registers_stand_outside(b: Block, protected: Seq<Text>, names: Seq<Text>, n: Text, i: int)
    requires
        splittable(names, insert_all(protected, fused(b, false))).contains(n),
        0 <= i < b.len(),
    ensures
        names.contains(n),
        synthetic(n),
        !protected.contains(n),
        only_outside(b[i], n),
{
    let whole = insert_all(protected, fused(b, false));
    splittable_members(names, whole, n);
    insert_all_members(protected, fused(b, false), n);
    let s = b[i];
    if fused_in(s, false).contains(n) {
        fused_at(b, i, false, n);
    }
    match s {
        StmtV::If { cond, then_body, else_body } => {
            let a = vars(cond, false, true);
            either(a + fused(then_body, true), fused(else_body, true), n);
            either(a, fused(then_body, true), n);
            if deep(reads_of(n), then_body) > 0 || deep(writes_to(n), then_body) > 0 {
                block_stays_whole(then_body, n);
            }
            if deep(reads_of(n), else_body) > 0 || deep(writes_to(n), else_body) > 0 {
                block_stays_whole(else_body, n);
            }
        },
        StmtV::Loop { .. } => {
            if deep_stmt(reads_of(n), s) > 0 || deep_stmt(writes_to(n), s) > 0 {
                inside_stays_whole(s, n);
            }
        },
        _ => {},
    }
}

proof fn splittable_members(names: Seq<Text>, whole: Seq<Text>, n: Text)
    ensures
        splittable(names, whole).contains(n) <==> names.contains(n) && synthetic(n) && !whole.contains(n),
    decreases names.len(),
{
    if names.len() > 0 {
        let front = names.drop_last();
        let m = names.last();
        splittable_members(front, whole, n);
        assert(names =~= front + seq![m]);
        either(front, seq![m], n);
        assert(seq![m].contains(n) <==> m == n) by {
            assert(seq![m][0] == m);
        }
        let r = splittable(front, whole);
        assert(r.push(m) =~= r + seq![m]);
        either(r, seq![m], n);
    }
}

// ---- what stands inside stays ---------------------------------------------------------------------------------

proof fn vars_with_text(e: ExprV, n: Text)
    requires
        vars(e, true, false).contains(n),
    ensures
        vars(e, true, true).contains(n),
    decreases e,
{
    match e {
        ExprV::Index(t, k) => {
            either(vars(*t, true, false), vars(*k, true, false), n);
            either(vars(*t, true, true), vars(*k, true, true), n);
            if vars(*t, true, false).contains(n) {
                vars_with_text(*t, n);
            } else {
                vars_with_text(*k, n);
            }
        },
        ExprV::Field(t, _) => vars_with_text(*t, n),
        ExprV::Call(f, args) => {
            either(vars(*f, true, false), vars_all(args, true, false), n);
            either(vars(*f, true, true), vars_all(args, true, true), n);
            if vars(*f, true, false).contains(n) {
                vars_with_text(*f, n);
            } else {
                vars_all_with_text(args, n);
            }
        },
        ExprV::MethodCall(o, _, args) => {
            either(vars(*o, true, false), vars_all(args, true, false), n);
            either(vars(*o, true, true), vars_all(args, true, true), n);
            if vars(*o, true, false).contains(n) {
                vars_with_text(*o, n);
            } else {
                vars_all_with_text(args, n);
            }
        },
        ExprV::Unary(_, a) => vars_with_text(*a, n),
        ExprV::Binary(_, a, b) => {
            either(vars(*a, true, false), vars(*b, true, false), n);
            either(vars(*a, true, true), vars(*b, true, true), n);
            if vars(*a, true, false).contains(n) {
                vars_with_text(*a, n);
            } else {
                vars_with_text(*b, n);
            }
        },
        ExprV::Table(fs) => vars_fields_with_text(fs, n),
        _ => {},
    }
}

proof fn vars_all_with_text(es: Seq<ExprV>, n: Text)
    requires
        vars_all(es, true, false).contains(n),
    ensures
        vars_all(es, true, true).contains(n),
    decreases es,
{
    if es.len() > 0 {
        either(vars_all(es.drop_last(), true, false), vars(es.last(), true, false), n);
        either(vars_all(es.drop_last(), true, true), vars(es.last(), true, true), n);
        if vars_all(es.drop_last(), true, false).contains(n) {
            vars_all_with_text(es.drop_last(), n);
        } else {
            vars_with_text(es.last(), n);
        }
    }
}

proof fn vars_fields_with_text(fs: Seq<FieldV>, n: Text)
    requires
        vars_fields(fs, true, false).contains(n),
    ensures
        vars_fields(fs, true, true).contains(n),
    decreases fs,
{
    if fs.len() > 0 {
        either(vars_fields(fs.drop_last(), true, false), vars_field(fs.last(), true, false), n);
        either(vars_fields(fs.drop_last(), true, true), vars_field(fs.last(), true, true), n);
        if vars_fields(fs.drop_last(), true, false).contains(n) {
            vars_fields_with_text(fs.drop_last(), n);
        } else {
            assert(vars_field(fs.last(), true, false).contains(n));
            match fs.last() {
                FieldV::Item(e) => vars_with_text(e, n),
                FieldV::Named(_, e) => vars_with_text(e, n),
                FieldV::Keyed(k, e) => {
                    either(vars(k, true, false), vars(e, true, false), n);
                    either(vars(k, true, true), vars(e, true, true), n);
                    if vars(k, true, false).contains(n) {
                        vars_with_text(k, n);
                    } else {
                        vars_with_text(e, n);
                    }
                },
            }
        }
    }
}

proof fn mentioned_is_fused(s: StmtV, n: Text)
    requires
        mentioned(s).contains(n),
    ensures
        fused_in(s, true).contains(n),
{
    match s {
        StmtV::Local { names, values } => {
            either(names, vars_all(values, true, false), n);
            either(names, vars_all(values, true, true), n);
            if vars_all(values, true, false).contains(n) {
                vars_all_with_text(values, n);
            }
        },
        StmtV::Assign { targets, values } => {
            either(vars_all(targets, true, false), vars_all(values, true, false), n);
            either(vars_all(targets, true, true), vars_all(values, true, true), n);
            if vars_all(values, true, false).contains(n) {
                vars_all_with_text(values, n);
            } else {
                vars_all_with_text(targets, n);
            }
        },
        StmtV::Call(e) => vars_with_text(e, n),
        StmtV::Return(es) => vars_all_with_text(es, n),
        StmtV::If { cond, then_body, else_body } => {
            vars_with_text(cond, n);
            let a = vars(cond, true, true);
            either(a + fused(then_body, true), fused(else_body, true), n);
            either(a, fused(then_body, true), n);
        },
        StmtV::Loop { head, body } => {
            either(head_vars(head), fused(body, true), n);
            match head {
                LoopHead::While(c) => vars_with_text(c, n),
                LoopHead::Repeat(c) => vars_with_text(c, n),
                _ => {},
            }
        },
        _ => {},
    }
}

proof fn block_vars_are_fused(b: Block, n: Text)
    requires
        block_vars(b).contains(n),
    ensures
        fused(b, true).contains(n),
    decreases b.len(),
{
    if b.len() > 0 {
        insert_all_members(block_vars(b.drop_last()), mentioned(b.last()), n);
        either(fused(b.drop_last(), true), fused_in(b.last(), true), n);
        if mentioned(b.last()).contains(n) {
            mentioned_is_fused(b.last(), n);
        } else {
            block_vars_are_fused(b.drop_last(), n);
        }
    }
}

proof fn inner_block_stays(b: Block, whole: Seq<Text>)
    requires
        forall|x: Text| #[trigger] fused(b, true).contains(x) ==> whole.contains(x),
    ensures
        split(b, whole) == b,
    decreases b,
{
    assert forall|i: int| 0 <= i < b.len() implies split_in(#[trigger] b[i], whole) == b[i] by {
        assert forall|x: Text| #[trigger] fused_in(b[i], true).contains(x) implies whole.contains(x) by {
            fused_at(b, i, true, x);
            assert(fused(b, true).contains(x));
        }
        inner_stmt_stays(b[i], whole, true);
    }
    assert(split_inside(b, whole) =~= b);
    let names = splittable(block_vars(b), whole);
    if names.len() > 0 {
        let n = names[0];
        assert(names.contains(n));
        splittable_members(block_vars(b), whole, n);
        block_vars_are_fused(b, n);
        assert(fused(b, true).contains(n));
    }
}

proof fn inner_stmt_stays(s: StmtV, whole: Seq<Text>, nested: bool)
    requires
        forall|x: Text| #[trigger] fused_in(s, nested).contains(x) ==> whole.contains(x),
    ensures
        split_in(s, whole) == s,
    decreases s,
{
    match s {
        StmtV::If { cond, then_body, else_body } => {
            let a = vars(cond, nested, true);
            assert forall|x: Text| #[trigger] fused(then_body, true).contains(x) implies whole.contains(x) by {
                either(a + fused(then_body, true), fused(else_body, true), x);
                either(a, fused(then_body, true), x);
                assert(fused_in(s, nested).contains(x));
            }
            assert forall|x: Text| #[trigger] fused(else_body, true).contains(x) implies whole.contains(x) by {
                either(a + fused(then_body, true), fused(else_body, true), x);
                assert(fused_in(s, nested).contains(x));
            }
            inner_block_stays(then_body, whole);
            inner_block_stays(else_body, whole);
        },
        StmtV::Loop { head, body } => {
            assert forall|x: Text| #[trigger] fused(body, true).contains(x) implies whole.contains(x) by {
                either(head_vars(head), fused(body, true), x);
                assert(fused_in(s, nested).contains(x));
            }
            inner_block_stays(body, whole);
        },
        _ => {},
    }
}

/// Only the top level of a function is split: the statements inside branches and loops stay as they
/// are.
pub proof fn inner_statements_stay(b: Block, protected: Seq<Text>)
    ensures
        split_inside(b, insert_all(protected, fused(b, false))) == b,
{
    let whole = insert_all(protected, fused(b, false));
    assert forall|i: int| 0 <= i < b.len() implies split_in(#[trigger] b[i], whole) == b[i] by {
        assert forall|x: Text| #[trigger] fused_in(b[i], false).contains(x) implies whole.contains(x) by {
            fused_at(b, i, false, x);
            insert_all_members(protected, fused(b, false), x);
        }
        inner_stmt_stays(b[i], whole, false);
    }
    assert(split_inside(b, whole) =~= b);
}

// ---- names of versions ----------------------------------------------------------------------------------------

proof fn decimal_is_number(k: nat)
    ensures
        number(decimal(k)),
    decreases k,
{
    assert(digit(k % 10) as int == 48 + k % 10);
    if k >= 10 {
        decimal_is_number(k / 10);
        let d = decimal(k);
        assert forall|i: int| 0 <= i < d.len() implies is_digit(#[trigger] d[i]) by {
            if i < d.len() - 1 {
                assert(d[i] == decimal(k / 10)[i]);
            }
        }
    }
}

/// The names of registers and of their versions are names of variables.
proof fn register_names(n: Text, k: nat)
    requires
        synthetic(n),
    ensures
        plain_names(n, version_name(n, k)),
        version_name(n, k) != n,
{
    decimal_is_number(k);
    let d = decimal(k);
    let v = version_name(n, k);
    datatype_begins(n);
    datatype_begins(v);
    assert(v[0] == n[0]);
    assert forall|i: int| 0 <= i < n.len() implies #[trigger] n[i] != '.' by {
        if number(n.skip(1)) {
            if i > 0 {
                assert(n.skip(1)[i - 1] == n[i]);
            }
        } else {
            let j = choose|j: int|
                1 < j < n.len() && #[trigger] n[j] == '_' && number(n.subrange(1, j)) && number(n.skip(j + 1));
            if 0 < i < j {
                assert(n.subrange(1, j)[i - 1] == n[i]);
            } else if i > j {
                assert(n.skip(j + 1)[i - j - 1] == n[i]);
            }
        }
    }
    assert forall|i: int| 0 <= i < v.len() implies #[trigger] v[i] != '.' by {
        if i < n.len() {
            assert(v[i] == n[i]);
        } else if i > n.len() {
            assert(v[i] == d[i - n.len() - 1]);
        }
    }
}

proof fn datatype_begins(n: Text)
    ensures
        datatype(n) ==> n.len() > 0 && n[0] != 'v',
{
    reveal_strlit("Color3");
    reveal_strlit("Vector2");
    reveal_strlit("Vector3");
    reveal_strlit("CFrame");
    reveal_strlit("UDim");
    reveal_strlit("UDim2");
    reveal_strlit("Rect");
    reveal_strlit("Ray");
    reveal_strlit("BrickColor");
    reveal_strlit("NumberRange");
    reveal_strlit("NumberSequence");
    reveal_strlit("NumberSequenceKeypoint");
    reveal_strlit("ColorSequence");
    reveal_strlit("ColorSequenceKeypoint");
    reveal_strlit("TweenInfo");
}

/// Versions of different registers have different names.
proof fn versions_differ(n: Text, m: Text, j: nat, k: nat)
    requires
        version_name(n, j) == version_name(m, k),
    ensures
        n == m,
{
    let a = version_name(n, j);
    let b = version_name(m, k);
    decimal_is_number(j);
    decimal_is_number(k);
    assert(a.len() == n.len() + 1 + decimal(j).len());
    assert(b.len() == m.len() + 1 + decimal(k).len());
    assert(a[n.len() as int] == '_');
    assert(b[m.len() as int] == '_');
    if n.len() < m.len() {
        assert(a[m.len() as int] == decimal(j)[m.len() - n.len() - 1]);
    } else if m.len() < n.len() {
        assert(b[n.len() as int] == decimal(k)[n.len() - m.len() - 1]);
    } else {
        assert forall|i: int| 0 <= i < n.len() implies n[i] == m[i] by {
            assert(a[i] == n[i] && b[i] == m[i]);
        }
        assert(n =~= m);
    }
}

// ---- renaming brings no other variable in ---------------------------------------------------------------------

proof fn renamed_free(e: ExprV, n: Text, m: Text, x: Text)
    requires
        expr_reads(e, x) == 0,
        x != m,
    ensures
        expr_reads(renamed(e, n, m), x) == 0,
    decreases e,
{
    match e {
        ExprV::Index(t, k) => {
            renamed_free(*t, n, m, x);
            renamed_free(*k, n, m, x);
        },
        ExprV::Field(t, _) => renamed_free(*t, n, m, x),
        ExprV::Call(f, args) => {
            renamed_free(*f, n, m, x);
            all_renamed_free(args, n, m, x);
        },
        ExprV::MethodCall(o, _, args) => {
            renamed_free(*o, n, m, x);
            all_renamed_free(args, n, m, x);
        },
        ExprV::Unary(_, a) => renamed_free(*a, n, m, x),
        ExprV::Binary(_, a, b) => {
            renamed_free(*a, n, m, x);
            renamed_free(*b, n, m, x);
        },
        ExprV::Table(fs) => fields_renamed_free(fs, n, m, x),
        _ => {},
    }
}

proof fn all_renamed_free(es: Seq<ExprV>, n: Text, m: Text, x: Text)
    requires
        exprs_reads(es, x) == 0,
        x != m,
    ensures
        exprs_reads(renamed_all(es, n, m), x) == 0,
    decreases es,
{
    let r = renamed_all(es, n, m);
    if es.len() > 0 {
        all_renamed_free(es.drop_last(), n, m, x);
        renamed_free(es.last(), n, m, x);
        assert(r.drop_last() =~= renamed_all(es.drop_last(), n, m));
        assert(r.last() == renamed(es.last(), n, m));
    }
}

proof fn fields_renamed_free(fs: Seq<FieldV>, n: Text, m: Text, x: Text)
    requires
        fields_reads(fs, x) == 0,
        x != m,
    ensures
        fields_reads(renamed_fields(fs, n, m), x) == 0,
    decreases fs,
{
    let r = renamed_fields(fs, n, m);
    if fs.len() > 0 {
        fields_renamed_free(fs.drop_last(), n, m, x);
        assert(field_reads(fs.last(), x) == 0);
        match fs.last() {
            FieldV::Item(e) => renamed_free(e, n, m, x),
            FieldV::Named(_, e) => renamed_free(e, n, m, x),
            FieldV::Keyed(k, e) => {
                renamed_free(k, n, m, x);
                renamed_free(e, n, m, x);
            },
        }
        assert(r.drop_last() =~= renamed_fields(fs.drop_last(), n, m));
        assert(r.last() == renamed_field(fs.last(), n, m));
        assert(field_reads(r.last(), x) == 0);
    }
}

proof fn targets_renamed_free(ts: Seq<ExprV>, n: Text, r: Text, q: Text, x: Text)
    requires
        targets_reads(ts, x) == 0,
        !var_names(ts).contains(x),
        x != r && x != q,
    ensures
        ({
            let t = Seq::new(ts.len(), |i: int| renamed_target(ts[i], n, r, q));
            targets_reads(t, x) == 0 && !var_names(t).contains(x)
        }),
    decreases ts.len(),
{
    let t = Seq::new(ts.len(), |i: int| renamed_target(ts[i], n, r, q));
    if ts.len() > 0 {
        let front = ts.drop_last();
        let names = var_names(front);
        let last = ts.last();
        let own = if let ExprV::Var(v) = last {
            seq![v]
        } else {
            Seq::empty()
        };
        assert(var_names(ts) =~= names + own);
        either(names, own, x);
        targets_renamed_free(front, n, r, q, x);
        assert(t.drop_last() =~= Seq::new(front.len(), |i: int| renamed_target(front[i], n, r, q)));
        assert(t.last() == renamed_target(last, n, r, q));
        assert(target_reads(last, x) == 0);
        if let ExprV::Var(v) = last {
            assert(var_names(ts)[names.len() as int] == v);
            let w = if v == n {
                q
            } else {
                v
            };
            assert(var_names(t) =~= var_names(t.drop_last()) + seq![w]);
            either(var_names(t.drop_last()), seq![w], x);
        } else {
            renamed_free(last, n, r, x);
            assert(!(t.last() is Var));
        }
    }
}

/// Whether neither `s` nor a statement inside it mentions `x`.
pub open spec fn unmentioned(s: StmtV, x: Text) -> bool {
    deep_stmt(reads_of(x), s) == 0 && deep_stmt(writes_to(x), s) == 0
}

proof fn stmt_renamed_free(s: StmtV, n: Text, r: Text, q: Text, x: Text)
    requires
        unmentioned(s, x),
        x != r && x != q,
    ensures
        unmentioned(renamed_stmt(s, n, r, q), x),
{
    let t = renamed_stmt(s, n, r, q);
    assert(own_reads(s, x) == 0);
    assert(!own_writes(s).contains(x));
    match s {
        StmtV::Local { names, values } => {
            all_renamed_free(values, n, r, x);
            let m = renamed_names(names, n, q);
            if m.contains(x) {
                let i = choose|i: int| 0 <= i < m.len() && m[i] == x;
                assert(names[i] == x);
            }
        },
        StmtV::Assign { targets, values } => {
            all_renamed_free(values, n, r, x);
            targets_renamed_free(targets, n, r, q, x);
        },
        StmtV::Call(e) => renamed_free(e, n, r, x),
        StmtV::Return(es) => all_renamed_free(es, n, r, x),
        StmtV::If { cond, .. } => renamed_free(cond, n, r, x),
        StmtV::Loop { head: LoopHead::While(c), .. } => renamed_free(c, n, r, x),
        StmtV::Loop { head: LoopHead::Repeat(c), .. } => renamed_free(c, n, r, x),
        _ => {},
    }
    assert(own_reads(t, x) == 0);
    assert(!own_writes(t).contains(x));
}

proof fn stays_outside(s: StmtV, n: Text, r: Text, q: Text, x: Text)
    requires
        only_outside(s, x),
        x != r && x != q,
    ensures
        only_outside(renamed_stmt(s, n, r, q), x),
{
    if s is Loop {
        stmt_renamed_free(s, n, r, q, x);
    }
}

// ---- all registers ----------------------------------------------------------------------------------------------

/// Whether nothing in `b` mentions a version of `n`, and nothing inside its statements mentions `n`.
pub open spec fn ready(b: Block, n: Text) -> bool {
    &&& forall|i: int, k: nat| 0 <= i < b.len() ==> #[trigger] unmentioned(b[i], version_name(n, k))
    &&& forall|i: int| 0 <= i < b.len() ==> only_outside(#[trigger] b[i], n)
}

proof fn ready_is_separable(b: Block, n: Text)
    requires
        ready(b, n),
        synthetic(n),
    ensures
        separable(b, n),
{
    let names = all_versions(n, version(b, b.len() as int, n));
    assert forall|i: int| 0 <= i < b.len() implies outside_only(#[trigger] b[i], n, names) by {
        assert forall|x: Text| names.contains(x) && x != n implies #[trigger] deep_stmt(reads_of(x), b[i]) == 0
            && deep_stmt(writes_to(x), b[i]) == 0 by {
            let k = choose|k: int| 0 <= k < names.len() && names[k] == x;
            assert(x == version_name(n, k as nat));
            assert(unmentioned(b[i], version_name(n, k as nat)));
        }
        assert(only_outside(b[i], n));
    }
    assert forall|k: nat| plain_names(n, #[trigger] version_name(n, k)) && version_name(n, k) != n by {
        register_names(n, k);
    }
}

/// Splitting `m` leaves another register ready.
proof fn stays_ready(b: Block, m: Text, n: Text)
    requires
        ready(b, n),
        n != m,
        forall|k: nat| n != #[trigger] version_name(m, k),
    ensures
        ready(versioned(b, m), n),
{
    let d = versioned(b, m);
    if version(b, b.len() as int, m) > 1 {
        assert forall|i: int, k: nat| 0 <= i < d.len() implies #[trigger] unmentioned(d[i], version_name(n, k)) by {
            let r = version_name(m, version(b, i, m));
            let q = version_name(m, version(b, i + 1, m));
            let x = version_name(n, k);
            if x == r {
                versions_differ(n, m, k, version(b, i, m));
            }
            if x == q {
                versions_differ(n, m, k, version(b, i + 1, m));
            }
            assert(unmentioned(b[i], version_name(n, k)));
            stmt_renamed_free(b[i], m, r, q, x);
        }
        assert forall|i: int| 0 <= i < d.len() implies only_outside(#[trigger] d[i], n) by {
            assert(only_outside(b[i], n));
            stays_outside(b[i], m, version_name(m, version(b, i, m)), version_name(m, version(b, i + 1, m)), n);
        }
    }
}

/// Whether no register among `names` occurs twice or is a version of another, and all are ready.
pub open spec fn all_ready(b: Block, names: Seq<Text>) -> bool {
    &&& forall|i: int| 0 <= i < names.len() ==> synthetic(#[trigger] names[i]) && ready(b, names[i])
    &&& distinct(names)
    &&& forall|i: int, k: nat| 0 <= i < names.len() ==> !names.contains(#[trigger] version_name(names[i], k))
}

proof fn later_stay_ready(b: Block, names: Seq<Text>, k: int, j: int)
    requires
        all_ready(b, names),
        0 <= k <= j < names.len(),
    ensures
        ready(versioned_all(b, names.take(k)), names[j]),
    decreases k,
{
    if k > 0 {
        later_stay_ready(b, names, k - 1, j);
        assert(names.take(k).drop_last() =~= names.take(k - 1));
        let m = names[k - 1];
        assert(names.take(k).last() == m);
        assert forall|v: nat| names[j] != #[trigger] version_name(m, v) by {
            assert(!names.contains(version_name(names[k - 1], v)));
            assert(names.contains(names[j]));
        }
        stays_ready(versioned_all(b, names.take(k - 1)), m, names[j]);
    } else {
        assert(names.take(0) =~= Seq::<Text>::empty());
    }
}

/// Whether `x` is the first version of one of the first `k` of `names`.
pub open spec fn first_of(names: Seq<Text>, k: int, x: Text) -> bool {
    exists|j: int| 0 <= j < k && x == version_name(#[trigger] names[j], 1)
}

/// Whether the first version of each of `names` begins with the value of the register, and all else
/// is the same.
pub open spec fn begin_alike(names: Seq<Text>, st: StateV, st2: StateV) -> bool {
    &&& st.w == st2.w
    &&& forall|j: int| 0 <= j < names.len() ==> (st2.env)(version_name(#[trigger] names[j], 1)) == (st.env)(names[j])
    &&& forall|x: Text| !first_of(names, names.len() as int, x) ==> #[trigger] (st.env)(x) == (st2.env)(x)
}

/// Whether `x` is one of `names` or a version of one.
pub open spec fn version_of_any(names: Seq<Text>, x: Text) -> bool {
    names.contains(x) || exists|j: int, k: nat| 0 <= j < names.len() && x == #[trigger] version_name(names[j], k)
}

/// Whether two runs end the same way, and alike in every variable but `names` and their versions.
pub open spec fn same_but_versions(names: Seq<Text>, a: crate::meaning::RunV, c: crate::meaning::RunV) -> bool {
    &&& a.out == c.out && a.st.w == c.st.w
    &&& forall|x: Text| !version_of_any(names, x) ==> #[trigger] (a.st.env)(x) == (c.st.env)(x)
}

/// The state in which the first `k` of `names` have begun.
spec fn between(names: Seq<Text>, k: int, st: StateV, st2: StateV) -> StateV {
    StateV {
        env: |x: Text|
            if first_of(names, k, x) {
                (st2.env)(x)
            } else {
                (st.env)(x)
            },
        w: st.w,
    }
}

proof fn unmentioned_block(b: Block, x: Text)
    requires
        forall|i: int| 0 <= i < b.len() ==> unmentioned(#[trigger] b[i], x),
    ensures
        deep(reads_of(x), b) == 0,
    decreases b.len(),
{
    if b.len() > 0 {
        assert(unmentioned(b[b.len() - 1], x));
        assert forall|i: int| 0 <= i < b.drop_last().len() implies unmentioned(#[trigger] b.drop_last()[i], x) by {
            assert(unmentioned(b[i], x));
        }
        unmentioned_block(b.drop_last(), x);
    }
}

proof fn one_more(l: Lang, b: Block, names: Seq<Text>, j: int, a: StateV, c: StateV, fuel: nat)
    requires
        0 <= j < names.len(),
        ready(b, names[j]),
        synthetic(names[j]),
        a.w == c.w,
        (c.env)(version_name(names[j], 1)) == (a.env)(names[j]),
        forall|x: Text| x != version_name(names[j], 1) ==> #[trigger] (a.env)(x) == (c.env)(x),
    ensures
        same_but_versions(names, run(l, b, a, fuel), run(l, versioned(b, names[j]), c, fuel)),
{
    let n = names[j];
    let first = version_name(n, 1);
    let last = version(b, b.len() as int, n);
    let ra = run(l, b, a, fuel);
    let rc = run(l, versioned(b, n), c, fuel);
    if last > 1 {
        ready_is_separable(b, n);
        let vs = all_versions(n, last);
        assert(vs[1] == first);
        assert(moved(vs, n, first, a.env, c.env)) by {
            assert forall|x: Text| !vs.contains(x) implies #[trigger] (a.env)(x) == (c.env)(x) by {
                assert(x != first);
            }
        }
        splitting_keeps_runs(l, b, n, a, c, fuel);
        assert forall|x: Text| !version_of_any(names, x) implies #[trigger] (ra.st.env)(x) == (rc.st.env)(x) by {
            if vs.contains(x) {
                let k = choose|k: int| 0 <= k < vs.len() && vs[k] == x;
                if k == 0 {
                    assert(names.contains(x));
                } else {
                    assert(x == version_name(names[j], k as nat));
                }
            }
        }
    } else {
        assert forall|i: int| 0 <= i < b.len() implies unmentioned(#[trigger] b[i], first) by {
            assert(unmentioned(b[i], version_name(n, 1)));
        }
        unmentioned_block(b, first);
        crate::meaning::unread_run(l, b, a, c, first, fuel);
        assert forall|x: Text| !version_of_any(names, x) implies #[trigger] (ra.st.env)(x) == (rc.st.env)(x) by {
            assert(first == version_name(names[j], 1));
        }
    }
}

proof fn splits_keep_runs(l: Lang, b: Block, names: Seq<Text>, k: int, st: StateV, st2: StateV, fuel: nat)
    requires
        all_ready(b, names),
        begin_alike(names, st, st2),
        0 <= k <= names.len(),
    ensures
        same_but_versions(
            names,
            run(l, b, st, fuel),
            run(l, versioned_all(b, names.take(k)), between(names, k, st, st2), fuel),
        ),
    decreases k,
{
    let c = between(names, k, st, st2);
    if k > 0 {
        let a = between(names, k - 1, st, st2);
        let n = names[k - 1];
        let d = versioned_all(b, names.take(k - 1));
        splits_keep_runs(l, b, names, k - 1, st, st2, fuel);
        later_stay_ready(b, names, k - 1, k - 1);
        assert(names.take(k).drop_last() =~= names.take(k - 1));
        assert(names.take(k).last() == n);
        let first = version_name(n, 1);
        assert(first_of(names, k, first));
        assert((c.env)(first) == (st2.env)(first));
        if first_of(names, k - 1, n) {
            let j = choose|j: int| 0 <= j < k - 1 && n == version_name(#[trigger] names[j], 1);
            assert(!names.contains(version_name(names[j], 1)));
            assert(names.contains(n));
        }
        assert((a.env)(n) == (st.env)(n));
        assert forall|x: Text| x != first implies #[trigger] (a.env)(x) == (c.env)(x) by {
            assert(first_of(names, k, x) == first_of(names, k - 1, x));
        }
        one_more(l, d, names, k - 1, a, c, fuel);
        let r0 = run(l, b, st, fuel);
        let r1 = run(l, d, a, fuel);
        let r2 = run(l, versioned(d, n), c, fuel);
        assert forall|x: Text| !version_of_any(names, x) implies #[trigger] (r0.st.env)(x) == (r2.st.env)(x) by {
            assert((r0.st.env)(x) == (r1.st.env)(x));
        }
    } else {
        assert(names.take(0) =~= Seq::<Text>::empty());
        assert forall|x: Text| #[trigger] (c.env)(x) == (st.env)(x) by {
            assert(!first_of(names, 0, x));
        }
        assert(c.env =~= st.env);
    }
}

proof fn listed_is_read(e: ExprV, x: Text)
    requires
        vars(e, true, false).contains(x),
        !x.contains('.'),
    ensures
        expr_reads(e, x) > 0,
    decreases e,
{
    match e {
        ExprV::Index(t, k) => {
            either(vars(*t, true, false), vars(*k, true, false), x);
            if vars(*t, true, false).contains(x) {
                listed_is_read(*t, x);
            } else {
                listed_is_read(*k, x);
            }
        },
        ExprV::Field(t, _) => listed_is_read(*t, x),
        ExprV::Call(f, args) => {
            either(vars(*f, true, false), vars_all(args, true, false), x);
            if vars(*f, true, false).contains(x) {
                listed_is_read(*f, x);
            } else {
                listed_are_read(args, x);
            }
        },
        ExprV::MethodCall(o, _, args) => {
            either(vars(*o, true, false), vars_all(args, true, false), x);
            if vars(*o, true, false).contains(x) {
                listed_is_read(*o, x);
            } else {
                listed_are_read(args, x);
            }
        },
        ExprV::Unary(_, a) => listed_is_read(*a, x),
        ExprV::Binary(_, a, b) => {
            either(vars(*a, true, false), vars(*b, true, false), x);
            if vars(*a, true, false).contains(x) {
                listed_is_read(*a, x);
            } else {
                listed_is_read(*b, x);
            }
        },
        ExprV::Table(fs) => listed_fields_are_read(fs, x),
        _ => {},
    }
}

proof fn listed_are_read(es: Seq<ExprV>, x: Text)
    requires
        vars_all(es, true, false).contains(x),
        !x.contains('.'),
    ensures
        exprs_reads(es, x) > 0,
    decreases es,
{
    if es.len() > 0 {
        either(vars_all(es.drop_last(), true, false), vars(es.last(), true, false), x);
        if vars_all(es.drop_last(), true, false).contains(x) {
            listed_are_read(es.drop_last(), x);
        } else {
            listed_is_read(es.last(), x);
        }
    }
}

proof fn listed_fields_are_read(fs: Seq<FieldV>, x: Text)
    requires
        vars_fields(fs, true, false).contains(x),
        !x.contains('.'),
    ensures
        fields_reads(fs, x) > 0,
    decreases fs,
{
    if fs.len() > 0 {
        either(vars_fields(fs.drop_last(), true, false), vars_field(fs.last(), true, false), x);
        if vars_fields(fs.drop_last(), true, false).contains(x) {
            listed_fields_are_read(fs.drop_last(), x);
        } else {
            assert(vars_field(fs.last(), true, false).contains(x));
            match fs.last() {
                FieldV::Item(e) => listed_is_read(e, x),
                FieldV::Named(_, e) => listed_is_read(e, x),
                FieldV::Keyed(k, e) => {
                    either(vars(k, true, false), vars(e, true, false), x);
                    if vars(k, true, false).contains(x) {
                        listed_is_read(k, x);
                    } else {
                        listed_is_read(e, x);
                    }
                },
            }
            assert(field_reads(fs.last(), x) > 0);
        }
    }
}

proof fn listed_targets(ts: Seq<ExprV>, x: Text)
    requires
        vars_all(ts, true, false).contains(x),
        !x.contains('.'),
    ensures
        targets_reads(ts, x) > 0 || var_names(ts).contains(x),
    decreases ts.len(),
{
    if ts.len() > 0 {
        let front = ts.drop_last();
        let last = ts.last();
        let own = if let ExprV::Var(v) = last {
            seq![v]
        } else {
            Seq::empty()
        };
        assert(var_names(ts) =~= var_names(front) + own);
        either(var_names(front), own, x);
        either(vars_all(front, true, false), vars(last, true, false), x);
        if vars_all(front, true, false).contains(x) {
            listed_targets(front, x);
        } else if !(last is Var) {
            listed_is_read(last, x);
        }
    }
}

proof fn listed_is_mentioned(s: StmtV, x: Text)
    requires
        mentioned(s).contains(x),
        !x.contains('.'),
    ensures
        !unmentioned(s, x),
{
    match s {
        StmtV::Local { names, values } => {
            either(names, vars_all(values, true, false), x);
            if vars_all(values, true, false).contains(x) {
                listed_are_read(values, x);
            } else {
                assert(own_writes(s).contains(x));
            }
        },
        StmtV::Assign { targets, values } => {
            either(vars_all(targets, true, false), vars_all(values, true, false), x);
            if vars_all(values, true, false).contains(x) {
                listed_are_read(values, x);
            } else {
                listed_targets(targets, x);
            }
        },
        StmtV::Call(e) => listed_is_read(e, x),
        StmtV::Return(es) => listed_are_read(es, x),
        StmtV::If { cond, .. } => listed_is_read(cond, x),
        StmtV::Loop { head: LoopHead::While(c), .. } => listed_is_read(c, x),
        StmtV::Loop { head: LoopHead::Repeat(c), .. } => listed_is_read(c, x),
        _ => {},
    }
    assert(own_reads(s, x) > 0 || own_writes(s).contains(x));
}

proof fn listed_somewhere(b: Block, x: Text) -> (i: int)
    requires
        block_vars(b).contains(x),
        !x.contains('.'),
    ensures
        0 <= i < b.len(),
        !unmentioned(b[i], x),
    decreases b.len(),
{
    if b.len() == 0 {
        0
    } else {
        insert_all_members(block_vars(b.drop_last()), mentioned(b.last()), x);
        if mentioned(b.last()).contains(x) {
            listed_is_mentioned(b.last(), x);
            b.len() - 1
        } else {
            listed_somewhere(b.drop_last(), x)
        }
    }
}

proof fn block_vars_ascend(b: Block)
    ensures
        ascending(block_vars(b)),
    decreases b.len(),
{
    if b.len() > 0 {
        block_vars_ascend(b.drop_last());
        insert_all_members(block_vars(b.drop_last()), mentioned(b.last()), Seq::empty());
    }
}

/// Whether nothing occurs twice in `s`.
pub open spec fn distinct(s: Seq<Text>) -> bool {
    forall|i: int, j: int| 0 <= i < s.len() && 0 <= j < s.len() && i != j ==> #[trigger] s[i] != #[trigger] s[j]
}

proof fn splittable_distinct(names: Seq<Text>, whole: Seq<Text>)
    requires
        distinct(names),
    ensures
        distinct(splittable(names, whole)),
    decreases names.len(),
{
    if names.len() > 0 {
        let front = names.drop_last();
        let m = names.last();
        assert(distinct(front)) by {
            assert forall|i: int, j: int| 0 <= i < front.len() && 0 <= j < front.len() && i != j implies #[trigger] front[i]
                != #[trigger] front[j] by {
                assert(front[i] == names[i] && front[j] == names[j]);
            }
        }
        splittable_distinct(front, whole);
        let r = splittable(front, whole);
        if r.contains(m) {
            splittable_members(front, whole, m);
            let i = choose|i: int| 0 <= i < front.len() && front[i] == m;
            assert(names[i] == names[names.len() - 1]);
        }
        let t = r.push(m);
        assert forall|i: int, j: int| 0 <= i < t.len() && 0 <= j < t.len() && i != j implies #[trigger] t[i] != #[trigger] t[j] by {
            if i < r.len() {
                assert(r.contains(r[i]));
            }
            if j < r.len() {
                assert(r.contains(r[j]));
            }
        }
    }
}

/// Splitting the registers of a function changes nothing that a run of it does, where the first
/// version of each register begins with the value of the register: the run ends the same way,
/// makes the same calls with the same values, writes the same to tables and returns the same, and
/// leaves the same in every other variable. The names of the versions are new.
pub proof fn split_functions_run_alike(
    l: Lang,
    b: Block,
    protected: Seq<Text>,
    st: StateV,
    st2: StateV,
    fuel: nat,
)
    requires
        ({
            let names = splittable(block_vars(b), insert_all(protected, fused(b, false)));
            &&& begin_alike(names, st, st2)
            &&& forall|n: Text, k: nat, i: int|
                names.contains(n) && 0 <= i < b.len() ==> unmentioned(#[trigger] b[i], #[trigger] version_name(n, k))
        }),
    ensures
        ({
            let whole = insert_all(protected, fused(b, false));
            let names = splittable(block_vars(b), whole);
            same_but_versions(names, run(l, b, st, fuel), run(l, split(b, whole), st2, fuel))
        }),
{
    let whole = insert_all(protected, fused(b, false));
    let names = splittable(block_vars(b), whole);
    inner_statements_stay(b, protected);
    block_vars_ascend(b);
    let all = block_vars(b);
    assert forall|i: int, j: int| 0 <= i < all.len() && 0 <= j < all.len() && i != j implies #[trigger] all[i]
        != #[trigger] all[j] by {
        crate::text::text_lt_irreflexive(all[i]);
    }
    splittable_distinct(all, whole);
    assert forall|j: int| 0 <= j < names.len() implies synthetic(#[trigger] names[j]) && ready(b, names[j]) by {
        let n = names[j];
        assert(names.contains(n));
        splittable_members(all, whole, n);
        assert forall|i: int, k: nat| 0 <= i < b.len() implies #[trigger] unmentioned(b[i], version_name(n, k)) by {
            let v = version_name(n, k);
        }
        assert forall|i: int| 0 <= i < b.len() implies only_outside(#[trigger] b[i], n) by {
            split_registers_stand_outside(b, protected, all, n, i);
        }
    }
    assert forall|j: int, k: nat| 0 <= j < names.len() implies !names.contains(#[trigger] version_name(names[j], k)) by {
        let n = names[j];
        let x = version_name(n, k);
        if names.contains(x) {
            assert(synthetic(n));
            register_names(n, k);
            splittable_members(all, whole, x);
            let i = listed_somewhere(b, x);
            assert(names.contains(n));
            assert(unmentioned(b[i], version_name(n, k)));
        }
    }
    let k = names.len() as int;
    splits_keep_runs(l, b, names, k, st, st2, fuel);
    assert(names.take(k) =~= names);
    let c = between(names, k, st, st2);
    assert forall|x: Text| #[trigger] (c.env)(x) == (st2.env)(x) by {
        if !first_of(names, k, x) {
            assert((st.env)(x) == (st2.env)(x));
        }
    }
    assert(c.env =~= st2.env);
    assert(split(b, whole) == versioned_all(b, names));
}

/// A function of more than 600 statements is not split at all, and in none are more than 80
/// registers split, of those that it mentions anywhere.
pub proof fn large_functions_stay(b: Block, protected: Seq<Text>)
    ensures
        ({
            let whole = insert_all(protected, fused(b, false));
            let all = splittable(collect(mentions(), b, Seq::empty()), whole);
            registers_split(b, protected) == if deep(each(), b) <= 600 && all.len() <= 80 {
                versioned_all(b, splittable(block_vars(b), whole))
            } else {
                b
            }
        }),
{
    inner_statements_stay(b, protected);
}

} // verus!
