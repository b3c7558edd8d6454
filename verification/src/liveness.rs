//! Values that are read once, and values that are never read.
use vstd::prelude::*;

use crate::ast::{
    clone_block, clone_exprs, clone_fields, clone_names, clone_opt_expr, exprs, fields, Expr, ExprV, FieldV, LoopHead,
    Stmt, StmtV, TableField,
};
use crate::names::{insert_all, NameSet};
use crate::query::{expr_reads, expr_reads_var, exprs_reads, exprs_reads_up_to, fields_reads, fields_reads_up_to};
use crate::rules::{Measure, Rule, Step};
use crate::text::{has_char, str_eq, texts, Text};
use crate::weight::Weigh;

verus! {

// ---- names read by an expression ---------------------------------------------------------------------

/// The variables that `e` reads, in the order in which it reads them.
pub open spec fn names_read(e: ExprV) -> Seq<Text>
    decreases e,
{
    match e {
        ExprV::Var(n) => if n.contains('.') {
            Seq::empty()
        } else {
            seq![n]
        },
        ExprV::Index(t, k) => names_read(*t) + names_read(*k),
        ExprV::Field(t, _) => names_read(*t),
        ExprV::Call(f, args) => names_read(*f) + names_read_all(args),
        ExprV::MethodCall(o, _, args) => names_read(*o) + names_read_all(args),
        ExprV::Unary(_, a) => names_read(*a),
        ExprV::Binary(_, a, b) => names_read(*a) + names_read(*b),
        ExprV::Table(fs) => names_read_fields(fs),
        _ => Seq::empty(),
    }
}

pub open spec fn names_read_all(es: Seq<ExprV>) -> Seq<Text>
    decreases es,
{
    if es.len() == 0 {
        Seq::empty()
    } else {
        names_read_all(es.drop_last()) + names_read(es.last())
    }
}

pub open spec fn names_read_fields(fs: Seq<FieldV>) -> Seq<Text>
    decreases fs,
{
    if fs.len() == 0 {
        Seq::empty()
    } else {
        names_read_fields(fs.drop_last()) + names_read_field(fs.last())
    }
}

pub open spec fn names_read_field(f: FieldV) -> Seq<Text>
    decreases f,
{
    match f {
        FieldV::Item(e) => names_read(e),
        FieldV::Named(_, e) => names_read(e),
        FieldV::Keyed(k, e) => names_read(k) + names_read(e),
    }
}

/// Appends the variables that `e` reads.
pub fn push_names_read(e: &Expr, out: &mut Vec<String>)
    ensures
        texts(final(out)@) == texts(old(out)@) + names_read(e@),
    decreases e,
{
    let ghost o = texts(out@);
    match e {
        Expr::Var(n) => {
            if !has_char(n, '.') {
                out.push(n.clone());
                assert(texts(out@) =~= o + seq![n@]);
            } else {
                assert(o + Seq::<Text>::empty() =~= o);
            }
        },
        Expr::Index(t, k) => {
            push_names_read(t, out);
            push_names_read(k, out);
            assert(o + names_read(t@) + names_read(k@) =~= o + (names_read(t@) + names_read(k@)));
        },
        Expr::Field(t, _) => push_names_read(t, out),
        Expr::Call(f, args) => {
            push_names_read(f, out);
            push_names_read_all(args, out);
            assert(o + names_read(f@) + names_read_all(exprs(args@)) =~= o + (names_read(f@) + names_read_all(
                exprs(args@),
            )));
        },
        Expr::MethodCall(f, _, args) => {
            push_names_read(f, out);
            push_names_read_all(args, out);
            assert(o + names_read(f@) + names_read_all(exprs(args@)) =~= o + (names_read(f@) + names_read_all(
                exprs(args@),
            )));
        },
        Expr::Unary(_, a) => push_names_read(a, out),
        Expr::Binary(_, a, b) => {
            push_names_read(a, out);
            push_names_read(b, out);
            assert(o + names_read(a@) + names_read(b@) =~= o + (names_read(a@) + names_read(b@)));
        },
        Expr::Table(fs) => push_names_read_fields(fs, out),
        _ => {
            assert(o + Seq::<Text>::empty() =~= o);
        },
    }
}

fn push_names_read_all(es: &[Expr], out: &mut Vec<String>)
    ensures
        texts(final(out)@) == texts(old(out)@) + names_read_all(exprs(es@)),
    decreases es@,
{
    let ghost v = exprs(es@);
    let ghost o = texts(out@);
    let mut i: usize = 0;
    assert(o + Seq::<Text>::empty() =~= o);
    while i < es.len()
        invariant
            i <= es.len(),
            v == exprs(es@),
            texts(out@) == o + names_read_all(v.take(i as int)),
        decreases es.len() - i,
    {
        proof {
            let t = v.take(i + 1);
            assert(t.drop_last() =~= v.take(i as int));
            assert(t.last() == v[i as int]);
            assert(o + names_read_all(v.take(i as int)) + names_read(v[i as int]) =~= o + (names_read_all(
                v.take(i as int),
            ) + names_read(v[i as int])));
        }
        push_names_read(&es[i], out);
        i += 1;
    }
    assert(v.take(i as int) =~= v);
}

fn push_names_read_fields(fs: &[TableField], out: &mut Vec<String>)
    ensures
        texts(final(out)@) == texts(old(out)@) + names_read_fields(fields(fs@)),
    decreases fs@,
{
    let ghost v = fields(fs@);
    let ghost o = texts(out@);
    let mut i: usize = 0;
    assert(o + Seq::<Text>::empty() =~= o);
    while i < fs.len()
        invariant
            i <= fs.len(),
            v == fields(fs@),
            texts(out@) == o + names_read_fields(v.take(i as int)),
        decreases fs.len() - i,
    {
        proof {
            let t = v.take(i + 1);
            assert(t.drop_last() =~= v.take(i as int));
            assert(t.last() == v[i as int]);
            assert(o + names_read_fields(v.take(i as int)) + names_read_field(v[i as int]) =~= o + (names_read_fields(
                v.take(i as int),
            ) + names_read_field(v[i as int])));
        }
        push_names_read_field(&fs[i], out);
        i += 1;
    }
    assert(v.take(i as int) =~= v);
}

fn push_names_read_field(f: &TableField, out: &mut Vec<String>)
    ensures
        texts(final(out)@) == texts(old(out)@) + names_read_field(f@),
    decreases f,
{
    let ghost o = texts(out@);
    match f {
        TableField::Item(e) => push_names_read(e, out),
        TableField::Named(_, e) => push_names_read(e, out),
        TableField::Keyed(k, e) => {
            push_names_read(k, out);
            push_names_read(e, out);
            assert(o + names_read(k@) + names_read(e@) =~= o + (names_read(k@) + names_read(e@)));
        },
    }
}

/// `protected` and the variables that `e` reads.
pub open spec fn also_reads(protected: Seq<Text>, e: ExprV) -> Seq<Text> {
    insert_all(protected, names_read(e))
}

/// `protected` and the variables that `e` reads.
pub fn with_reads(protected: &NameSet, e: &Expr) -> (r: NameSet)
    ensures
        r@ == also_reads(protected@, e@),
{
    let mut names: Vec<String> = Vec::new();
    assert(texts(names@) =~= Seq::<Text>::empty());
    push_names_read(e, &mut names);
    assert(texts(names@) =~= names_read(e@));
    let mut r = protected.copy();
    r.insert_all(&names);
    r
}

// ---- replacing a read ----------------------------------------------------------------------------------

/// `e` with the first read of `n` replaced by `v`.
pub open spec fn replaced(e: ExprV, n: Text, v: ExprV) -> ExprV
    decreases e,
{
    match e {
        ExprV::Var(m) => if m == n {
            v
        } else {
            e
        },
        ExprV::Index(t, k) => if expr_reads(*t, n) > 0 {
            ExprV::Index(Box::new(replaced(*t, n, v)), k)
        } else {
            ExprV::Index(t, Box::new(replaced(*k, n, v)))
        },
        ExprV::Field(t, f) => ExprV::Field(Box::new(replaced(*t, n, v)), f),
        ExprV::Call(f, args) => if expr_reads(*f, n) > 0 {
            ExprV::Call(Box::new(replaced(*f, n, v)), args)
        } else {
            ExprV::Call(f, replaced_in(args, n, v))
        },
        ExprV::MethodCall(o, m, args) => if expr_reads(*o, n) > 0 {
            ExprV::MethodCall(Box::new(replaced(*o, n, v)), m, args)
        } else {
            ExprV::MethodCall(o, m, replaced_in(args, n, v))
        },
        ExprV::Unary(op, a) => ExprV::Unary(op, Box::new(replaced(*a, n, v))),
        ExprV::Binary(op, a, b) => if expr_reads(*a, n) > 0 {
            ExprV::Binary(op, Box::new(replaced(*a, n, v)), b)
        } else {
            ExprV::Binary(op, a, Box::new(replaced(*b, n, v)))
        },
        ExprV::Table(fs) => ExprV::Table(replaced_in_fields(fs, n, v)),
        _ => e,
    }
}

/// `es` with the first read of `n` replaced by `v`.
pub open spec fn replaced_in(es: Seq<ExprV>, n: Text, v: ExprV) -> Seq<ExprV>
    decreases es,
{
    if es.len() == 0 {
        es
    } else if exprs_reads(es.drop_last(), n) > 0 {
        replaced_in(es.drop_last(), n, v).push(es.last())
    } else {
        es.drop_last().push(replaced(es.last(), n, v))
    }
}

pub open spec fn replaced_in_fields(fs: Seq<FieldV>, n: Text, v: ExprV) -> Seq<FieldV>
    decreases fs,
{
    if fs.len() == 0 {
        fs
    } else if fields_reads(fs.drop_last(), n) > 0 {
        replaced_in_fields(fs.drop_last(), n, v).push(fs.last())
    } else {
        fs.drop_last().push(replaced_in_field(fs.last(), n, v))
    }
}

pub open spec fn replaced_in_field(f: FieldV, n: Text, v: ExprV) -> FieldV
    decreases f,
{
    match f {
        FieldV::Item(e) => FieldV::Item(replaced(e, n, v)),
        FieldV::Named(k, e) => FieldV::Named(k, replaced(e, n, v)),
        FieldV::Keyed(k, e) => if expr_reads(k, n) > 0 {
            FieldV::Keyed(replaced(k, n, v), e)
        } else {
            FieldV::Keyed(k, replaced(e, n, v))
        },
    }
}

/// `s` with the first read of `n` in its values, or in its condition or bounds, replaced by `v`.
pub open spec fn stmt_replaced(s: StmtV, n: Text, v: ExprV) -> StmtV {
    match s {
        StmtV::Local { names, values } => StmtV::Local { names, values: replaced_in(values, n, v) },
        StmtV::Assign { targets, values } => StmtV::Assign { targets, values: replaced_in(values, n, v) },
        StmtV::Call(e) => StmtV::Call(replaced(e, n, v)),
        StmtV::Return(es) => StmtV::Return(replaced_in(es, n, v)),
        StmtV::If { cond, then_body, else_body } => StmtV::If { cond: replaced(cond, n, v), then_body, else_body },
        StmtV::Loop { head: LoopHead::Numeric { var, start, limit, step }, body } => StmtV::Loop {
            head: if expr_reads(start, n) > 0 {
                LoopHead::Numeric { var, start: replaced(start, n, v), limit, step }
            } else if expr_reads(limit, n) > 0 {
                LoopHead::Numeric { var, start, limit: replaced(limit, n, v), step }
            } else {
                LoopHead::Numeric {
                    var,
                    start,
                    limit,
                    step: match step {
                        Some(e) => Some(replaced(e, n, v)),
                        None => None,
                    },
                }
            },
            body,
        },
        StmtV::Loop { head: LoopHead::Generic { vars, exprs }, body } => StmtV::Loop {
            head: LoopHead::Generic { vars, exprs: replaced_in(exprs, n, v) },
            body,
        },
        _ => s,
    }
}

fn replace_in_expr(e: &Expr, n: &str, v: &Expr) -> (r: Expr)
    ensures
        r@ == replaced(e@, n@, v@),
    decreases e,
{
    match e {
        Expr::Var(m) => if str_eq(m, n) {
            v.clone()
        } else {
            e.clone()
        },
        Expr::Index(t, k) => if expr_reads_var(t, n) {
            Expr::Index(Box::new(replace_in_expr(t, n, v)), k.clone())
        } else {
            Expr::Index(t.clone(), Box::new(replace_in_expr(k, n, v)))
        },
        Expr::Field(t, f) => Expr::Field(Box::new(replace_in_expr(t, n, v)), f.clone()),
        Expr::Call(f, args) => if expr_reads_var(f, n) {
            Expr::Call(Box::new(replace_in_expr(f, n, v)), clone_exprs(args))
        } else {
            Expr::Call(f.clone(), replace_in_exprs(args, n, v))
        },
        Expr::MethodCall(o, m, args) => if expr_reads_var(o, n) {
            Expr::MethodCall(Box::new(replace_in_expr(o, n, v)), m.clone(), clone_exprs(args))
        } else {
            Expr::MethodCall(o.clone(), m.clone(), replace_in_exprs(args, n, v))
        },
        Expr::Unary(op, a) => Expr::Unary(op, Box::new(replace_in_expr(a, n, v))),
        Expr::Binary(op, a, b) => if expr_reads_var(a, n) {
            Expr::Binary(op, Box::new(replace_in_expr(a, n, v)), b.clone())
        } else {
            Expr::Binary(op, a.clone(), Box::new(replace_in_expr(b, n, v)))
        },
        Expr::Table(fs) => Expr::Table(replace_in_fields(fs, n, v)),
        _ => e.clone(),
    }
}

fn replace_in_exprs(es: &[Expr], n: &str, v: &Expr) -> (r: Vec<Expr>)
    ensures
        exprs(r@) == replaced_in(exprs(es@), n@, v@),
    decreases es@,
{
    let k: usize = es.len();
    let ghost w = exprs(es@);
    assert(w.len() == k);
    if k == 0 {
        return clone_exprs(es);
    }
    let front = vstd::slice::slice_subrange(es, 0, k - 1);
    assert(exprs(front@) =~= w.drop_last());
    assert(w.last() == es@[k - 1]@);
    let mut out = if exprs_reads_up_to(front, n, 1) == 1 {
        replace_in_exprs(front, n, v)
    } else {
        clone_exprs(front)
    };
    let ghost o = out@;
    if exprs_reads_up_to(front, n, 1) == 1 {
        out.push(es[k - 1].clone());
    } else {
        out.push(replace_in_expr(&es[k - 1], n, v));
    }
    assert(exprs(out@) =~= exprs(o).push(out@.last()@));
    out
}

fn replace_in_fields(fs: &[TableField], n: &str, v: &Expr) -> (r: Vec<TableField>)
    ensures
        fields(r@) == replaced_in_fields(fields(fs@), n@, v@),
    decreases fs@,
{
    let k: usize = fs.len();
    let ghost w = fields(fs@);
    assert(w.len() == k);
    if k == 0 {
        return clone_fields(fs);
    }
    let front = vstd::slice::slice_subrange(fs, 0, k - 1);
    assert(fields(front@) =~= w.drop_last());
    assert(w.last() == fs@[k - 1]@);
    let mut out = if fields_reads_up_to(front, n, 1) == 1 {
        replace_in_fields(front, n, v)
    } else {
        clone_fields(front)
    };
    let ghost o = out@;
    if fields_reads_up_to(front, n, 1) == 1 {
        out.push(fs[k - 1].clone());
    } else {
        out.push(replace_in_field(&fs[k - 1], n, v));
    }
    assert(fields(out@) =~= fields(o).push(out@.last()@));
    out
}

fn replace_in_field(f: &TableField, n: &str, v: &Expr) -> (r: TableField)
    ensures
        r@ == replaced_in_field(f@, n@, v@),
    decreases f,
{
    match f {
        TableField::Item(e) => TableField::Item(replace_in_expr(e, n, v)),
        TableField::Named(k, e) => TableField::Named(k.clone(), replace_in_expr(e, n, v)),
        TableField::Keyed(k, e) => if expr_reads_var(k, n) {
            TableField::Keyed(replace_in_expr(k, n, v), e.clone())
        } else {
            TableField::Keyed(k.clone(), replace_in_expr(e, n, v))
        },
    }
}

/// A copy of `s` with the first read of `n` replaced by `v`.
pub fn replace_first_var(s: &Stmt, n: &str, v: &Expr) -> (r: Stmt)
    ensures
        r@ == stmt_replaced(s@, n@, v@),
{
    match s {
        Stmt::Local { names, values } => Stmt::Local {
            names: clone_names(names),
            values: replace_in_exprs(values, n, v),
        },
        Stmt::Assign { targets, values } => Stmt::Assign {
            targets: clone_exprs(targets),
            values: replace_in_exprs(values, n, v),
        },
        Stmt::Call(e) => Stmt::Call(replace_in_expr(e, n, v)),
        Stmt::Return(es) => Stmt::Return(replace_in_exprs(es, n, v)),
        Stmt::If { cond, then_body, else_body } => Stmt::If {
            cond: replace_in_expr(cond, n, v),
            then_body: clone_block(then_body),
            else_body: clone_block(else_body),
        },
        Stmt::NumericFor { var, start, limit, step, body } => {
            if expr_reads_var(start, n) {
                Stmt::NumericFor {
                    var: var.clone(),
                    start: replace_in_expr(start, n, v),
                    limit: limit.clone(),
                    step: clone_opt_expr(step),
                    body: clone_block(body),
                }
            } else if expr_reads_var(limit, n) {
                Stmt::NumericFor {
                    var: var.clone(),
                    start: start.clone(),
                    limit: replace_in_expr(limit, n, v),
                    step: clone_opt_expr(step),
                    body: clone_block(body),
                }
            } else {
                Stmt::NumericFor {
                    var: var.clone(),
                    start: start.clone(),
                    limit: limit.clone(),
                    step: match step {
                        Some(e) => Some(replace_in_expr(e, n, v)),
                        None => None,
                    },
                    body: clone_block(body),
                }
            }
        },
        Stmt::GenericFor { vars, exprs: es, body } => Stmt::GenericFor {
            vars: clone_names(vars),
            exprs: replace_in_exprs(es, n, v),
            body: clone_block(body),
        },
        _ => s.clone(),
    }
}

} // verus!
