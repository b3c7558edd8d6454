//! Conditions that are tested twice.
use vstd::prelude::*;

use crate::ast::{
    block, clone_block, clone_exprs, clone_names, expr_eq, exprs, fields, one, opt_expr_view, spec_splice, splice,
    Block, Expr, ExprV, FieldV, LoopHead, Stmt, StmtV, TableField,
};
use crate::conditions::binary;
use crate::jumps::only;
use crate::naming::{is_pure, pure};
use crate::routing::each;
use crate::rules::{everywhere, rewrite_everywhere, Measure, Rule, Scan};
use crate::text::{str_eq, Text};
use crate::weight::{deep, deep_one, deep_range_one, deep_splice, deep_stmt};

verus! {

/// The operands of a chain of `op`, from left to right.
pub open spec fn operands(e: ExprV, op: Text) -> Seq<ExprV>
    decreases e,
{
    match e {
        ExprV::Binary(o, a, b) => if o == op {
            operands(*a, op) + operands(*b, op)
        } else {
            seq![e]
        },
        _ => seq![e],
    }
}

/// `es` without repetitions of effect-free expressions.
pub open spec fn distinct(es: Seq<ExprV>) -> Seq<ExprV>
    decreases es.len(),
{
    if es.len() == 0 {
        Seq::empty()
    } else {
        let front = distinct(es.drop_last());
        if pure(es.last()) && front.contains(es.last()) {
            front
        } else {
            front.push(es.last())
        }
    }
}

/// `e1 op e2 op .. op en`, grouped to the left.
pub open spec fn chain(op: Text, es: Seq<ExprV>) -> ExprV
    decreases es.len(),
{
    if es.len() == 0 {
        ExprV::Bool(true)
    } else if es.len() == 1 {
        es[0]
    } else {
        binary(op, chain(op, es.drop_last()), es.last())
    }
}

/// What is left of the operand of a `not`: an alternative `nil` makes no difference.
pub open spec fn not_operand(e: ExprV) -> Option<ExprV> {
    match e {
        ExprV::Binary(op, a, b) => if op == "or"@ && *b == ExprV::Nil && pure(*a) {
            Some(*a)
        } else if op == "or"@ && *a == ExprV::Nil && pure(*b) {
            Some(*b)
        } else {
            None
        },
        _ => None,
    }
}

/// `e` after its parts have been simplified, and whether that or this step changed anything.
pub open spec fn chain_simplified(e: ExprV, changed: bool) -> (ExprV, bool) {
    match e {
        ExprV::Binary(op, _, _) => if op == "and"@ || op == "or"@ {
            let all = operands(e, op);
            let some = distinct(all);
            if changed || some.len() < all.len() {
                (chain(op, some), true)
            } else {
                (e, false)
            }
        } else {
            (e, changed)
        },
        _ => (e, changed),
    }
}

/// `e` with repeated operands of `and` and `or` dropped, and whether anything changed.
pub open spec fn simplified(e: ExprV) -> (ExprV, bool)
    decreases e,
{
    match e {
        ExprV::Index(t, k) => {
            let (x, p) = simplified(*t);
            let (y, q) = simplified(*k);
            (ExprV::Index(Box::new(x), Box::new(y)), p || q)
        },
        ExprV::Field(t, f) => {
            let (x, p) = simplified(*t);
            (ExprV::Field(Box::new(x), f), p)
        },
        ExprV::Call(f, args) => {
            let (x, p) = simplified(*f);
            let (ys, q) = simplified_all(args);
            (ExprV::Call(Box::new(x), ys), p || q)
        },
        ExprV::MethodCall(o, m, args) => {
            let (x, p) = simplified(*o);
            let (ys, q) = simplified_all(args);
            (ExprV::MethodCall(Box::new(x), m, ys), p || q)
        },
        ExprV::Unary(op, a) => {
            let (x, p) = simplified(*a);
            if op == "not "@ && not_operand(x) is Some {
                (ExprV::Unary(op, Box::new(not_operand(x)->Some_0)), true)
            } else {
                (ExprV::Unary(op, Box::new(x)), p)
            }
        },
        ExprV::Binary(op, a, b) => {
            let (x, p) = simplified(*a);
            let (y, q) = simplified(*b);
            chain_simplified(binary(op, x, y), p || q)
        },
        ExprV::Table(fs) => {
            let (gs, p) = simplified_fields(fs);
            (ExprV::Table(gs), p)
        },
        _ => (e, false),
    }
}

pub open spec fn simplified_all(es: Seq<ExprV>) -> (Seq<ExprV>, bool)
    decreases es,
{
    if es.len() == 0 {
        (Seq::empty(), false)
    } else {
        let (xs, p) = simplified_all(es.drop_last());
        let (y, q) = simplified(es.last());
        (xs.push(y), p || q)
    }
}

pub open spec fn simplified_fields(fs: Seq<FieldV>) -> (Seq<FieldV>, bool)
    decreases fs,
{
    if fs.len() == 0 {
        (Seq::empty(), false)
    } else {
        let (xs, p) = simplified_fields(fs.drop_last());
        let (y, q) = simplified_field(fs.last());
        (xs.push(y), p || q)
    }
}

pub open spec fn simplified_field(f: FieldV) -> (FieldV, bool)
    decreases f,
{
    match f {
        FieldV::Item(e) => {
            let (x, p) = simplified(e);
            (FieldV::Item(x), p)
        },
        FieldV::Named(n, e) => {
            let (x, p) = simplified(e);
            (FieldV::Named(n, x), p)
        },
        FieldV::Keyed(k, e) => {
            let (x, p) = simplified(k);
            let (y, q) = simplified(e);
            (FieldV::Keyed(x, y), p || q)
        },
    }
}

fn collect_same_binary_operands(e: &Expr, op: &str, out: &mut Vec<Expr>)
    ensures
        exprs(final(out)@) == exprs(old(out)@) + operands(e@, op@),
    decreases e,
{
    let ghost o = exprs(out@);
    if let Expr::Binary(p, a, b) = e {
        if str_eq(p, op) {
            collect_same_binary_operands(a, op, out);
            collect_same_binary_operands(b, op, out);
            assert(o + operands(a@, op@) + operands(b@, op@) =~= o + (operands(a@, op@) + operands(b@, op@)));
            return;
        }
    }
    out.push(e.clone());
    assert(exprs(out@) =~= o + seq![e@]);
}

fn contains_expr(es: &Vec<Expr>, e: &Expr) -> (r: bool)
    ensures
        r == exprs(es@).contains(e@),
{
    let mut i: usize = 0;
    while i < es.len()
        invariant
            i <= es.len(),
            forall|j: int| 0 <= j < i ==> exprs(es@)[j] != e@,
        decreases es.len() - i,
    {
        if expr_eq(&es[i], e) {
            assert(exprs(es@)[i as int] == e@);
            return true;
        }
        i += 1;
    }
    false
}

fn without_repetitions(es: &Vec<Expr>) -> (r: Vec<Expr>)
    ensures
        exprs(r@) == distinct(exprs(es@)),
{
    let ghost v = exprs(es@);
    let mut out: Vec<Expr> = Vec::new();
    let mut i: usize = 0;
    assert(exprs(out@) =~= distinct(v.take(0)));
    while i < es.len()
        invariant
            i <= es.len(),
            v == exprs(es@),
            exprs(out@) == distinct(v.take(i as int)),
        decreases es.len() - i,
    {
        proof {
            let t = v.take(i + 1);
            assert(t.drop_last() =~= v.take(i as int));
            assert(t.last() == v[i as int]);
        }
        if !(is_pure(&es[i]) && contains_expr(&out, &es[i])) {
            let ghost o = out@;
            out.push(es[i].clone());
            assert(exprs(out@) =~= exprs(o).push(v[i as int]));
        }
        i += 1;
    }
    assert(v.take(i as int) =~= v);
    out
}

fn rebuild_binary_chain(op: &'static str, es: &Vec<Expr>) -> (r: Expr)
    ensures
        r@ == chain(op@, exprs(es@)),
{
    let ghost v = exprs(es@);
    assert(v.len() == es@.len());
    if es.len() == 0 {
        return Expr::Bool(true);
    }
    let mut e = es[0].clone();
    let mut i: usize = 1;
    assert(v.take(1)[0] == v[0]);
    while i < es.len()
        invariant
            1 <= i <= es.len(),
            v == exprs(es@),
            e@ == chain(op@, v.take(i as int)),
        decreases es.len() - i,
    {
        proof {
            let t = v.take(i + 1);
            assert(t.drop_last() =~= v.take(i as int));
            assert(t.last() == v[i as int]);
        }
        e = crate::conditions::binary_expr(op, e, es[i].clone());
        i += 1;
    }
    assert(v.take(i as int) =~= v);
    e
}

fn simplify_not_operand(e: &Expr) -> (r: Option<Expr>)
    ensures
        opt_expr_view(r) == not_operand(e@),
{
    match e {
        Expr::Binary(op, a, b) => {
            if !str_eq(op, "or") {
                return None;
            }
            if expr_eq(b, &Expr::Nil) && is_pure(a) {
                Some((**a).clone())
            } else if expr_eq(a, &Expr::Nil) && is_pure(b) {
                Some((**b).clone())
            } else {
                None
            }
        },
        _ => None,
    }
}

fn simplify_chain(op: &'static str, a: Expr, b: Expr, changed: bool) -> (r: (Expr, bool))
    ensures
        (r.0@, r.1) == chain_simplified(binary(op@, a@, b@), changed),
{
    let e = crate::conditions::binary_expr(op, a, b);
    if !str_eq(op, "and") && !str_eq(op, "or") {
        return (e, changed);
    }
    let mut all: Vec<Expr> = Vec::new();
    assert(exprs(all@) =~= Seq::<ExprV>::empty());
    collect_same_binary_operands(&e, op, &mut all);
    assert(Seq::<ExprV>::empty() + operands(e@, op@) =~= operands(e@, op@));
    let some = without_repetitions(&all);
    assert(exprs(all@).len() == all@.len() && exprs(some@).len() == some@.len());
    if changed || some.len() < all.len() {
        (rebuild_binary_chain(op, &some), true)
    } else {
        (e, false)
    }
}

/// A copy of `e` with repeated operands of `and` and `or` dropped, and whether anything changed.
pub fn simplify_expr(e: &Expr) -> (r: (Expr, bool))
    ensures
        (r.0@, r.1) == simplified(e@),
    decreases e,
{
    match e {
        Expr::Index(t, k) => {
            let (x, p) = simplify_expr(t);
            let (y, q) = simplify_expr(k);
            (Expr::Index(Box::new(x), Box::new(y)), p || q)
        },
        Expr::Field(t, f) => {
            let (x, p) = simplify_expr(t);
            (Expr::Field(Box::new(x), f.clone()), p)
        },
        Expr::Call(f, args) => {
            let (x, p) = simplify_expr(f);
            let (ys, q) = simplify_exprs(args);
            (Expr::Call(Box::new(x), ys), p || q)
        },
        Expr::MethodCall(o, m, args) => {
            let (x, p) = simplify_expr(o);
            let (ys, q) = simplify_exprs(args);
            (Expr::MethodCall(Box::new(x), m.clone(), ys), p || q)
        },
        Expr::Unary(op, a) => {
            let (x, p) = simplify_expr(a);
            if str_eq(op, "not ") {
                if let Some(y) = simplify_not_operand(&x) {
                    return (Expr::Unary(op, Box::new(y)), true);
                }
            }
            (Expr::Unary(op, Box::new(x)), p)
        },
        Expr::Binary(op, a, b) => {
            let (x, p) = simplify_expr(a);
            let (y, q) = simplify_expr(b);
            simplify_chain(op, x, y, p || q)
        },
        Expr::Table(fs) => {
            let (gs, p) = simplify_fields(fs);
            (Expr::Table(gs), p)
        },
        _ => (e.clone(), false),
    }
}

/// [`simplify_expr`] on each of `es`.
pub fn simplify_exprs(es: &[Expr]) -> (r: (Vec<Expr>, bool))
    ensures
        (exprs(r.0@), r.1) == simplified_all(exprs(es@)),
    decreases es@,
{
    let ghost v = exprs(es@);
    let mut out: Vec<Expr> = Vec::new();
    let mut changed = false;
    let mut i: usize = 0;
    assert(exprs(out@) =~= Seq::<ExprV>::empty());
    while i < es.len()
        invariant
            i <= es.len(),
            v == exprs(es@),
            (exprs(out@), changed) == simplified_all(v.take(i as int)),
        decreases es.len() - i,
    {
        proof {
            let t = v.take(i + 1);
            assert(t.drop_last() =~= v.take(i as int));
            assert(t.last() == v[i as int]);
        }
        let (x, p) = simplify_expr(&es[i]);
        let ghost o = out@;
        out.push(x);
        assert(exprs(out@) =~= exprs(o).push(x@));
        changed = changed || p;
        i += 1;
    }
    assert(v.take(i as int) =~= v);
    (out, changed)
}

fn simplify_fields(fs: &[TableField]) -> (r: (Vec<TableField>, bool))
    ensures
        (fields(r.0@), r.1) == simplified_fields(fields(fs@)),
    decreases fs@,
{
    let ghost v = fields(fs@);
    let mut out: Vec<TableField> = Vec::new();
    let mut changed = false;
    let mut i: usize = 0;
    assert(fields(out@) =~= Seq::<FieldV>::empty());
    while i < fs.len()
        invariant
            i <= fs.len(),
            v == fields(fs@),
            (fields(out@), changed) == simplified_fields(v.take(i as int)),
        decreases fs.len() - i,
    {
        proof {
            let t = v.take(i + 1);
            assert(t.drop_last() =~= v.take(i as int));
            assert(t.last() == v[i as int]);
        }
        let (x, p) = simplify_field(&fs[i]);
        let ghost o = out@;
        out.push(x);
        assert(fields(out@) =~= fields(o).push(x@));
        changed = changed || p;
        i += 1;
    }
    assert(v.take(i as int) =~= v);
    (out, changed)
}

fn simplify_field(f: &TableField) -> (r: (TableField, bool))
    ensures
        (r.0@, r.1) == simplified_field(f@),
    decreases f,
{
    match f {
        TableField::Item(e) => {
            let (x, p) = simplify_expr(e);
            (TableField::Item(x), p)
        },
        TableField::Named(n, e) => {
            let (x, p) = simplify_expr(e);
            (TableField::Named(n.clone(), x), p)
        },
        TableField::Keyed(k, e) => {
            let (x, p) = simplify_expr(k);
            let (y, q) = simplify_expr(e);
            (TableField::Keyed(x, y), p || q)
        },
    }
}

/// A loop head with its conditions and bounds simplified.
pub open spec fn head_simplified(h: LoopHead) -> LoopHead {
    match h {
        LoopHead::While(c) => LoopHead::While(simplified(c).0),
        LoopHead::Repeat(c) => LoopHead::Repeat(simplified(c).0),
        LoopHead::Numeric { var, start, limit, step } => LoopHead::Numeric {
            var,
            start: simplified(start).0,
            limit: simplified(limit).0,
            step: match step {
                Some(e) => Some(simplified(e).0),
                None => None,
            },
        },
        LoopHead::Generic { vars, exprs } => LoopHead::Generic { vars, exprs: simplified_all(exprs).0 },
    }
}

/// `b` with the expressions of all its statements simplified; assignment targets stay.
pub open spec fn exprs_simplified(b: Block) -> Block
    decreases b,
{
    Seq::new(b.len(), |i: int| if 0 <= i < b.len() { stmt_simplified(b[i]) } else { StmtV::Break })
}

pub open spec fn stmt_simplified(s: StmtV) -> StmtV
    decreases s,
{
    match s {
        StmtV::Local { names, values } => StmtV::Local { names, values: simplified_all(values).0 },
        StmtV::Assign { targets, values } => StmtV::Assign { targets, values: simplified_all(values).0 },
        StmtV::Call(e) => StmtV::Call(simplified(e).0),
        StmtV::Return(es) => StmtV::Return(simplified_all(es).0),
        StmtV::If { cond, then_body, else_body } => StmtV::If {
            cond: simplified(cond).0,
            then_body: exprs_simplified(then_body),
            else_body: exprs_simplified(else_body),
        },
        StmtV::Loop { head, body } => StmtV::Loop { head: head_simplified(head), body: exprs_simplified(body) },
        _ => s,
    }
}

fn simplify_block(b: &[Stmt]) -> (r: Vec<Stmt>)
    ensures
        block(r@) == exprs_simplified(block(b@)),
    decreases b@,
{
    let mut out: Vec<Stmt> = Vec::new();
    let mut i: usize = 0;
    while i < b.len()
        invariant
            i <= b.len(),
            out.len() == i,
            forall|j: int| 0 <= j < i ==> (#[trigger] out@[j])@ == stmt_simplified(b@[j]@),
        decreases b.len() - i,
    {
        out.push(simplify_stmt(&b[i]));
        i += 1;
    }
    assert(block(out@) =~= exprs_simplified(block(b@)));
    out
}

fn simplify_stmt(s: &Stmt) -> (r: Stmt)
    ensures
        r@ == stmt_simplified(s@),
    decreases s,
{
    match s {
        Stmt::Local { names, values } => Stmt::Local { names: clone_names(names), values: simplify_exprs(values).0 },
        Stmt::Assign { targets, values } => Stmt::Assign {
            targets: clone_exprs(targets),
            values: simplify_exprs(values).0,
        },
        Stmt::Call(e) => Stmt::Call(simplify_expr(e).0),
        Stmt::Return(es) => Stmt::Return(simplify_exprs(es).0),
        Stmt::If { cond, then_body, else_body } => Stmt::If {
            cond: simplify_expr(cond).0,
            then_body: simplify_block(then_body),
            else_body: simplify_block(else_body),
        },
        Stmt::While { cond, body } => Stmt::While { cond: simplify_expr(cond).0, body: simplify_block(body) },
        Stmt::Repeat { body, cond } => Stmt::Repeat { body: simplify_block(body), cond: simplify_expr(cond).0 },
        Stmt::NumericFor { var, start, limit, step, body } => Stmt::NumericFor {
            var: var.clone(),
            start: simplify_expr(start).0,
            limit: simplify_expr(limit).0,
            step: match step {
                Some(e) => Some(simplify_expr(e).0),
                None => None,
            },
            body: simplify_block(body),
        },
        Stmt::GenericFor { vars, exprs: es, body } => Stmt::GenericFor {
            vars: clone_names(vars),
            exprs: simplify_exprs(es).0,
            body: simplify_block(body),
        },
        _ => s.clone(),
    }
}

/// The number of statements, nested ones included.
pub struct Size;

impl Measure for Size {
    open spec fn of(b: Block) -> nat {
        deep(each(), b)
    }
}

/// `if c then if c then body end end` becomes `if c then body end`.
pub struct NestedIf;

impl Rule for NestedIf {
    type M = Size;

    open spec fn at(&self, b: Block, i: int) -> Option<Block> {
        match b[i] {
            StmtV::If { cond, then_body, else_body } => if else_body.len() > 0 || then_body.len() != 1 || !pure(cond) {
                None
            } else {
                match then_body[0] {
                    StmtV::If { cond: c, then_body: inner, else_body: e } => if e.len() > 0 || c != cond {
                        None
                    } else {
                        Some(
                            spec_splice(b, i, i + 1, only(StmtV::If { cond, then_body: inner, else_body })),
                        )
                    },
                    _ => None,
                }
            },
            _ => None,
        }
    }

    proof fn shrinks_at(&self, b: Block, i: int) {
        if let StmtV::If { cond, then_body, else_body } = b[i] {
            if then_body.len() == 1 {
                if let StmtV::If { cond: c, then_body: inner, else_body: e } = then_body[0] {
                    let w = each();
                    let s = StmtV::If { cond, then_body: inner, else_body };
                    deep_range_one(w, b, i);
                    deep_splice(w, b, i, i + 1, only(s));
                    deep_one(w, s);
                    deep_one(w, then_body[0]);
                    assert(then_body =~= seq![then_body[0]]);
                    assert(deep_stmt(w, then_body[0]) == 1 + deep(w, inner) + deep(w, e));
                }
            }
        }
    }

    fn try_at(&self, b: &Vec<Stmt>, i: usize) -> (r: Option<Vec<Stmt>>) {
        match &b[i] {
            Stmt::If { cond, then_body, else_body } => {
                assert(block(else_body@).len() == else_body@.len());
                assert(block(then_body@).len() == then_body@.len());
                if else_body.len() > 0 || then_body.len() != 1 || !is_pure(cond) {
                    return None;
                }
                assert(block(then_body@)[0] == then_body@[0]@);
                match &then_body[0] {
                    Stmt::If { cond: c, then_body: inner, else_body: e } => {
                        assert(block(e@).len() == e@.len());
                        if e.len() > 0 || !expr_eq(c, cond) {
                            return None;
                        }
                        let s = Stmt::If {
                            cond: cond.clone(),
                            then_body: clone_block(inner),
                            else_body: clone_block(else_body),
                        };
                        Some(splice(b, i, i + 1, one(s)))
                    },
                    _ => None,
                }
            },
            _ => None,
        }
    }
}

/// Removes repeated effect-free conditions.
pub fn simplify_redundant_conditions(root: &mut Vec<Stmt>)
    ensures
        block(final(root)@) == everywhere(Scan(NestedIf), exprs_simplified(block(old(root)@))),
{
    let b = simplify_block(root);
    *root = rewrite_everywhere(&Scan(NestedIf), &b);
}

} // verus!
