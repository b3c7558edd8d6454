//! Function literals inside other functions.
use vstd::prelude::*;
use vstd::string::StringExecFns;

use crate::ast::{
    block, clone_names, exprs, fields, loop_body, Block, Capture, Expr, ExprV, FieldV, LoopHead, Stmt, StmtV,
    TableField,
};
use crate::query::{has_jumps, LabelOrGoto};
use crate::text::{chars_of, Text};
use crate::weight::occurs;

verus! {

// ---- rewriting the text of function literals ------------------------------------------------------------------

/// A change of the texts of function literals.
pub trait Retext {
    /// The new text of a literal that captures `captures`.
    spec fn new_text(&self, text: Text, captures: Seq<Capture>) -> Text;

    fn retext(&self, text: &str, captures: &Vec<Capture>) -> (r: String)
        ensures
            r@ == self.new_text(text@, captures@),
    ;
}

/// `e` with the texts of its function literals changed.
pub open spec fn retexted<R: Retext>(f: R, e: ExprV) -> ExprV
    decreases e,
{
    match e {
        ExprV::Closure { text, captures } => ExprV::Closure { text: f.new_text(text, captures), captures },
        ExprV::Index(t, k) => ExprV::Index(Box::new(retexted(f, *t)), Box::new(retexted(f, *k))),
        ExprV::Field(t, n) => ExprV::Field(Box::new(retexted(f, *t)), n),
        ExprV::Call(g, args) => ExprV::Call(Box::new(retexted(f, *g)), retexted_all(f, args)),
        ExprV::MethodCall(o, n, args) => ExprV::MethodCall(Box::new(retexted(f, *o)), n, retexted_all(f, args)),
        ExprV::Unary(op, a) => ExprV::Unary(op, Box::new(retexted(f, *a))),
        ExprV::Binary(op, a, b) => ExprV::Binary(op, Box::new(retexted(f, *a)), Box::new(retexted(f, *b))),
        ExprV::Table(fs) => ExprV::Table(retexted_fields(f, fs)),
        _ => e,
    }
}

pub open spec fn retexted_all<R: Retext>(f: R, es: Seq<ExprV>) -> Seq<ExprV>
    decreases es,
{
    Seq::new(es.len(), |i: int| if 0 <= i < es.len() { retexted(f, es[i]) } else { ExprV::Nil })
}

pub open spec fn retexted_fields<R: Retext>(f: R, fs: Seq<FieldV>) -> Seq<FieldV>
    decreases fs,
{
    Seq::new(
        fs.len(),
        |i: int| if 0 <= i < fs.len() { retexted_field(f, fs[i]) } else { FieldV::Item(ExprV::Nil) },
    )
}

pub open spec fn retexted_field<R: Retext>(f: R, x: FieldV) -> FieldV
    decreases x,
{
    match x {
        FieldV::Item(e) => FieldV::Item(retexted(f, e)),
        FieldV::Named(n, e) => FieldV::Named(n, retexted(f, e)),
        FieldV::Keyed(k, e) => FieldV::Keyed(retexted(f, k), retexted(f, e)),
    }
}

pub open spec fn retexted_opt<R: Retext>(f: R, e: Option<ExprV>) -> Option<ExprV> {
    match e {
        Some(e) => Some(retexted(f, e)),
        None => None,
    }
}

pub open spec fn retexted_head<R: Retext>(f: R, h: LoopHead) -> LoopHead {
    match h {
        LoopHead::While(c) => LoopHead::While(retexted(f, c)),
        LoopHead::Repeat(c) => LoopHead::Repeat(retexted(f, c)),
        LoopHead::Numeric { var, start, limit, step } => LoopHead::Numeric {
            var,
            start: retexted(f, start),
            limit: retexted(f, limit),
            step: retexted_opt(f, step),
        },
        LoopHead::Generic { vars, exprs } => LoopHead::Generic { vars, exprs: retexted_all(f, exprs) },
    }
}

/// `s` with the texts of its function literals changed, nested statements included.
pub open spec fn retexted_stmt<R: Retext>(f: R, s: StmtV) -> StmtV
    decreases s,
{
    match s {
        StmtV::Local { names, values } => StmtV::Local { names, values: retexted_all(f, values) },
        StmtV::Assign { targets, values } => StmtV::Assign {
            targets: retexted_all(f, targets),
            values: retexted_all(f, values),
        },
        StmtV::Call(e) => StmtV::Call(retexted(f, e)),
        StmtV::Return(es) => StmtV::Return(retexted_all(f, es)),
        StmtV::If { cond, then_body, else_body } => StmtV::If {
            cond: retexted(f, cond),
            then_body: retexted_block(f, then_body),
            else_body: retexted_block(f, else_body),
        },
        StmtV::Loop { head, body } => StmtV::Loop { head: retexted_head(f, head), body: retexted_block(f, body) },
        _ => s,
    }
}

/// `b` with the texts of its function literals changed, nested statements included.
pub open spec fn retexted_block<R: Retext>(f: R, b: Block) -> Block
    decreases b,
{
    Seq::new(b.len(), |i: int| if 0 <= i < b.len() { retexted_stmt(f, b[i]) } else { StmtV::Break })
}

fn retext_expr<R: Retext>(f: &R, e: &Expr) -> (r: Expr)
    ensures
        r@ == retexted(*f, e@),
    decreases e,
{
    match e {
        Expr::Closure { text, captures } => Expr::Closure {
            text: f.retext(text, captures),
            captures: copy_captures(captures),
        },
        Expr::Index(t, k) => {
            let a = retext_expr(f, t);
            let b = retext_expr(f, k);
            Expr::Index(Box::new(a), Box::new(b))
        },
        Expr::Field(t, n) => {
            let a = retext_expr(f, t);
            Expr::Field(Box::new(a), n.clone())
        },
        Expr::Call(g, args) => {
            let a = retext_expr(f, g);
            Expr::Call(Box::new(a), retext_exprs(f, args))
        },
        Expr::MethodCall(o, n, args) => {
            let a = retext_expr(f, o);
            Expr::MethodCall(Box::new(a), n.clone(), retext_exprs(f, args))
        },
        Expr::Unary(op, a) => {
            let x = retext_expr(f, a);
            Expr::Unary(*op, Box::new(x))
        },
        Expr::Binary(op, a, b) => {
            let x = retext_expr(f, a);
            let y = retext_expr(f, b);
            Expr::Binary(*op, Box::new(x), Box::new(y))
        },
        Expr::Table(fs) => Expr::Table(retext_fields(f, fs)),
        _ => e.clone(),
    }
}

fn copy_captures(cs: &Vec<Capture>) -> (r: Vec<Capture>)
    ensures
        r@ == cs@,
{
    let mut out: Vec<Capture> = Vec::new();
    let mut i: usize = 0;
    while i < cs.len()
        invariant
            i <= cs.len(),
            out.len() == i,
            forall|j: int| 0 <= j < i ==> out@[j] == cs@[j],
        decreases cs.len() - i,
    {
        out.push(cs[i]);
        i += 1;
    }
    assert(out@ =~= cs@);
    out
}

fn retext_exprs<R: Retext>(f: &R, es: &[Expr]) -> (r: Vec<Expr>)
    ensures
        exprs(r@) == retexted_all(*f, exprs(es@)),
    decreases es@,
{
    let mut out: Vec<Expr> = Vec::new();
    let mut i: usize = 0;
    while i < es.len()
        invariant
            i <= es.len(),
            out.len() == i,
            forall|j: int| 0 <= j < i ==> (#[trigger] out@[j])@ == retexted(*f, es@[j]@),
        decreases es.len() - i,
    {
        out.push(retext_expr(f, &es[i]));
        i += 1;
    }
    assert(exprs(out@) =~= retexted_all(*f, exprs(es@)));
    out
}

fn retext_fields<R: Retext>(f: &R, fs: &[TableField]) -> (r: Vec<TableField>)
    ensures
        fields(r@) == retexted_fields(*f, fields(fs@)),
    decreases fs@,
{
    let mut out: Vec<TableField> = Vec::new();
    let mut i: usize = 0;
    while i < fs.len()
        invariant
            i <= fs.len(),
            out.len() == i,
            forall|j: int| 0 <= j < i ==> (#[trigger] out@[j])@ == retexted_field(*f, fs@[j]@),
        decreases fs.len() - i,
    {
        out.push(retext_field(f, &fs[i]));
        i += 1;
    }
    assert(fields(out@) =~= retexted_fields(*f, fields(fs@)));
    out
}

fn retext_field<R: Retext>(f: &R, x: &TableField) -> (r: TableField)
    ensures
        r@ == retexted_field(*f, x@),
    decreases x,
{
    match x {
        TableField::Item(e) => TableField::Item(retext_expr(f, e)),
        TableField::Named(n, e) => TableField::Named(n.clone(), retext_expr(f, e)),
        TableField::Keyed(k, e) => {
            let a = retext_expr(f, k);
            let b = retext_expr(f, e);
            TableField::Keyed(a, b)
        },
    }
}

fn retext_opt<R: Retext>(f: &R, e: &Option<Expr>) -> (r: Option<Expr>)
    ensures
        crate::ast::opt_expr_view(r) == retexted_opt(*f, crate::ast::opt_expr_view(*e)),
{
    match e {
        Some(e) => Some(retext_expr(f, e)),
        None => None,
    }
}

fn retext_stmt<R: Retext>(f: &R, s: &Stmt) -> (r: Stmt)
    ensures
        r@ == retexted_stmt(*f, s@),
    decreases s,
{
    match s {
        Stmt::Local { names, values } => Stmt::Local { names: clone_names(names), values: retext_exprs(f, values) },
        Stmt::Assign { targets, values } => Stmt::Assign {
            targets: retext_exprs(f, targets),
            values: retext_exprs(f, values),
        },
        Stmt::Call(e) => Stmt::Call(retext_expr(f, e)),
        Stmt::Return(es) => Stmt::Return(retext_exprs(f, es)),
        Stmt::If { cond, then_body, else_body } => Stmt::If {
            cond: retext_expr(f, cond),
            then_body: retext_block(f, then_body),
            else_body: retext_block(f, else_body),
        },
        Stmt::While { cond, body } => Stmt::While { cond: retext_expr(f, cond), body: retext_block(f, body) },
        Stmt::Repeat { body, cond } => Stmt::Repeat { body: retext_block(f, body), cond: retext_expr(f, cond) },
        Stmt::NumericFor { var, start, limit, step, body } => Stmt::NumericFor {
            var: var.clone(),
            start: retext_expr(f, start),
            limit: retext_expr(f, limit),
            step: retext_opt(f, step),
            body: retext_block(f, body),
        },
        Stmt::GenericFor { vars, exprs, body } => Stmt::GenericFor {
            vars: clone_names(vars),
            exprs: retext_exprs(f, exprs),
            body: retext_block(f, body),
        },
        _ => s.clone(),
    }
}

/// `b` with the texts of its function literals changed, nested statements included.
pub fn retext_block<R: Retext>(f: &R, b: &[Stmt]) -> (r: Vec<Stmt>)
    ensures
        block(r@) == retexted_block(*f, block(b@)),
    decreases b@,
{
    let mut out: Vec<Stmt> = Vec::new();
    let mut i: usize = 0;
    while i < b.len()
        invariant
            i <= b.len(),
            out.len() == i,
            forall|j: int| 0 <= j < i ==> (#[trigger] out@[j])@ == retexted_stmt(*f, b@[j]@),
        decreases b.len() - i,
    {
        out.push(retext_stmt(f, &b[i]));
        i += 1;
    }
    assert(block(out@) =~= retexted_block(*f, block(b@)));
    out
}

// ---- the literals of a program ----------------------------------------------------------------------------------

/// A function literal: its text and what it captures.
#[derive(Debug)]
pub struct Literal {
    pub text: String,
    pub captures: Vec<Capture>,
}

/// Model of a [`Literal`].
#[verifier::ext_equal]
pub struct LiteralV {
    pub text: Text,
    pub captures: Seq<Capture>,
}

impl View for Literal {
    type V = LiteralV;

    open spec fn view(&self) -> LiteralV {
        LiteralV { text: self.text@, captures: self.captures@ }
    }
}

/// The models of literals.
pub open spec fn literals_of(s: Seq<Literal>) -> Seq<LiteralV> {
    Seq::new(s.len(), |i: int| s[i]@)
}

/// The function literals in `e`, in the order in which they are written.
pub open spec fn literals_in(e: ExprV) -> Seq<LiteralV>
    decreases e,
{
    match e {
        ExprV::Closure { text, captures } => seq![LiteralV { text, captures }],
        ExprV::Index(t, k) => literals_in(*t) + literals_in(*k),
        ExprV::Field(t, _) => literals_in(*t),
        ExprV::Call(f, args) => literals_in(*f) + literals_in_all(args),
        ExprV::MethodCall(o, _, args) => literals_in(*o) + literals_in_all(args),
        ExprV::Unary(_, a) => literals_in(*a),
        ExprV::Binary(_, a, b) => literals_in(*a) + literals_in(*b),
        ExprV::Table(fs) => literals_in_fields(fs),
        _ => Seq::empty(),
    }
}

pub open spec fn literals_in_all(es: Seq<ExprV>) -> Seq<LiteralV>
    decreases es,
{
    if es.len() == 0 {
        Seq::empty()
    } else {
        literals_in_all(es.drop_last()) + literals_in(es.last())
    }
}

pub open spec fn literals_in_fields(fs: Seq<FieldV>) -> Seq<LiteralV>
    decreases fs,
{
    if fs.len() == 0 {
        Seq::empty()
    } else {
        literals_in_fields(fs.drop_last()) + literals_in_field(fs.last())
    }
}

pub open spec fn literals_in_field(f: FieldV) -> Seq<LiteralV>
    decreases f,
{
    match f {
        FieldV::Item(e) => literals_in(e),
        FieldV::Named(_, e) => literals_in(e),
        FieldV::Keyed(k, e) => literals_in(k) + literals_in(e),
    }
}

pub open spec fn literals_in_head(h: LoopHead) -> Seq<LiteralV> {
    match h {
        LoopHead::While(c) => literals_in(c),
        LoopHead::Repeat(c) => literals_in(c),
        LoopHead::Numeric { start, limit, step, .. } => literals_in(start) + literals_in(limit) + match step {
            Some(e) => literals_in(e),
            None => Seq::empty(),
        },
        LoopHead::Generic { exprs, .. } => literals_in_all(exprs),
    }
}

/// The function literals in `s`, nested statements included.
pub open spec fn literals_in_stmt(s: StmtV) -> Seq<LiteralV>
    decreases s,
{
    match s {
        StmtV::Local { values, .. } => literals_in_all(values),
        StmtV::Assign { targets, values } => literals_in_all(targets) + literals_in_all(values),
        StmtV::Call(e) => literals_in(e),
        StmtV::Return(es) => literals_in_all(es),
        StmtV::If { cond, then_body, else_body } => literals_in(cond) + literals_in_block(then_body) + literals_in_block(
            else_body,
        ),
        StmtV::Loop { head, body } => literals_in_head(head) + literals_in_block(body),
        _ => Seq::empty(),
    }
}

/// The function literals in `b`, nested statements included.
pub open spec fn literals_in_block(b: Block) -> Seq<LiteralV>
    decreases b,
{
    if b.len() == 0 {
        Seq::empty()
    } else {
        literals_in_block(b.drop_last()) + literals_in_stmt(b.last())
    }
}

proof fn together(o: Seq<LiteralV>, a: Seq<LiteralV>, b: Seq<LiteralV>)
    ensures
        o + a + b == o + (a + b),
{
    assert(o + a + b =~= o + (a + b));
}

fn push_literals(e: &Expr, out: &mut Vec<Literal>)
    ensures
        literals_of(final(out)@) == literals_of(old(out)@) + literals_in(e@),
    decreases e,
{
    let ghost o = literals_of(out@);
    match e {
        Expr::Closure { text, captures } => {
            let l = Literal { text: text.clone(), captures: copy_captures(captures) };
            out.push(l);
            assert(literals_of(out@) =~= o + seq![l@]);
        },
        Expr::Index(t, k) => {
            push_literals(t, out);
            push_literals(k, out);
            proof {
                together(o, literals_in(t@), literals_in(k@));
            }
        },
        Expr::Field(t, _) => push_literals(t, out),
        Expr::Call(f, args) => {
            push_literals(f, out);
            push_literals_all(args, out);
            proof {
                together(o, literals_in(f@), literals_in_all(exprs(args@)));
            }
        },
        Expr::MethodCall(f, _, args) => {
            push_literals(f, out);
            push_literals_all(args, out);
            proof {
                together(o, literals_in(f@), literals_in_all(exprs(args@)));
            }
        },
        Expr::Unary(_, a) => push_literals(a, out),
        Expr::Binary(_, a, b) => {
            push_literals(a, out);
            push_literals(b, out);
            proof {
                together(o, literals_in(a@), literals_in(b@));
            }
        },
        Expr::Table(fs) => push_literals_fields(fs, out),
        _ => {
            assert(o + Seq::<LiteralV>::empty() =~= o);
        },
    }
}

fn push_literals_all(es: &[Expr], out: &mut Vec<Literal>)
    ensures
        literals_of(final(out)@) == literals_of(old(out)@) + literals_in_all(exprs(es@)),
    decreases es@,
{
    let ghost v = exprs(es@);
    let ghost o = literals_of(out@);
    let mut i: usize = 0;
    assert(o + Seq::<LiteralV>::empty() =~= o);
    while i < es.len()
        invariant
            i <= es.len(),
            v == exprs(es@),
            o == literals_of(old(out)@),
            literals_of(out@) == o + literals_in_all(v.take(i as int)),
        decreases es.len() - i,
    {
        push_literals(&es[i], out);
        proof {
            let t = v.take(i + 1);
            assert(t.drop_last() =~= v.take(i as int));
            assert(t.last() == v[i as int]);
            together(o, literals_in_all(v.take(i as int)), literals_in(v[i as int]));
        }
        i += 1;
    }
    assert(v.take(i as int) =~= v);
}

fn push_literals_fields(fs: &[TableField], out: &mut Vec<Literal>)
    ensures
        literals_of(final(out)@) == literals_of(old(out)@) + literals_in_fields(fields(fs@)),
    decreases fs@,
{
    let ghost v = fields(fs@);
    let ghost o = literals_of(out@);
    let mut i: usize = 0;
    assert(o + Seq::<LiteralV>::empty() =~= o);
    while i < fs.len()
        invariant
            i <= fs.len(),
            v == fields(fs@),
            o == literals_of(old(out)@),
            literals_of(out@) == o + literals_in_fields(v.take(i as int)),
        decreases fs.len() - i,
    {
        push_literals_field(&fs[i], out);
        proof {
            let t = v.take(i + 1);
            assert(t.drop_last() =~= v.take(i as int));
            assert(t.last() == v[i as int]);
            together(o, literals_in_fields(v.take(i as int)), literals_in_field(v[i as int]));
        }
        i += 1;
    }
    assert(v.take(i as int) =~= v);
}

fn push_literals_field(f: &TableField, out: &mut Vec<Literal>)
    ensures
        literals_of(final(out)@) == literals_of(old(out)@) + literals_in_field(f@),
    decreases f,
{
    let ghost o = literals_of(out@);
    match f {
        TableField::Item(e) => push_literals(e, out),
        TableField::Named(_, e) => push_literals(e, out),
        TableField::Keyed(k, e) => {
            push_literals(k, out);
            push_literals(e, out);
            proof {
                together(o, literals_in(k@), literals_in(e@));
            }
        },
    }
}

fn push_literals_head(s: &Stmt, out: &mut Vec<Literal>)
    requires
        s@ is Loop,
    ensures
        literals_of(final(out)@) == literals_of(old(out)@) + literals_in_head(s@->head),
{
    let ghost o = literals_of(out@);
    match s {
        Stmt::While { cond, .. } => push_literals(cond, out),
        Stmt::Repeat { cond, .. } => push_literals(cond, out),
        Stmt::NumericFor { start, limit, step, .. } => {
            let ghost a = literals_in(start@);
            let ghost b = literals_in(limit@);
            push_literals(start, out);
            push_literals(limit, out);
            proof {
                together(o, a, b);
            }
            match step {
                Some(e) => {
                    push_literals(e, out);
                    proof {
                        together(o, a + b, literals_in(e@));
                    }
                },
                None => {
                    assert(a + b + Seq::<LiteralV>::empty() =~= a + b);
                },
            }
        },
        Stmt::GenericFor { exprs: es, .. } => push_literals_all(es, out),
        _ => {},
    }
}

fn push_literals_block(b: &[Stmt], out: &mut Vec<Literal>)
    ensures
        literals_of(final(out)@) == literals_of(old(out)@) + literals_in_block(block(b@)),
    decreases b@,
{
    let ghost v = block(b@);
    let ghost o = literals_of(out@);
    let mut i: usize = 0;
    assert(o + Seq::<LiteralV>::empty() =~= o);
    while i < b.len()
        invariant
            i <= b.len(),
            v == block(b@),
            o == literals_of(old(out)@),
            literals_of(out@) == o + literals_in_block(v.take(i as int)),
        decreases b.len() - i,
    {
        push_literals_stmt(&b[i], out);
        proof {
            let t = v.take(i + 1);
            assert(t.drop_last() =~= v.take(i as int));
            assert(t.last() == v[i as int]);
            assert(v[i as int] == b@[i as int]@);
            together(o, literals_in_block(v.take(i as int)), literals_in_stmt(v[i as int]));
        }
        i += 1;
    }
    assert(v.take(i as int) =~= v);
}

fn push_literals_stmt(s: &Stmt, out: &mut Vec<Literal>)
    ensures
        literals_of(final(out)@) == literals_of(old(out)@) + literals_in_stmt(s@),
    decreases s,
{
    let ghost o = literals_of(out@);
    match s {
        Stmt::Local { values, .. } => push_literals_all(values, out),
        Stmt::Assign { targets, values } => {
            push_literals_all(targets, out);
            push_literals_all(values, out);
            proof {
                together(o, literals_in_all(exprs(targets@)), literals_in_all(exprs(values@)));
            }
        },
        Stmt::Call(e) => push_literals(e, out),
        Stmt::Return(es) => push_literals_all(es, out),
        Stmt::If { cond, then_body, else_body } => {
            push_literals(cond, out);
            push_literals_block(then_body, out);
            push_literals_block(else_body, out);
            proof {
                let a = literals_in(cond@);
                let t = literals_in_block(block(then_body@));
                together(o, a, t);
                together(o, a + t, literals_in_block(block(else_body@)));
            }
        },
        _ => match loop_body(s) {
            Some(body) => {
                push_literals_head(s, out);
                push_literals_block(body, out);
                proof {
                    together(o, literals_in_head(s@->head), literals_in_block(block(body@)));
                }
            },
            None => {
                assert(o + Seq::<LiteralV>::empty() =~= o);
            },
        },
    }
}

/// The function literals in `b`, nested statements included.
pub fn literals(b: &[Stmt]) -> (r: Vec<Literal>)
    ensures
        literals_of(r@) == literals_in_block(block(b@)),
{
    let mut out: Vec<Literal> = Vec::new();
    push_literals_block(b, &mut out);
    assert(literals_of(out@) =~= literals_in_block(block(b@)));
    out
}

// ---- control flow that is still written with jumps -----------------------------------------------------------------

/// Whether `p` occurs in `s`.
pub open spec fn holds_text(s: Text, p: Text) -> bool {
    exists|i: int| 0 <= i && i + p.len() <= s.len() && #[trigger] s.subrange(i, i + p.len()) == p
}

/// The first position from `i` on at which `p` occurs in `s`.
pub open spec fn text_from(s: Text, p: Text, i: int) -> Option<int>
    decreases s.len() + 1 - i,
{
    if i < 0 || i + p.len() > s.len() {
        None
    } else if s.subrange(i, i + p.len()) == p {
        Some(i)
    } else {
        text_from(s, p, i + 1)
    }
}

proof fn text_from_finds(s: Text, p: Text, i: int)
    requires
        0 <= i,
    ensures
        match text_from(s, p, i) {
            Some(k) => i <= k && k + p.len() <= s.len() && s.subrange(k, k + p.len()) == p,
            None => forall|k: int| i <= k && k + p.len() <= s.len() ==> #[trigger] s.subrange(k, k + p.len()) != p,
        },
    decreases s.len() + 1 - i,
{
    if i + p.len() <= s.len() && s.subrange(i, i + p.len()) != p {
        text_from_finds(s, p, i + 1);
    }
}

fn is_at(cs: &Vec<char>, ps: &Vec<char>, i: usize) -> (r: bool)
    requires
        i + ps.len() <= cs.len(),
    ensures
        r == (cs@.subrange(i as int, i + ps.len()) == ps@),
{
    let mut k: usize = 0;
    while k < ps.len()
        invariant
            k <= ps.len(),
            i + ps.len() <= cs.len(),
            forall|j: int| 0 <= j < k ==> cs@[i + j] == ps@[j],
        decreases ps.len() - k,
    {
        if cs[i + k] != ps[k] {
            assert(cs@.subrange(i as int, i + ps.len())[k as int] != ps@[k as int]);
            return false;
        }
        k += 1;
    }
    assert(cs@.subrange(i as int, i + ps.len()) =~= ps@);
    true
}

/// The first position from `from` on at which `p` occurs.
pub fn find_text(cs: &Vec<char>, p: &str, from: usize) -> (r: Option<usize>)
    requires
        from <= cs.len(),
    ensures
        crate::query::opt_index(r) == text_from(cs@, p@, from as int),
        r matches Some(k) ==> from <= k && k + p@.len() <= cs.len(),
{
    let ps = chars_of(p);
    let n: usize = cs.len();
    let mut i: usize = from;
    while i <= n && ps.len() <= n - i
        invariant
            from <= i <= n + 1,
            n == cs.len(),
            ps@ == p@,
            text_from(cs@, p@, from as int) == text_from(cs@, p@, i as int),
        decreases n + 1 - i,
    {
        if is_at(cs, &ps, i) {
            return Some(i);
        }
        if i == n {
            assert(text_from(cs@, p@, i + 1) is None);
            return None;
        }
        i += 1;
    }
    None
}

fn contains_text(s: &str, p: &str) -> (r: bool)
    ensures
        r == holds_text(s@, p@),
{
    let cs = chars_of(s);
    proof {
        text_from_finds(s@, p@, 0);
    }
    find_text(&cs, p, 0).is_some()
}

/// Whether a function literal holds labels or jumps.
pub open spec fn jumpy(text: Text) -> bool {
    holds_text(text, "goto L"@) || holds_text(text, "::L"@)
}

/// Whether `b` holds labels or jumps, itself or in a function literal.
pub open spec fn unstructured(b: Block) -> bool {
    has_jumps(b) || exists|i: int| 0 <= i < literals_in_block(b).len() && jumpy((#[trigger] literals_in_block(b)[i]).text)
}

/// Whether `b` holds labels or jumps, itself or in a function literal.
pub fn contains_unstructured(b: &[Stmt]) -> (r: bool)
    ensures
        r == unstructured(block(b@)),
{
    if occurs(&LabelOrGoto, b) {
        return true;
    }
    let ls = literals(b);
    let ghost v = literals_in_block(block(b@));
    let mut i: usize = 0;
    while i < ls.len()
        invariant
            i <= ls.len(),
            literals_of(ls@) == v,
            v == literals_in_block(block(b@)),
            forall|j: int| 0 <= j < i ==> !jumpy((#[trigger] v[j]).text),
        decreases ls.len() - i,
    {
        assert(v[i as int] == ls@[i as int]@);
        if contains_text(&ls[i].text, "goto L") || contains_text(&ls[i].text, "::L") {
            assert(jumpy(v[i as int].text));
            return true;
        }
        i += 1;
    }
    false
}

} // verus!
