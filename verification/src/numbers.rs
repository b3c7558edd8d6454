//! How numbers are printed.
//!
//! A number is kept as the text that it was read from. Some texts have a shorter spelling of the
//! same double, `0.9` for `0.90000000000000002`; which one that is takes floating point to find
//! out, so callers hand it in.
use vstd::prelude::*;

use crate::ast::{block, exprs, fields, loop_body, Block, Expr, ExprV, FieldV, LoopHead, Stmt, StmtV, TableField};
use crate::maps::TextMap;
use crate::text::{chars_of, owned, texts, Text};

verus! {

/// How the number `text` is printed: the shortest of its spellings that is known.
pub open spec fn number_text(text: Text, forms: Map<Text, Text>) -> Text {
    if forms.dom().contains(text) && forms[text].len() < text.len() {
        forms[text]
    } else {
        text
    }
}

/// How the number `text` is printed.
pub fn render_number(text: &str, forms: &TextMap) -> (r: String)
    ensures
        r@ == number_text(text@, forms@),
{
    match forms.get(text) {
        Some(form) => {
            let f = chars_of(form);
            let t = chars_of(text);
            if f.len() < t.len() {
                form.clone()
            } else {
                owned(text)
            }
        },
        None => owned(text),
    }
}

// ---- the numbers of a program -----------------------------------------------------------------------------------

/// The numbers in `e`, in the order in which they are written.
pub open spec fn numbers_in(e: ExprV) -> Seq<Text>
    decreases e,
{
    match e {
        ExprV::Num(t) => seq![t],
        ExprV::Index(t, k) => numbers_in(*t) + numbers_in(*k),
        ExprV::Field(t, _) => numbers_in(*t),
        ExprV::Call(f, args) => numbers_in(*f) + numbers_in_all(args),
        ExprV::MethodCall(o, _, args) => numbers_in(*o) + numbers_in_all(args),
        ExprV::Unary(_, a) => numbers_in(*a),
        ExprV::Binary(_, a, b) => numbers_in(*a) + numbers_in(*b),
        ExprV::Table(fs) => numbers_in_fields(fs),
        _ => Seq::empty(),
    }
}

pub open spec fn numbers_in_all(es: Seq<ExprV>) -> Seq<Text>
    decreases es,
{
    if es.len() == 0 {
        Seq::empty()
    } else {
        numbers_in_all(es.drop_last()) + numbers_in(es.last())
    }
}

pub open spec fn numbers_in_fields(fs: Seq<FieldV>) -> Seq<Text>
    decreases fs,
{
    if fs.len() == 0 {
        Seq::empty()
    } else {
        numbers_in_fields(fs.drop_last()) + numbers_in_field(fs.last())
    }
}

pub open spec fn numbers_in_field(f: FieldV) -> Seq<Text>
    decreases f,
{
    match f {
        FieldV::Item(e) => numbers_in(e),
        FieldV::Named(_, e) => numbers_in(e),
        FieldV::Keyed(k, e) => numbers_in(k) + numbers_in(e),
    }
}

/// The numbers in the head of a loop.
pub open spec fn numbers_in_head(h: LoopHead) -> Seq<Text> {
    match h {
        LoopHead::While(c) => numbers_in(c),
        LoopHead::Repeat(c) => numbers_in(c),
        LoopHead::Numeric { start, limit, step, .. } => numbers_in(start) + numbers_in(limit) + match step {
            Some(e) => numbers_in(e),
            None => Seq::empty(),
        },
        LoopHead::Generic { exprs, .. } => numbers_in_all(exprs),
    }
}

/// The numbers in `s`, nested statements included.
pub open spec fn numbers_in_stmt(s: StmtV) -> Seq<Text>
    decreases s,
{
    match s {
        StmtV::Local { values, .. } => numbers_in_all(values),
        StmtV::Assign { targets, values } => numbers_in_all(targets) + numbers_in_all(values),
        StmtV::Call(e) => numbers_in(e),
        StmtV::Return(es) => numbers_in_all(es),
        StmtV::If { cond, then_body, else_body } => numbers_in(cond) + numbers_in_block(then_body) + numbers_in_block(
            else_body,
        ),
        StmtV::Loop { head, body } => numbers_in_head(head) + numbers_in_block(body),
        _ => Seq::empty(),
    }
}

/// The numbers in `b`.
pub open spec fn numbers_in_block(b: Block) -> Seq<Text>
    decreases b,
{
    if b.len() == 0 {
        Seq::empty()
    } else {
        numbers_in_block(b.drop_last()) + numbers_in_stmt(b.last())
    }
}

proof fn appended(o: Seq<Text>, a: Seq<Text>, b: Seq<Text>)
    ensures
        o + a + b == o + (a + b),
{
    assert(o + a + b =~= o + (a + b));
}

fn push_numbers(e: &Expr, out: &mut Vec<String>)
    ensures
        texts(final(out)@) == texts(old(out)@) + numbers_in(e@),
    decreases e,
{
    let ghost o = texts(out@);
    match e {
        Expr::Num(t) => {
            out.push(t.clone());
            assert(texts(out@) =~= o + seq![t@]);
        },
        Expr::Index(t, k) => {
            push_numbers(t, out);
            push_numbers(k, out);
            proof {
                appended(o, numbers_in(t@), numbers_in(k@));
            }
        },
        Expr::Field(t, _) => push_numbers(t, out),
        Expr::Call(f, args) => {
            push_numbers(f, out);
            push_numbers_all(args, out);
            proof {
                appended(o, numbers_in(f@), numbers_in_all(exprs(args@)));
            }
        },
        Expr::MethodCall(f, _, args) => {
            push_numbers(f, out);
            push_numbers_all(args, out);
            proof {
                appended(o, numbers_in(f@), numbers_in_all(exprs(args@)));
            }
        },
        Expr::Unary(_, a) => push_numbers(a, out),
        Expr::Binary(_, a, b) => {
            push_numbers(a, out);
            push_numbers(b, out);
            proof {
                appended(o, numbers_in(a@), numbers_in(b@));
            }
        },
        Expr::Table(fs) => push_numbers_fields(fs, out),
        _ => {
            assert(o + Seq::<Text>::empty() =~= o);
        },
    }
}

fn push_numbers_all(es: &[Expr], out: &mut Vec<String>)
    ensures
        texts(final(out)@) == texts(old(out)@) + numbers_in_all(exprs(es@)),
    decreases es@,
{
    let ghost v = exprs(es@);
    let ghost o = texts(out@);
    let mut i: usize = 0;
    assert(o + Seq::<Text>::empty() =~= o);
    while i < es.len()
        invariant
            i <= es.len(),
            v == exprs(es@),
            o == texts(old(out)@),
            texts(out@) == o + numbers_in_all(v.take(i as int)),
        decreases es.len() - i,
    {
        push_numbers(&es[i], out);
        proof {
            let t = v.take(i + 1);
            assert(t.drop_last() =~= v.take(i as int));
            assert(t.last() == v[i as int]);
            appended(o, numbers_in_all(v.take(i as int)), numbers_in(v[i as int]));
        }
        i += 1;
    }
    assert(v.take(i as int) =~= v);
}

fn push_numbers_fields(fs: &[TableField], out: &mut Vec<String>)
    ensures
        texts(final(out)@) == texts(old(out)@) + numbers_in_fields(fields(fs@)),
    decreases fs@,
{
    let ghost v = fields(fs@);
    let ghost o = texts(out@);
    let mut i: usize = 0;
    assert(o + Seq::<Text>::empty() =~= o);
    while i < fs.len()
        invariant
            i <= fs.len(),
            v == fields(fs@),
            o == texts(old(out)@),
            texts(out@) == o + numbers_in_fields(v.take(i as int)),
        decreases fs.len() - i,
    {
        push_numbers_field(&fs[i], out);
        proof {
            let t = v.take(i + 1);
            assert(t.drop_last() =~= v.take(i as int));
            assert(t.last() == v[i as int]);
            appended(o, numbers_in_fields(v.take(i as int)), numbers_in_field(v[i as int]));
        }
        i += 1;
    }
    assert(v.take(i as int) =~= v);
}

fn push_numbers_field(f: &TableField, out: &mut Vec<String>)
    ensures
        texts(final(out)@) == texts(old(out)@) + numbers_in_field(f@),
    decreases f,
{
    let ghost o = texts(out@);
    match f {
        TableField::Item(e) => push_numbers(e, out),
        TableField::Named(_, e) => push_numbers(e, out),
        TableField::Keyed(k, e) => {
            push_numbers(k, out);
            push_numbers(e, out);
            proof {
                appended(o, numbers_in(k@), numbers_in(e@));
            }
        },
    }
}

fn push_numbers_head(s: &Stmt, out: &mut Vec<String>)
    requires
        s@ is Loop,
    ensures
        texts(final(out)@) == texts(old(out)@) + numbers_in_head(s@->head),
{
    let ghost o = texts(out@);
    match s {
        Stmt::While { cond, .. } => push_numbers(cond, out),
        Stmt::Repeat { cond, .. } => push_numbers(cond, out),
        Stmt::NumericFor { start, limit, step, .. } => {
            let ghost a = numbers_in(start@);
            let ghost b = numbers_in(limit@);
            push_numbers(start, out);
            push_numbers(limit, out);
            proof {
                appended(o, a, b);
            }
            match step {
                Some(e) => {
                    push_numbers(e, out);
                    proof {
                        appended(o, a + b, numbers_in(e@));
                    }
                },
                None => {
                    assert(a + b + Seq::<Text>::empty() =~= a + b);
                },
            }
        },
        Stmt::GenericFor { exprs: es, .. } => push_numbers_all(es, out),
        _ => {},
    }
}

fn push_numbers_block(b: &[Stmt], out: &mut Vec<String>)
    ensures
        texts(final(out)@) == texts(old(out)@) + numbers_in_block(block(b@)),
    decreases b@,
{
    let ghost v = block(b@);
    let ghost o = texts(out@);
    let mut i: usize = 0;
    assert(o + Seq::<Text>::empty() =~= o);
    while i < b.len()
        invariant
            i <= b.len(),
            v == block(b@),
            o == texts(old(out)@),
            texts(out@) == o + numbers_in_block(v.take(i as int)),
        decreases b.len() - i,
    {
        push_numbers_stmt(&b[i], out);
        proof {
            let t = v.take(i + 1);
            assert(t.drop_last() =~= v.take(i as int));
            assert(t.last() == v[i as int]);
            assert(v[i as int] == b@[i as int]@);
            appended(o, numbers_in_block(v.take(i as int)), numbers_in_stmt(v[i as int]));
        }
        i += 1;
    }
    assert(v.take(i as int) =~= v);
}

fn push_numbers_stmt(s: &Stmt, out: &mut Vec<String>)
    ensures
        texts(final(out)@) == texts(old(out)@) + numbers_in_stmt(s@),
    decreases s,
{
    let ghost o = texts(out@);
    match s {
        Stmt::Local { values, .. } => push_numbers_all(values, out),
        Stmt::Assign { targets, values } => {
            push_numbers_all(targets, out);
            push_numbers_all(values, out);
            proof {
                appended(o, numbers_in_all(exprs(targets@)), numbers_in_all(exprs(values@)));
            }
        },
        Stmt::Call(e) => push_numbers(e, out),
        Stmt::Return(es) => push_numbers_all(es, out),
        Stmt::If { cond, then_body, else_body } => {
            push_numbers(cond, out);
            push_numbers_block(then_body, out);
            push_numbers_block(else_body, out);
            proof {
                let a = numbers_in(cond@);
                let t = numbers_in_block(block(then_body@));
                appended(o, a, t);
                appended(o, a + t, numbers_in_block(block(else_body@)));
            }
        },
        _ => match loop_body(s) {
            Some(body) => {
                push_numbers_head(s, out);
                push_numbers_block(body, out);
                proof {
                    appended(o, numbers_in_head(s@->head), numbers_in_block(block(body@)));
                }
            },
            None => {
                assert(o + Seq::<Text>::empty() =~= o);
            },
        },
    }
}

/// The numbers in `e`, in the order in which they are written.
pub fn number_texts_in_expr(e: &Expr) -> (r: Vec<String>)
    ensures
        texts(r@) == numbers_in(e@),
{
    let mut out: Vec<String> = Vec::new();
    push_numbers(e, &mut out);
    assert(texts(out@) =~= numbers_in(e@));
    out
}

/// The numbers in `stmts`, nested statements included.
pub fn number_texts(stmts: &[Stmt]) -> (r: Vec<String>)
    ensures
        texts(r@) == numbers_in_block(block(stmts@)),
{
    let mut out: Vec<String> = Vec::new();
    push_numbers_block(stmts, &mut out);
    assert(texts(out@) =~= numbers_in_block(block(stmts@)));
    out
}

} // verus!
