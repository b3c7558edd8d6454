//! Registers that hold one value after another become several variables.
use vstd::prelude::*;
use vstd::string::StringExecFns;

use crate::ast::{
    block, clone_block, exprs, fields, loop_body, with_loop_body, Block, Expr, ExprV, FieldV, LoopHead, Stmt, StmtV,
    TableField,
};
use crate::markers::{assigns, directly_writes_var};
use crate::names::{insert_all, NameSet};
use crate::query::{collect, collect_names, stmt_reads, stmt_reads_var, Pick};
use crate::routing::each;
use crate::sweeps::count_stmts;
use crate::text::{chars_of, decimal, decimal_of, owned, str_eq, string_of, texts, Text};
use crate::weight::deep;

verus! {

// ---- names of registers and parameters ----------------------------------------------------------------------

/// Whether `c` is a decimal digit.
pub open spec fn is_digit(c: char) -> bool {
    '0' <= c <= '9'
}

/// Whether `s` holds digits, and nothing else.
pub open spec fn number(s: Text) -> bool {
    s.len() > 0 && forall|i: int| 0 <= i < s.len() ==> is_digit(#[trigger] s[i])
}

/// Whether `n` is the name of a register, such as `v3`, or of one of its versions, such as `v3_2`.
pub open spec fn synthetic(n: Text) -> bool {
    n.len() > 0 && n[0] == 'v' && (number(n.skip(1)) || exists|k: int|
        1 < k < n.len() && #[trigger] n[k] == '_' && number(n.subrange(1, k)) && number(n.skip(k + 1)))
}

/// Whether `n` is the name of a parameter, such as `p0`.
pub open spec fn parameter(n: Text) -> bool {
    n.len() > 0 && n[0] == 'p' && number(n.skip(1))
}

fn char_is_digit(c: char) -> (r: bool)
    ensures
        r == is_digit(c),
{
    '0' <= c && c <= '9'
}

fn is_number(cs: &Vec<char>, lo: usize, hi: usize) -> (r: bool)
    requires
        lo <= hi <= cs.len(),
    ensures
        r == number(cs@.subrange(lo as int, hi as int)),
{
    let ghost s = cs@.subrange(lo as int, hi as int);
    let mut i: usize = lo;
    while i < hi
        invariant
            lo <= i <= hi <= cs.len(),
            s == cs@.subrange(lo as int, hi as int),
            forall|j: int| 0 <= j < i - lo ==> is_digit(#[trigger] s[j]),
        decreases hi - i,
    {
        assert(s[i - lo] == cs@[i as int]);
        if !char_is_digit(cs[i]) {
            return false;
        }
        i += 1;
    }
    lo < hi
}

fn is_synthetic(n: &str) -> (r: bool)
    ensures
        r == synthetic(n@),
{
    let cs = chars_of(n);
    let len: usize = cs.len();
    if len == 0 || cs[0] != 'v' {
        return false;
    }
    assert(n@.skip(1) =~= cs@.subrange(1, len as int));
    if is_number(&cs, 1, len) {
        return true;
    }
    let mut k: usize = 1;
    while k < len
        invariant
            1 <= k <= len,
            len == cs.len(),
            cs@ == n@,
            len > 0,
            n@[0] == 'v',
            !number(n@.skip(1)),
            forall|j: int|
                1 < j < k ==> !(#[trigger] n@[j] == '_' && number(n@.subrange(1, j)) && number(n@.skip(j + 1))),
        decreases len - k,
    {
        assert(n@.skip(k + 1) =~= cs@.subrange(k + 1, len as int));
        if cs[k] == '_' && is_number(&cs, 1, k) && is_number(&cs, k + 1, len) {
            assert(n@.subrange(1, k as int).len() > 0);
            return true;
        }
        k += 1;
    }
    false
}

fn is_parameter(n: &str) -> (r: bool)
    ensures
        r == parameter(n@),
{
    let cs = chars_of(n);
    let len: usize = cs.len();
    if len == 0 || cs[0] != 'p' {
        return false;
    }
    assert(n@.skip(1) =~= cs@.subrange(1, len as int));
    is_number(&cs, 1, len)
}

// ---- names in unparsed text -----------------------------------------------------------------------------------

/// Whether `c` can stand in a name.
pub open spec fn word_char(c: char) -> bool {
    is_digit(c) || 'a' <= c <= 'z' || 'A' <= c <= 'Z' || c == '_'
}

pub fn is_word_char(c: char) -> (r: bool)
    ensures
        r == word_char(c),
{
    char_is_digit(c) || ('a' <= c && c <= 'z') || ('A' <= c && c <= 'Z') || c == '_'
}

/// Where the word that ends before `k` begins.
pub open spec fn word_start(s: Text, k: int) -> int
    decreases k,
{
    if 0 < k <= s.len() && word_char(s[k - 1]) {
        word_start(s, k - 1)
    } else {
        k
    }
}

/// Whether a word of `s` ends before `k`.
pub open spec fn word_ends(s: Text, k: int) -> bool {
    0 < k <= s.len() && word_char(s[k - 1]) && (k == s.len() || !word_char(s[k]))
}

/// The names of registers and parameters among the words of the first `k` characters of `s`.
pub open spec fn registers(s: Text, k: int) -> Seq<Text>
    decreases k,
{
    if k <= 0 {
        Seq::empty()
    } else {
        let w = s.subrange(word_start(s, k), k);
        if word_ends(s, k) && (synthetic(w) || parameter(w)) {
            registers(s, k - 1).push(w)
        } else {
            registers(s, k - 1)
        }
    }
}

fn push_registers(text: &str, out: &mut Vec<String>)
    ensures
        texts(final(out)@) == texts(old(out)@) + registers(text@, text@.len() as int),
{
    let cs = chars_of(text);
    let ghost s = text@;
    let ghost o = texts(out@);
    let n: usize = cs.len();
    let mut k: usize = 0;
    let mut start: usize = 0;
    assert(o + Seq::<Text>::empty() =~= o);
    while k < n
        invariant
            start <= k <= n,
            n == cs.len(),
            cs@ == s,
            start == word_start(s, k as int),
            o == texts(old(out)@),
            texts(out@) == o + registers(s, k as int),
        decreases n - k,
    {
        if !is_word_char(cs[k]) {
            start = k + 1;
        }
        k += 1;
        if start < k && (k == n || !is_word_char(cs[k])) {
            let w = string_of(&cs, start, k);
            assert(w@ == s.subrange(start as int, k as int));
            if is_synthetic(&w) || is_parameter(&w) {
                let ghost before = texts(out@);
                let ghost wv = w@;
                out.push(w);
                assert(texts(out@) =~= before.push(wv));
                assert(o + registers(s, k - 1).push(wv) =~= before.push(wv));
            }
        }
    }
}

// ---- names in expressions -----------------------------------------------------------------------------------

/// The variables in `e`, where `bare`, and the names of registers in unparsed text, where `raw`.
pub open spec fn vars(e: ExprV, bare: bool, raw: bool) -> Seq<Text>
    decreases e,
{
    match e {
        ExprV::Var(n) => if bare {
            seq![n]
        } else {
            Seq::empty()
        },
        ExprV::Raw(t) => if raw {
            registers(t, t.len() as int)
        } else {
            Seq::empty()
        },
        ExprV::Index(t, k) => vars(*t, bare, raw) + vars(*k, bare, raw),
        ExprV::Field(t, _) => vars(*t, bare, raw),
        ExprV::Call(f, args) => vars(*f, bare, raw) + vars_all(args, bare, raw),
        ExprV::MethodCall(o, _, args) => vars(*o, bare, raw) + vars_all(args, bare, raw),
        ExprV::Unary(_, a) => vars(*a, bare, raw),
        ExprV::Binary(_, a, b) => vars(*a, bare, raw) + vars(*b, bare, raw),
        ExprV::Table(fs) => vars_fields(fs, bare, raw),
        _ => Seq::empty(),
    }
}

pub open spec fn vars_all(es: Seq<ExprV>, bare: bool, raw: bool) -> Seq<Text>
    decreases es,
{
    if es.len() == 0 {
        Seq::empty()
    } else {
        vars_all(es.drop_last(), bare, raw) + vars(es.last(), bare, raw)
    }
}

pub open spec fn vars_fields(fs: Seq<FieldV>, bare: bool, raw: bool) -> Seq<Text>
    decreases fs,
{
    if fs.len() == 0 {
        Seq::empty()
    } else {
        vars_fields(fs.drop_last(), bare, raw) + vars_field(fs.last(), bare, raw)
    }
}

pub open spec fn vars_field(f: FieldV, bare: bool, raw: bool) -> Seq<Text>
    decreases f,
{
    match f {
        FieldV::Item(e) => vars(e, bare, raw),
        FieldV::Named(_, e) => vars(e, bare, raw),
        FieldV::Keyed(k, e) => vars(k, bare, raw) + vars(e, bare, raw),
    }
}

/// Two lists appended one after the other.
proof fn twice(o: Seq<Text>, a: Seq<Text>, b: Seq<Text>)
    ensures
        o + a + b == o + (a + b),
{
    assert(o + a + b =~= o + (a + b));
}

fn push_vars(e: &Expr, bare: bool, raw: bool, out: &mut Vec<String>)
    ensures
        texts(final(out)@) == texts(old(out)@) + vars(e@, bare, raw),
    decreases e,
{
    let ghost o = texts(out@);
    match e {
        Expr::Var(n) => {
            if bare {
                out.push(n.clone());
                assert(texts(out@) =~= o + seq![n@]);
            } else {
                assert(o + Seq::<Text>::empty() =~= o);
            }
        },
        Expr::Raw(t) => {
            if raw {
                push_registers(t, out);
            } else {
                assert(o + Seq::<Text>::empty() =~= o);
            }
        },
        Expr::Index(t, k) => {
            push_vars(t, bare, raw, out);
            push_vars(k, bare, raw, out);
            proof {
                twice(o, vars(t@, bare, raw), vars(k@, bare, raw));
            }
        },
        Expr::Field(t, _) => push_vars(t, bare, raw, out),
        Expr::Call(f, args) => {
            push_vars(f, bare, raw, out);
            push_vars_all(args, bare, raw, out);
            proof {
                twice(o, vars(f@, bare, raw), vars_all(exprs(args@), bare, raw));
            }
        },
        Expr::MethodCall(f, _, args) => {
            push_vars(f, bare, raw, out);
            push_vars_all(args, bare, raw, out);
            proof {
                twice(o, vars(f@, bare, raw), vars_all(exprs(args@), bare, raw));
            }
        },
        Expr::Unary(_, a) => push_vars(a, bare, raw, out),
        Expr::Binary(_, a, b) => {
            push_vars(a, bare, raw, out);
            push_vars(b, bare, raw, out);
            proof {
                twice(o, vars(a@, bare, raw), vars(b@, bare, raw));
            }
        },
        Expr::Table(fs) => push_vars_fields(fs, bare, raw, out),
        _ => {
            assert(o + Seq::<Text>::empty() =~= o);
        },
    }
}

fn push_vars_all(es: &[Expr], bare: bool, raw: bool, out: &mut Vec<String>)
    ensures
        texts(final(out)@) == texts(old(out)@) + vars_all(exprs(es@), bare, raw),
    decreases es@,
{
    let ghost v = exprs(es@);
    let ghost o = texts(out@);
    let mut i: usize = 0;
    assert(o + Seq::<Text>::empty() =~= o);
    while i < es.len()
        invariant
            i <= es.len(),
            v == exprs(es@),
            o == texts(old(out)@),
            texts(out@) == o + vars_all(v.take(i as int), bare, raw),
        decreases es.len() - i,
    {
        push_vars(&es[i], bare, raw, out);
        proof {
            let t = v.take(i + 1);
            assert(t.drop_last() =~= v.take(i as int));
            assert(t.last() == v[i as int]);
            twice(o, vars_all(v.take(i as int), bare, raw), vars(v[i as int], bare, raw));
        }
        i += 1;
    }
    assert(v.take(i as int) =~= v);
}

fn push_vars_fields(fs: &[TableField], bare: bool, raw: bool, out: &mut Vec<String>)
    ensures
        texts(final(out)@) == texts(old(out)@) + vars_fields(fields(fs@), bare, raw),
    decreases fs@,
{
    let ghost v = fields(fs@);
    let ghost o = texts(out@);
    let mut i: usize = 0;
    assert(o + Seq::<Text>::empty() =~= o);
    while i < fs.len()
        invariant
            i <= fs.len(),
            v == fields(fs@),
            o == texts(old(out)@),
            texts(out@) == o + vars_fields(v.take(i as int), bare, raw),
        decreases fs.len() - i,
    {
        push_vars_field(&fs[i], bare, raw, out);
        proof {
            let t = v.take(i + 1);
            assert(t.drop_last() =~= v.take(i as int));
            assert(t.last() == v[i as int]);
            twice(o, vars_fields(v.take(i as int), bare, raw), vars_field(v[i as int], bare, raw));
        }
        i += 1;
    }
    assert(v.take(i as int) =~= v);
}

fn push_vars_field(f: &TableField, bare: bool, raw: bool, out: &mut Vec<String>)
    ensures
        texts(final(out)@) == texts(old(out)@) + vars_field(f@, bare, raw),
    decreases f,
{
    let ghost o = texts(out@);
    match f {
        TableField::Item(e) => push_vars(e, bare, raw, out),
        TableField::Named(_, e) => push_vars(e, bare, raw, out),
        TableField::Keyed(k, e) => {
            push_vars(k, bare, raw, out);
            push_vars(e, bare, raw, out);
            proof {
                twice(o, vars(k@, bare, raw), vars(e@, bare, raw));
            }
        },
    }
}

// ---- variables that must stay whole -----------------------------------------------------------------------------

/// The variables that a loop head binds or evaluates.
pub open spec fn head_vars(h: LoopHead) -> Seq<Text> {
    match h {
        LoopHead::While(c) => vars(c, true, true),
        LoopHead::Repeat(c) => vars(c, true, true),
        LoopHead::Numeric { var, start, limit, step } => seq![var] + vars(start, true, true) + vars(limit, true, true)
            + match step {
            Some(e) => vars(e, true, true),
            None => Seq::empty(),
        },
        LoopHead::Generic { vars: names, exprs } => names + vars_all(exprs, true, true),
    }
}

/// The variables of `s` that must stay whole: those in loops and branches, and those that
/// unparsed text mentions.
pub open spec fn fused_in(s: StmtV, nested: bool) -> Seq<Text>
    decreases s,
{
    match s {
        StmtV::If { cond, then_body, else_body } => vars(cond, nested, true) + fused(then_body, true) + fused(
            else_body,
            true,
        ),
        StmtV::Loop { head, body } => head_vars(head) + fused(body, true),
        StmtV::Local { names, values } => (if nested {
            names
        } else {
            Seq::empty()
        }) + vars_all(values, nested, true),
        StmtV::Assign { targets, values } => vars_all(targets, nested, true) + vars_all(values, nested, true),
        StmtV::Call(e) => vars(e, nested, true),
        StmtV::Return(es) => vars_all(es, nested, true),
        _ => Seq::empty(),
    }
}

/// The variables of `b` that must stay whole.
pub open spec fn fused(b: Block, nested: bool) -> Seq<Text>
    decreases b,
{
    if b.len() == 0 {
        Seq::empty()
    } else {
        fused(b.drop_last(), nested) + fused_in(b.last(), nested)
    }
}

fn push_all(names: &[String], out: &mut Vec<String>)
    ensures
        texts(final(out)@) == texts(old(out)@) + texts(names@),
{
    let ghost v = texts(names@);
    let ghost o = texts(out@);
    let mut i: usize = 0;
    assert(o + v.take(0) =~= o);
    while i < names.len()
        invariant
            i <= names.len(),
            v == texts(names@),
            o == texts(old(out)@),
            texts(out@) == o + v.take(i as int),
        decreases names.len() - i,
    {
        let ghost before = texts(out@);
        out.push(names[i].clone());
        assert(texts(out@) =~= before.push(v[i as int]));
        assert(o + v.take(i + 1) =~= before.push(v[i as int]));
        i += 1;
    }
    assert(v.take(i as int) =~= v);
}

fn push_head_vars(s: &Stmt, out: &mut Vec<String>)
    requires
        s@ is Loop,
    ensures
        texts(final(out)@) == texts(old(out)@) + head_vars(s@->head),
{
    let ghost o = texts(out@);
    match s {
        Stmt::While { cond, .. } => push_vars(cond, true, true, out),
        Stmt::Repeat { cond, .. } => push_vars(cond, true, true, out),
        Stmt::NumericFor { var, start, limit, step, .. } => {
            let ghost a = vars(start@, true, true);
            let ghost b = vars(limit@, true, true);
            out.push(var.clone());
            assert(texts(out@) =~= o + seq![var@]);
            push_vars(start, true, true, out);
            push_vars(limit, true, true, out);
            assert(texts(out@) =~= o + (seq![var@] + a + b));
            match step {
                Some(e) => {
                    push_vars(e, true, true, out);
                    proof {
                        twice(o, seq![var@] + a + b, vars(e@, true, true));
                    }
                },
                None => {
                    assert(seq![var@] + a + b + Seq::<Text>::empty() =~= seq![var@] + a + b);
                },
            }
        },
        Stmt::GenericFor { vars: names, exprs: es, .. } => {
            push_all(names, out);
            push_vars_all(es, true, true, out);
            proof {
                twice(o, texts(names@), vars_all(exprs(es@), true, true));
            }
        },
        _ => {},
    }
}

fn push_fused(b: &[Stmt], nested: bool, out: &mut Vec<String>)
    ensures
        texts(final(out)@) == texts(old(out)@) + fused(block(b@), nested),
    decreases b@,
{
    let ghost v = block(b@);
    let ghost o = texts(out@);
    let mut i: usize = 0;
    assert(o + Seq::<Text>::empty() =~= o);
    while i < b.len()
        invariant
            i <= b.len(),
            v == block(b@),
            o == texts(old(out)@),
            texts(out@) == o + fused(v.take(i as int), nested),
        decreases b.len() - i,
    {
        push_fused_in(&b[i], nested, out);
        proof {
            let t = v.take(i + 1);
            assert(t.drop_last() =~= v.take(i as int));
            assert(t.last() == v[i as int]);
            assert(v[i as int] == b@[i as int]@);
            twice(o, fused(v.take(i as int), nested), fused_in(v[i as int], nested));
        }
        i += 1;
    }
    assert(v.take(i as int) =~= v);
}

fn push_fused_in(s: &Stmt, nested: bool, out: &mut Vec<String>)
    ensures
        texts(final(out)@) == texts(old(out)@) + fused_in(s@, nested),
    decreases s,
{
    let ghost o = texts(out@);
    match s {
        Stmt::If { cond, then_body, else_body } => {
            push_vars(cond, nested, true, out);
            push_fused(then_body, true, out);
            push_fused(else_body, true, out);
            proof {
                let a = vars(cond@, nested, true);
                let t = fused(block(then_body@), true);
                twice(o, a, t);
                twice(o, a + t, fused(block(else_body@), true));
            }
        },
        Stmt::Local { names, values } => {
            if nested {
                push_all(names, out);
                proof {
                    twice(o, texts(names@), vars_all(exprs(values@), nested, true));
                }
            }
            push_vars_all(values, nested, true, out);
            assert(Seq::<Text>::empty() + vars_all(exprs(values@), nested, true) =~= vars_all(exprs(values@), nested, true));
        },
        Stmt::Assign { targets, values } => {
            push_vars_all(targets, nested, true, out);
            push_vars_all(values, nested, true, out);
            proof {
                twice(o, vars_all(exprs(targets@), nested, true), vars_all(exprs(values@), nested, true));
            }
        },
        Stmt::Call(e) => push_vars(e, nested, true, out),
        Stmt::Return(es) => push_vars_all(es, nested, true, out),
        _ => match loop_body(s) {
            Some(body) => {
                push_head_vars(s, out);
                push_fused(body, true, out);
                proof {
                    twice(o, head_vars(s@->head), fused(block(body@), true));
                }
            },
            None => {
                assert(o + Seq::<Text>::empty() =~= o);
            },
        },
    }
}

// ---- candidates -----------------------------------------------------------------------------------------------

/// The variables that `s` itself mentions, without the heads of `for` loops.
pub open spec fn mentioned(s: StmtV) -> Seq<Text> {
    match s {
        StmtV::Local { names, values } => names + vars_all(values, true, false),
        StmtV::Assign { targets, values } => vars_all(targets, true, false) + vars_all(values, true, false),
        StmtV::Call(e) => vars(e, true, false),
        StmtV::Return(es) => vars_all(es, true, false),
        StmtV::If { cond, .. } => vars(cond, true, false),
        StmtV::Loop { head: LoopHead::While(c), .. } => vars(c, true, false),
        StmtV::Loop { head: LoopHead::Repeat(c), .. } => vars(c, true, false),
        _ => Seq::empty(),
    }
}

/// Picks the variables that a statement itself mentions.
pub open spec fn mentions() -> spec_fn(StmtV) -> Seq<Text> {
    |s: StmtV| mentioned(s)
}

pub struct Mentions;

impl Pick for Mentions {
    open spec fn names(&self) -> spec_fn(StmtV) -> Seq<Text> {
        mentions()
    }

    fn pick(&self, s: &Stmt) -> (r: Vec<String>) {
        let mut out: Vec<String> = Vec::new();
        let ghost none = texts(out@);
        assert(none =~= Seq::<Text>::empty());
        match s {
            Stmt::Local { names, values } => {
                push_all(names, &mut out);
                push_vars_all(values, true, false, &mut out);
                proof {
                    twice(none, texts(names@), vars_all(exprs(values@), true, false));
                }
            },
            Stmt::Assign { targets, values } => {
                push_vars_all(targets, true, false, &mut out);
                push_vars_all(values, true, false, &mut out);
                proof {
                    twice(none, vars_all(exprs(targets@), true, false), vars_all(exprs(values@), true, false));
                }
            },
            Stmt::Call(e) => push_vars(e, true, false, &mut out),
            Stmt::Return(es) => push_vars_all(es, true, false, &mut out),
            Stmt::If { cond, .. } => push_vars(cond, true, false, &mut out),
            Stmt::While { cond, .. } => push_vars(cond, true, false, &mut out),
            Stmt::Repeat { cond, .. } => push_vars(cond, true, false, &mut out),
            _ => {},
        }
        assert(none + mentioned(s@) =~= mentioned(s@));
        out
    }
}

/// The variables that the statements at the top level of `b` mention, in ascending order.
pub open spec fn block_vars(b: Block) -> Seq<Text>
    decreases b.len(),
{
    if b.len() == 0 {
        Seq::empty()
    } else {
        insert_all(block_vars(b.drop_last()), mentioned(b.last()))
    }
}

/// The registers among `names` that may be split.
pub open spec fn splittable(names: Seq<Text>, whole: Seq<Text>) -> Seq<Text>
    decreases names.len(),
{
    if names.len() == 0 {
        Seq::empty()
    } else {
        let front = splittable(names.drop_last(), whole);
        let n = names.last();
        if synthetic(n) && !whole.contains(n) {
            front.push(n)
        } else {
            front
        }
    }
}

fn names_in_block(b: &[Stmt]) -> (r: NameSet)
    ensures
        r@ == block_vars(block(b@)),
{
    let ghost v = block(b@);
    let mut acc = NameSet::new();
    let mut i: usize = 0;
    while i < b.len()
        invariant
            i <= b.len(),
            v == block(b@),
            acc@ == block_vars(v.take(i as int)),
        decreases b.len() - i,
    {
        proof {
            let t = v.take(i + 1);
            assert(t.drop_last() =~= v.take(i as int));
            assert(t.last() == v[i as int]);
            assert(v[i as int] == b@[i as int]@);
        }
        let more = Mentions.pick(&b[i]);
        acc.insert_all(&more);
        i += 1;
    }
    assert(v.take(i as int) =~= v);
    acc
}

fn splittable_of(names: &NameSet, whole: &NameSet) -> (r: Vec<String>)
    ensures
        texts(r@) == splittable(names@, whole@),
{
    let ghost v = names@;
    let mut out: Vec<String> = Vec::new();
    let mut i: usize = 0;
    assert(texts(out@) =~= Seq::<Text>::empty());
    while i < names.len()
        invariant
            i <= names@.len(),
            v == names@,
            texts(out@) == splittable(v.take(i as int), whole@),
        decreases names@.len() - i,
    {
        proof {
            let t = v.take(i + 1);
            assert(t.drop_last() =~= v.take(i as int));
            assert(t.last() == v[i as int]);
        }
        let n = names.get(i);
        if is_synthetic(n) && !whole.contains(n) {
            let ghost o = texts(out@);
            out.push(n.clone());
            assert(texts(out@) =~= o.push(n@));
        }
        i += 1;
    }
    assert(v.take(i as int) =~= v);
    out
}

// ---- renaming ---------------------------------------------------------------------------------------------------

/// `e` with the variable `n` renamed to `m`.
pub open spec fn renamed(e: ExprV, n: Text, m: Text) -> ExprV
    decreases e,
{
    match e {
        ExprV::Var(x) => if x == n {
            ExprV::Var(m)
        } else {
            e
        },
        ExprV::Index(t, k) => ExprV::Index(Box::new(renamed(*t, n, m)), Box::new(renamed(*k, n, m))),
        ExprV::Field(t, f) => ExprV::Field(Box::new(renamed(*t, n, m)), f),
        ExprV::Call(f, args) => ExprV::Call(Box::new(renamed(*f, n, m)), renamed_all(args, n, m)),
        ExprV::MethodCall(o, f, args) => ExprV::MethodCall(Box::new(renamed(*o, n, m)), f, renamed_all(args, n, m)),
        ExprV::Unary(op, a) => ExprV::Unary(op, Box::new(renamed(*a, n, m))),
        ExprV::Binary(op, a, b) => ExprV::Binary(op, Box::new(renamed(*a, n, m)), Box::new(renamed(*b, n, m))),
        ExprV::Table(fs) => ExprV::Table(renamed_fields(fs, n, m)),
        _ => e,
    }
}

pub open spec fn renamed_all(es: Seq<ExprV>, n: Text, m: Text) -> Seq<ExprV>
    decreases es,
{
    Seq::new(es.len(), |i: int| if 0 <= i < es.len() { renamed(es[i], n, m) } else { ExprV::Nil })
}

pub open spec fn renamed_fields(fs: Seq<FieldV>, n: Text, m: Text) -> Seq<FieldV>
    decreases fs,
{
    Seq::new(
        fs.len(),
        |i: int| if 0 <= i < fs.len() { renamed_field(fs[i], n, m) } else { FieldV::Item(ExprV::Nil) },
    )
}

pub open spec fn renamed_field(f: FieldV, n: Text, m: Text) -> FieldV
    decreases f,
{
    match f {
        FieldV::Item(e) => FieldV::Item(renamed(e, n, m)),
        FieldV::Named(k, e) => FieldV::Named(k, renamed(e, n, m)),
        FieldV::Keyed(k, e) => FieldV::Keyed(renamed(k, n, m), renamed(e, n, m)),
    }
}

fn rename_expr(e: &Expr, n: &str, m: &str) -> (r: Expr)
    ensures
        r@ == renamed(e@, n@, m@),
    decreases e,
{
    match e {
        Expr::Var(x) => {
            if str_eq(x, n) {
                Expr::Var(owned(m))
            } else {
                e.clone()
            }
        },
        Expr::Index(t, k) => {
            let a = rename_expr(t, n, m);
            let b = rename_expr(k, n, m);
            Expr::Index(Box::new(a), Box::new(b))
        },
        Expr::Field(t, f) => {
            let a = rename_expr(t, n, m);
            Expr::Field(Box::new(a), f.clone())
        },
        Expr::Call(f, args) => {
            let a = rename_expr(f, n, m);
            Expr::Call(Box::new(a), rename_exprs(args, n, m))
        },
        Expr::MethodCall(o, f, args) => {
            let a = rename_expr(o, n, m);
            Expr::MethodCall(Box::new(a), f.clone(), rename_exprs(args, n, m))
        },
        Expr::Unary(op, a) => {
            let x = rename_expr(a, n, m);
            Expr::Unary(*op, Box::new(x))
        },
        Expr::Binary(op, a, b) => {
            let x = rename_expr(a, n, m);
            let y = rename_expr(b, n, m);
            Expr::Binary(*op, Box::new(x), Box::new(y))
        },
        Expr::Table(fs) => Expr::Table(rename_fields(fs, n, m)),
        _ => e.clone(),
    }
}

fn rename_exprs(es: &[Expr], n: &str, m: &str) -> (r: Vec<Expr>)
    ensures
        exprs(r@) == renamed_all(exprs(es@), n@, m@),
    decreases es@,
{
    let mut out: Vec<Expr> = Vec::new();
    let mut i: usize = 0;
    while i < es.len()
        invariant
            i <= es.len(),
            out.len() == i,
            forall|j: int| 0 <= j < i ==> (#[trigger] out@[j])@ == renamed(es@[j]@, n@, m@),
        decreases es.len() - i,
    {
        out.push(rename_expr(&es[i], n, m));
        i += 1;
    }
    assert(exprs(out@) =~= renamed_all(exprs(es@), n@, m@));
    out
}

fn rename_fields(fs: &[TableField], n: &str, m: &str) -> (r: Vec<TableField>)
    ensures
        fields(r@) == renamed_fields(fields(fs@), n@, m@),
    decreases fs@,
{
    let mut out: Vec<TableField> = Vec::new();
    let mut i: usize = 0;
    while i < fs.len()
        invariant
            i <= fs.len(),
            out.len() == i,
            forall|j: int| 0 <= j < i ==> (#[trigger] out@[j])@ == renamed_field(fs@[j]@, n@, m@),
        decreases fs.len() - i,
    {
        out.push(rename_field(&fs[i], n, m));
        i += 1;
    }
    assert(fields(out@) =~= renamed_fields(fields(fs@), n@, m@));
    out
}

fn rename_field(f: &TableField, n: &str, m: &str) -> (r: TableField)
    ensures
        r@ == renamed_field(f@, n@, m@),
    decreases f,
{
    match f {
        TableField::Item(e) => TableField::Item(rename_expr(e, n, m)),
        TableField::Named(k, e) => TableField::Named(k.clone(), rename_expr(e, n, m)),
        TableField::Keyed(k, e) => {
            let a = rename_expr(k, n, m);
            let b = rename_expr(e, n, m);
            TableField::Keyed(a, b)
        },
    }
}

/// A target: a bare name is written, anything else is evaluated.
pub open spec fn renamed_target(t: ExprV, n: Text, read: Text, write: Text) -> ExprV {
    if t is Var {
        renamed(t, n, write)
    } else {
        renamed(t, n, read)
    }
}

/// `names` with `n` renamed to `m`.
pub open spec fn renamed_names(names: Seq<Text>, n: Text, m: Text) -> Seq<Text> {
    Seq::new(
        names.len(),
        |i: int| if names[i] == n {
            m
        } else {
            names[i]
        },
    )
}

/// `s` with `n` renamed: to `read` where its value is used, to `write` where it is assigned.
pub open spec fn renamed_stmt(s: StmtV, n: Text, read: Text, write: Text) -> StmtV {
    match s {
        StmtV::Local { names, values } => StmtV::Local {
            names: renamed_names(names, n, write),
            values: renamed_all(values, n, read),
        },
        StmtV::Assign { targets, values } => StmtV::Assign {
            targets: Seq::new(targets.len(), |i: int| renamed_target(targets[i], n, read, write)),
            values: renamed_all(values, n, read),
        },
        StmtV::Call(e) => StmtV::Call(renamed(e, n, read)),
        StmtV::Return(es) => StmtV::Return(renamed_all(es, n, read)),
        StmtV::If { cond, then_body, else_body } => StmtV::If { cond: renamed(cond, n, read), then_body, else_body },
        StmtV::Loop { head: LoopHead::While(c), body } => StmtV::Loop { head: LoopHead::While(renamed(c, n, read)), body },
        StmtV::Loop { head: LoopHead::Repeat(c), body } => StmtV::Loop {
            head: LoopHead::Repeat(renamed(c, n, read)),
            body,
        },
        _ => s,
    }
}

fn rename_names(names: &[String], n: &str, m: &str) -> (r: Vec<String>)
    ensures
        texts(r@) == renamed_names(texts(names@), n@, m@),
{
    let mut out: Vec<String> = Vec::new();
    let mut i: usize = 0;
    while i < names.len()
        invariant
            i <= names.len(),
            out.len() == i,
            forall|j: int| 0 <= j < i ==> (#[trigger] out@[j])@ == renamed_names(texts(names@), n@, m@)[j],
        decreases names.len() - i,
    {
        if str_eq(&names[i], n) {
            out.push(owned(m));
        } else {
            out.push(names[i].clone());
        }
        i += 1;
    }
    assert(texts(out@) =~= renamed_names(texts(names@), n@, m@));
    out
}

fn rename_targets(ts: &[Expr], n: &str, read: &str, write: &str) -> (r: Vec<Expr>)
    ensures
        exprs(r@) == Seq::new(exprs(ts@).len(), |i: int| renamed_target(exprs(ts@)[i], n@, read@, write@)),
{
    let mut out: Vec<Expr> = Vec::new();
    let mut i: usize = 0;
    while i < ts.len()
        invariant
            i <= ts.len(),
            out.len() == i,
            forall|j: int| 0 <= j < i ==> (#[trigger] out@[j])@ == renamed_target(ts@[j]@, n@, read@, write@),
        decreases ts.len() - i,
    {
        if matches!(ts[i], Expr::Var(_)) {
            out.push(rename_expr(&ts[i], n, write));
        } else {
            out.push(rename_expr(&ts[i], n, read));
        }
        i += 1;
    }
    assert(exprs(out@) =~= Seq::new(exprs(ts@).len(), |i: int| renamed_target(exprs(ts@)[i], n@, read@, write@)));
    out
}

fn rename_var_in_stmt(s: &Stmt, n: &str, read: &str, write: &str) -> (r: Stmt)
    ensures
        r@ == renamed_stmt(s@, n@, read@, write@),
{
    match s {
        Stmt::Local { names, values } => Stmt::Local {
            names: rename_names(names, n, write),
            values: rename_exprs(values, n, read),
        },
        Stmt::Assign { targets, values } => Stmt::Assign {
            targets: rename_targets(targets, n, read, write),
            values: rename_exprs(values, n, read),
        },
        Stmt::Call(e) => Stmt::Call(rename_expr(e, n, read)),
        Stmt::Return(es) => Stmt::Return(rename_exprs(es, n, read)),
        Stmt::If { cond, then_body, else_body } => Stmt::If {
            cond: rename_expr(cond, n, read),
            then_body: clone_block(then_body),
            else_body: clone_block(else_body),
        },
        Stmt::While { cond, body } => Stmt::While { cond: rename_expr(cond, n, read), body: clone_block(body) },
        Stmt::Repeat { body, cond } => Stmt::Repeat { body: clone_block(body), cond: rename_expr(cond, n, read) },
        _ => s.clone(),
    }
}

// ---- versions -----------------------------------------------------------------------------------------------------

/// Whether the first `k` statements of `b` assign `n`.
pub open spec fn written_before(b: Block, k: int, n: Text) -> bool {
    exists|i: int| 0 <= i < k && assigns(#[trigger] b[i], n)
}

/// The version of `n` after the first `k` statements: every assignment but a first one that does
/// not read the old value starts a new one.
pub open spec fn version(b: Block, k: int, n: Text) -> nat
    decreases k,
{
    if k <= 0 {
        1
    } else if assigns(b[k - 1], n) && (written_before(b, k - 1, n) || stmt_reads(b[k - 1], n)) {
        version(b, k - 1, n) + 1
    } else {
        version(b, k - 1, n)
    }
}

/// The name of version `k` of `n`.
pub open spec fn version_name(n: Text, k: nat) -> Text {
    n.push('_') + decimal(k)
}

fn name_of_version(n: &str, k: u128) -> (r: String)
    ensures
        r@ == version_name(n@, k as nat),
{
    let mut s = owned(n);
    crate::text::push_char(&mut s, '_');
    s.append(&decimal_of(k));
    s
}

/// `b` with each version of `n` under a name of its own, where there are several.
pub open spec fn versioned(b: Block, n: Text) -> Block {
    if version(b, b.len() as int, n) > 1 {
        Seq::new(
            b.len(),
            |i: int|
                renamed_stmt(b[i], n, version_name(n, version(b, i, n)), version_name(n, version(b, i + 1, n))),
        )
    } else {
        b
    }
}

/// `b` with each of `names` in versions.
pub open spec fn versioned_all(b: Block, names: Seq<Text>) -> Block
    decreases names.len(),
{
    if names.len() == 0 {
        b
    } else {
        versioned(versioned_all(b, names.drop_last()), names.last())
    }
}

fn split_var(b: Vec<Stmt>, n: &str) -> (r: Vec<Stmt>)
    ensures
        block(r@) == versioned(block(b@), n@),
{
    let ghost v = block(b@);
    let mut out: Vec<Stmt> = Vec::new();
    let mut cur: u128 = 1;
    let mut written = false;
    let mut i: usize = 0;
    while i < b.len()
        invariant
            i <= b.len(),
            v == block(b@),
            1 <= cur <= i + 1,
            cur == version(v, i as int, n@),
            written == written_before(v, i as int, n@),
            out.len() == i,
            forall|j: int|
                0 <= j < i ==> (#[trigger] out@[j])@ == renamed_stmt(
                    v[j],
                    n@,
                    version_name(n@, version(v, j, n@)),
                    version_name(n@, version(v, j + 1, n@)),
                ),
        decreases b.len() - i,
    {
        assert(v[i as int] == b@[i as int]@);
        let read = name_of_version(n, cur);
        if directly_writes_var(&b[i], n) {
            if written || stmt_reads_var(&b[i], n) {
                cur += 1;
            }
            written = true;
            assert(assigns(v[i as int], n@));
        }
        let write = name_of_version(n, cur);
        out.push(rename_var_in_stmt(&b[i], n, &read, &write));
        i += 1;
    }
    if cur > 1 {
        assert(block(out@) =~= versioned(v, n@));
        out
    } else {
        b
    }
}

fn split_vars(b: Vec<Stmt>, names: &Vec<String>) -> (r: Vec<Stmt>)
    ensures
        block(r@) == versioned_all(block(b@), texts(names@)),
{
    let ghost v = texts(names@);
    let ghost b0 = block(b@);
    let mut cur = b;
    let mut i: usize = 0;
    while i < names.len()
        invariant
            i <= names.len(),
            v == texts(names@),
            block(cur@) == versioned_all(b0, v.take(i as int)),
        decreases names.len() - i,
    {
        proof {
            let t = v.take(i + 1);
            assert(t.drop_last() =~= v.take(i as int));
            assert(t.last() == v[i as int]);
        }
        cur = split_var(cur, &names[i]);
        i += 1;
    }
    assert(v.take(i as int) =~= v);
    cur
}

/// `b` with the registers that may be split in versions, in its nested blocks first.
pub open spec fn split(b: Block, whole: Seq<Text>) -> Block
    decreases b, 1nat,
{
    let inner = split_inside(b, whole);
    versioned_all(inner, splittable(block_vars(inner), whole))
}

pub open spec fn split_inside(b: Block, whole: Seq<Text>) -> Block
    decreases b, 0nat,
{
    Seq::new(b.len(), |i: int| if 0 <= i < b.len() { split_in(b[i], whole) } else { StmtV::Break })
}

pub open spec fn split_in(s: StmtV, whole: Seq<Text>) -> StmtV
    decreases s, 0nat,
{
    match s {
        StmtV::If { cond, then_body, else_body } => StmtV::If {
            cond,
            then_body: split(then_body, whole),
            else_body: split(else_body, whole),
        },
        StmtV::Loop { head, body } => StmtV::Loop { head, body: split(body, whole) },
        _ => s,
    }
}

fn split_block(b: &[Stmt], whole: &NameSet) -> (r: Vec<Stmt>)
    ensures
        block(r@) == split(block(b@), whole@),
    decreases b@,
{
    let mut inner: Vec<Stmt> = Vec::new();
    let mut i: usize = 0;
    while i < b.len()
        invariant
            i <= b.len(),
            inner.len() == i,
            forall|j: int| 0 <= j < i ==> (#[trigger] inner@[j])@ == split_in(b@[j]@, whole@),
        decreases b.len() - i,
    {
        inner.push(split_in_stmt(&b[i], whole));
        i += 1;
    }
    assert(block(inner@) =~= split_inside(block(b@), whole@));
    let names = splittable_of(&names_in_block(&inner), whole);
    split_vars(inner, &names)
}

fn split_in_stmt(s: &Stmt, whole: &NameSet) -> (r: Stmt)
    ensures
        r@ == split_in(s@, whole@),
    decreases s,
{
    if let Stmt::If { cond, then_body, else_body } = s {
        Stmt::If {
            cond: cond.clone(),
            then_body: split_block(then_body, whole),
            else_body: split_block(else_body, whole),
        }
    } else {
        match loop_body(s) {
            Some(body) => {
                let b = split_block(body, whole);
                with_loop_body(s, b)
            },
            None => s.clone(),
        }
    }
}

/// `b` with its registers split, where it is small enough: a Luau function holds at most 200
/// locals, and splitting makes more of them.
pub open spec fn registers_split(b: Block, protected: Seq<Text>) -> Block {
    let whole = insert_all(protected, fused(b, false));
    if deep(each(), b) > 600 || splittable(collect(mentions(), b, Seq::empty()), whole).len() > 80 {
        b
    } else {
        split(b, whole)
    }
}

/// Gives the values that a register holds one after another names of their own. `protected`
/// names, and variables that loops, branches or unparsed text mention, keep theirs.
pub fn split_reused_registers(stmts: &mut Vec<Stmt>, protected: &NameSet)
    ensures
        block(final(stmts)@) == registers_split(block(old(stmts)@), protected@),
{
    if count_stmts(stmts) > 600 {
        return;
    }
    let mut names: Vec<String> = Vec::new();
    assert(texts(names@) =~= Seq::<Text>::empty());
    push_fused(stmts, false, &mut names);
    assert(texts(names@) =~= fused(block(stmts@), false));
    let mut whole = protected.copy();
    whole.insert_all(&names);
    let mut mentioned_names = NameSet::new();
    collect_names(&Mentions, stmts, &mut mentioned_names);
    let candidates = splittable_of(&mentioned_names, &whole);
    assert(texts(candidates@).len() == candidates@.len());
    if candidates.len() > 80 {
        return;
    }
    *stmts = split_block(stmts, &whole);
}

} // verus!
