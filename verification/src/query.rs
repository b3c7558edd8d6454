//! Questions about jumps, labels, reads and writes in a block.
use vstd::prelude::*;

use crate::ast::{
    block, exprs, fields, is_goto_to, is_label_of, loop_body, Block, Expr, ExprV, FieldV, LoopHead, Stmt, StmtV,
    TableField,
};
use crate::names::{ascending, insert_all, insert_all_members, NameSet};
use crate::text::{has_char, str_eq, texts, Text};
use crate::weight::{
    at_most, count_up_to, cut_off, deep, deep_at, deep_range, deep_split, deep_stmt, mark_all, occurs, occurs_in_range,
    occurs_in_stmt, Weigh,
};

verus! {

// ---- weights ---------------------------------------------------------------------------

/// 1 if the condition holds, else 0.
pub open spec fn one_if(b: bool) -> nat {
    if b {
        1
    } else {
        0
    }
}

/// Weighs every `goto l`.
pub open spec fn goto_to(l: Text) -> spec_fn(StmtV) -> nat {
    |s: StmtV| one_if(s == StmtV::Goto(l))
}

/// Weighs every `::l::`.
pub open spec fn label_of(l: Text) -> spec_fn(StmtV) -> nat {
    |s: StmtV| one_if(s == StmtV::Label(l))
}

/// Weighs every `goto`.
pub open spec fn any_goto() -> spec_fn(StmtV) -> nat {
    |s: StmtV| one_if(s is Goto)
}

/// Weighs every label and every `goto`.
pub open spec fn label_or_goto() -> spec_fn(StmtV) -> nat {
    |s: StmtV| one_if(s is Label || s is Goto)
}

/// Weighs every label and every `goto` but those to `l`.
pub open spec fn label_or_other_goto(l: Text) -> spec_fn(StmtV) -> nat {
    |s: StmtV| one_if(s is Label || (s is Goto && s != StmtV::Goto(l)))
}

/// Weighs every `break` and `continue`.
pub open spec fn break_or_continue() -> spec_fn(StmtV) -> nat {
    |s: StmtV| one_if(s is Break || s is Continue)
}

/// Weighs every `goto`, `break` and `continue`.
pub open spec fn nonlocal_flow() -> spec_fn(StmtV) -> nat {
    |s: StmtV| one_if(s is Goto || s is Break || s is Continue)
}

/// Weighs every write to the bare name `n`: assignments, `local`s and loop variables.
pub open spec fn writes_to(n: Text) -> spec_fn(StmtV) -> nat {
    |s: StmtV| one_if(own_writes(s).contains(n))
}

/// Weighs every statement that writes one of `names`.
pub open spec fn writes_to_any(names: Seq<Text>) -> spec_fn(StmtV) -> nat {
    |s: StmtV| one_if(writes_one_of(s, names))
}

/// Whether `s` itself writes one of `names`.
pub open spec fn writes_one_of(s: StmtV, names: Seq<Text>) -> bool {
    exists|n: Text| names.contains(n) && #[trigger] own_writes(s).contains(n)
}

/// Weighs every read of `n`.
pub open spec fn reads_of(n: Text) -> spec_fn(StmtV) -> nat {
    |s: StmtV| own_reads(s, n)
}

/// The number of jumps to `l`.
pub open spec fn gotos(b: Block, l: Text) -> nat {
    deep(goto_to(l), b)
}

/// The number of labels named `l`.
pub open spec fn labels(b: Block, l: Text) -> nat {
    deep(label_of(l), b)
}

/// Whether the block holds a label or a jump.
pub open spec fn has_jumps(b: Block) -> bool {
    deep(label_or_goto(), b) > 0
}

/// Whether `s` reads `n`, itself or inside it.
pub open spec fn stmt_reads(s: StmtV, n: Text) -> bool {
    deep_stmt(reads_of(n), s) > 0
}

/// Whether `s` writes `n`, itself or inside it.
pub open spec fn stmt_writes(s: StmtV, n: Text) -> bool {
    deep_stmt(writes_to(n), s) > 0
}

// ---- reads and writes of one statement --------------------------------------------------

/// The bare names among assignment targets.
pub open spec fn var_names(targets: Seq<ExprV>) -> Seq<Text>
    decreases targets.len(),
{
    if targets.len() == 0 {
        Seq::empty()
    } else {
        match targets.last() {
            ExprV::Var(n) => var_names(targets.drop_last()).push(n),
            _ => var_names(targets.drop_last()),
        }
    }
}

/// The names that `s` itself writes, without the statements inside it.
pub open spec fn own_writes(s: StmtV) -> Seq<Text> {
    match s {
        StmtV::Assign { targets, .. } => var_names(targets),
        StmtV::Local { names, .. } => names,
        StmtV::Loop { head: LoopHead::Numeric { var, .. }, .. } => seq![var],
        StmtV::Loop { head: LoopHead::Generic { vars, .. }, .. } => vars,
        _ => Seq::empty(),
    }
}

/// The number of times `e` reads the variable `n`. A dotted name is a global path, no variable.
pub open spec fn expr_reads(e: ExprV, n: Text) -> nat
    decreases e,
{
    match e {
        ExprV::Var(m) => one_if(m == n && !m.contains('.')),
        ExprV::Index(t, k) => expr_reads(*t, n) + expr_reads(*k, n),
        ExprV::Field(t, _) => expr_reads(*t, n),
        ExprV::Call(f, args) => expr_reads(*f, n) + exprs_reads(args, n),
        ExprV::MethodCall(o, _, args) => expr_reads(*o, n) + exprs_reads(args, n),
        ExprV::Unary(_, a) => expr_reads(*a, n),
        ExprV::Binary(_, a, b) => expr_reads(*a, n) + expr_reads(*b, n),
        ExprV::Table(fs) => fields_reads(fs, n),
        _ => 0,
    }
}

pub open spec fn exprs_reads(es: Seq<ExprV>, n: Text) -> nat
    decreases es,
{
    if es.len() == 0 {
        0
    } else {
        exprs_reads(es.drop_last(), n) + expr_reads(es.last(), n)
    }
}

pub open spec fn field_reads(f: FieldV, n: Text) -> nat
    decreases f,
{
    match f {
        FieldV::Item(e) => expr_reads(e, n),
        FieldV::Named(_, e) => expr_reads(e, n),
        FieldV::Keyed(k, e) => expr_reads(k, n) + expr_reads(e, n),
    }
}

pub open spec fn fields_reads(fs: Seq<FieldV>, n: Text) -> nat
    decreases fs,
{
    if fs.len() == 0 {
        0
    } else {
        fields_reads(fs.drop_last(), n) + field_reads(fs.last(), n)
    }
}

/// Reads of `n` in assignment targets: a bare name is written, anything else is evaluated.
pub open spec fn targets_reads(ts: Seq<ExprV>, n: Text) -> nat
    decreases ts.len(),
{
    if ts.len() == 0 {
        0
    } else {
        targets_reads(ts.drop_last(), n) + target_reads(ts.last(), n)
    }
}

pub open spec fn target_reads(t: ExprV, n: Text) -> nat {
    if t is Var {
        0
    } else {
        expr_reads(t, n)
    }
}

/// Reads of `n` by the statement itself, without those of the statements inside it.
pub open spec fn own_reads(s: StmtV, n: Text) -> nat {
    match s {
        StmtV::Loop { head: LoopHead::While(c), .. } => expr_reads(c, n),
        StmtV::Loop { head: LoopHead::Repeat(c), .. } => expr_reads(c, n),
        _ => shallow_reads(s, n),
    }
}

/// As [`own_reads`], without the conditions of `while` and `repeat`, which are evaluated again
/// and again.
pub open spec fn shallow_reads(s: StmtV, n: Text) -> nat {
    match s {
        StmtV::Local { values, .. } => exprs_reads(values, n),
        StmtV::Assign { targets, values } => targets_reads(targets, n) + exprs_reads(values, n),
        StmtV::Call(e) => expr_reads(e, n),
        StmtV::Return(es) => exprs_reads(es, n),
        StmtV::If { cond, .. } => expr_reads(cond, n),
        StmtV::Loop { head: LoopHead::Numeric { start, limit, step, .. }, .. } => expr_reads(start, n)
            + expr_reads(limit, n) + match step {
            Some(e) => expr_reads(e, n),
            None => 0,
        },
        StmtV::Loop { head: LoopHead::Generic { exprs, .. }, .. } => exprs_reads(exprs, n),
        _ => 0,
    }
}

/// The number of times `e` reads `n`, cut off at `cap`.
pub fn expr_reads_up_to(e: &Expr, n: &str, cap: usize) -> (r: usize)
    ensures
        r == at_most(expr_reads(e@, n@), cap as nat),
    decreases e,
{
    match e {
        Expr::Var(m) => if cap > 0 && str_eq(m, n) && !has_char(m, '.') {
            1
        } else {
            0
        },
        Expr::Index(t, k) => {
            let a: usize = expr_reads_up_to(t, n, cap);
            let b: usize = expr_reads_up_to(k, n, cap);
            cut_off(a, b, cap)
        },
        Expr::Field(t, _) => expr_reads_up_to(t, n, cap),
        Expr::Call(f, args) => {
            let a: usize = expr_reads_up_to(f, n, cap);
            let b: usize = exprs_reads_up_to(args, n, cap);
            cut_off(a, b, cap)
        },
        Expr::MethodCall(o, _, args) => {
            let a: usize = expr_reads_up_to(o, n, cap);
            let b: usize = exprs_reads_up_to(args, n, cap);
            cut_off(a, b, cap)
        },
        Expr::Unary(_, a) => expr_reads_up_to(a, n, cap),
        Expr::Binary(_, x, y) => {
            let a: usize = expr_reads_up_to(x, n, cap);
            let b: usize = expr_reads_up_to(y, n, cap);
            cut_off(a, b, cap)
        },
        Expr::Table(fs) => fields_reads_up_to(fs, n, cap),
        _ => 0,
    }
}

pub fn exprs_reads_up_to(es: &[Expr], n: &str, cap: usize) -> (r: usize)
    ensures
        r == at_most(exprs_reads(exprs(es@), n@), cap as nat),
    decreases es@,
{
    let ghost v = exprs(es@);
    let mut k: usize = 0;
    let mut i: usize = 0;
    while i < es.len()
        invariant
            i <= es.len(),
            v == exprs(es@),
            k == at_most(exprs_reads(v.take(i as int), n@), cap as nat),
        decreases es.len() - i,
    {
        let a: usize = expr_reads_up_to(&es[i], n, cap);
        proof {
            let t = v.take(i + 1);
            assert(t.drop_last() =~= v.take(i as int));
            assert(t.last() == v[i as int]);
        }
        k = cut_off(k, a, cap);
        i += 1;
    }
    assert(v.take(i as int) =~= v);
    k
}

fn field_reads_up_to(f: &TableField, n: &str, cap: usize) -> (r: usize)
    ensures
        r == at_most(field_reads(f@, n@), cap as nat),
    decreases f,
{
    match f {
        TableField::Item(e) => expr_reads_up_to(e, n, cap),
        TableField::Named(_, e) => expr_reads_up_to(e, n, cap),
        TableField::Keyed(k, e) => {
            let a: usize = expr_reads_up_to(k, n, cap);
            let b: usize = expr_reads_up_to(e, n, cap);
            cut_off(a, b, cap)
        },
    }
}

pub fn fields_reads_up_to(fs: &[TableField], n: &str, cap: usize) -> (r: usize)
    ensures
        r == at_most(fields_reads(fields(fs@), n@), cap as nat),
    decreases fs@,
{
    let ghost v = fields(fs@);
    let mut k: usize = 0;
    let mut i: usize = 0;
    while i < fs.len()
        invariant
            i <= fs.len(),
            v == fields(fs@),
            k == at_most(fields_reads(v.take(i as int), n@), cap as nat),
        decreases fs.len() - i,
    {
        let a: usize = field_reads_up_to(&fs[i], n, cap);
        proof {
            let t = v.take(i + 1);
            assert(t.drop_last() =~= v.take(i as int));
            assert(t.last() == v[i as int]);
        }
        k = cut_off(k, a, cap);
        i += 1;
    }
    assert(v.take(i as int) =~= v);
    k
}

pub fn targets_reads_up_to(es: &[Expr], n: &str, cap: usize) -> (r: usize)
    ensures
        r == at_most(targets_reads(exprs(es@), n@), cap as nat),
{
    let ghost v = exprs(es@);
    let mut k: usize = 0;
    let mut i: usize = 0;
    while i < es.len()
        invariant
            i <= es.len(),
            v == exprs(es@),
            k == at_most(targets_reads(v.take(i as int), n@), cap as nat),
        decreases es.len() - i,
    {
        let a: usize = match &es[i] {
            Expr::Var(_) => 0,
            other => expr_reads_up_to(other, n, cap),
        };
        proof {
            let t = v.take(i + 1);
            assert(t.drop_last() =~= v.take(i as int));
            assert(t.last() == v[i as int]);
        }
        k = cut_off(k, a, cap);
        i += 1;
    }
    assert(v.take(i as int) =~= v);
    k
}

/// [`shallow_reads`], cut off at `cap`.
pub fn shallow_reads_up_to(s: &Stmt, n: &str, cap: usize) -> (r: usize)
    ensures
        r == at_most(shallow_reads(s@, n@), cap as nat),
{
    match s {
        Stmt::Local { values, .. } => exprs_reads_up_to(values, n, cap),
        Stmt::Assign { targets, values } => {
            let a: usize = targets_reads_up_to(targets, n, cap);
            let b: usize = exprs_reads_up_to(values, n, cap);
            cut_off(a, b, cap)
        },
        Stmt::Call(e) => expr_reads_up_to(e, n, cap),
        Stmt::Return(es) => exprs_reads_up_to(es, n, cap),
        Stmt::If { cond, .. } => expr_reads_up_to(cond, n, cap),
        Stmt::NumericFor { start, limit, step, .. } => {
            let a: usize = expr_reads_up_to(start, n, cap);
            let b: usize = expr_reads_up_to(limit, n, cap);
            let c: usize = match step {
                Some(e) => expr_reads_up_to(e, n, cap),
                None => 0,
            };
            cut_off(cut_off(a, b, cap), c, cap)
        },
        Stmt::GenericFor { exprs: es, .. } => exprs_reads_up_to(es, n, cap),
        _ => 0,
    }
}

/// [`own_reads`], cut off at `cap`.
pub fn own_reads_up_to(s: &Stmt, n: &str, cap: usize) -> (r: usize)
    ensures
        r == at_most(own_reads(s@, n@), cap as nat),
{
    match s {
        Stmt::While { cond, .. } => expr_reads_up_to(cond, n, cap),
        Stmt::Repeat { cond, .. } => expr_reads_up_to(cond, n, cap),
        _ => shallow_reads_up_to(s, n, cap),
    }
}

/// Whether `e` reads `n`.
pub fn expr_reads_var(e: &Expr, n: &str) -> (r: bool)
    ensures
        r == (expr_reads(e@, n@) > 0),
{
    expr_reads_up_to(e, n, 1) == 1
}

/// Whether `n` is one of `names`.
pub fn is_one_of(names: &[String], n: &str) -> (r: bool)
    ensures
        r == texts(names@).contains(n@),
{
    let mut i: usize = 0;
    while i < names.len()
        invariant
            i <= names.len(),
            forall|j: int| 0 <= j < i ==> texts(names@)[j] != n@,
        decreases names.len() - i,
    {
        if str_eq(&names[i], n) {
            assert(texts(names@)[i as int] == n@);
            return true;
        }
        i += 1;
    }
    false
}

/// The bare names among assignment targets.
pub fn bare_targets(es: &[Expr]) -> (r: Vec<String>)
    ensures
        texts(r@) == var_names(exprs(es@)),
{
    let ghost v = exprs(es@);
    let mut out: Vec<String> = Vec::new();
    let mut i: usize = 0;
    assert(texts(out@) =~= var_names(v.take(0)));
    while i < es.len()
        invariant
            i <= es.len(),
            v == exprs(es@),
            texts(out@) == var_names(v.take(i as int)),
        decreases es.len() - i,
    {
        proof {
            let t = v.take(i + 1);
            assert(t.drop_last() =~= v.take(i as int));
            assert(t.last() == v[i as int]);
        }
        if let Expr::Var(n) = &es[i] {
            let ghost o = out@;
            out.push(n.clone());
            assert(texts(out@) =~= texts(o).push(n@));
        }
        i += 1;
    }
    assert(v.take(i as int) =~= v);
    out
}

/// The names that `s` itself writes.
pub fn names_written(s: &Stmt) -> (r: Vec<String>)
    ensures
        texts(r@) == own_writes(s@),
{
    match s {
        Stmt::Assign { targets, .. } => bare_targets(targets),
        Stmt::Local { names, .. } => crate::ast::clone_names(names),
        Stmt::NumericFor { var, .. } => crate::ast::one_name(var.clone()),
        Stmt::GenericFor { vars, .. } => crate::ast::clone_names(vars),
        _ => {
            let r: Vec<String> = Vec::new();
            assert(texts(r@) =~= Seq::<Text>::empty());
            r
        },
    }
}

// ---- weights that can be computed --------------------------------------------------------

pub fn bit(b: bool, cap: usize) -> (r: usize)
    ensures
        r == at_most(one_if(b), cap as nat),
{
    if b && cap > 0 {
        1
    } else {
        0
    }
}

/// Counts `goto label`.
pub struct GotoTo<'a> {
    pub label: &'a str,
}

impl<'a> Weigh for GotoTo<'a> {
    open spec fn weight(&self) -> spec_fn(StmtV) -> nat {
        goto_to(self.label@)
    }

    fn weigh(&self, s: &Stmt, cap: usize) -> (r: usize) {
        bit(is_goto_to(s, self.label), cap)
    }
}

/// Counts `::label::`.
pub struct LabelOf<'a> {
    pub label: &'a str,
}

impl<'a> Weigh for LabelOf<'a> {
    open spec fn weight(&self) -> spec_fn(StmtV) -> nat {
        label_of(self.label@)
    }

    fn weigh(&self, s: &Stmt, cap: usize) -> (r: usize) {
        bit(is_label_of(s, self.label), cap)
    }
}

/// Counts jumps.
pub struct AnyGoto;

impl Weigh for AnyGoto {
    open spec fn weight(&self) -> spec_fn(StmtV) -> nat {
        any_goto()
    }

    fn weigh(&self, s: &Stmt, cap: usize) -> (r: usize) {
        bit(matches!(s, Stmt::Goto(_)), cap)
    }
}

/// Counts labels and jumps.
pub struct LabelOrGoto;

impl Weigh for LabelOrGoto {
    open spec fn weight(&self) -> spec_fn(StmtV) -> nat {
        label_or_goto()
    }

    fn weigh(&self, s: &Stmt, cap: usize) -> (r: usize) {
        bit(matches!(s, Stmt::Goto(_) | Stmt::Label(_)), cap)
    }
}

/// Counts labels and the jumps that do not go to `allowed`.
pub struct LabelOrOtherGoto<'a> {
    pub allowed: &'a str,
}

impl<'a> Weigh for LabelOrOtherGoto<'a> {
    open spec fn weight(&self) -> spec_fn(StmtV) -> nat {
        label_or_other_goto(self.allowed@)
    }

    fn weigh(&self, s: &Stmt, cap: usize) -> (r: usize) {
        match s {
            Stmt::Label(_) => bit(true, cap),
            Stmt::Goto(l) => bit(!str_eq(l, self.allowed), cap),
            _ => bit(false, cap),
        }
    }
}

/// Counts `break` and `continue`.
pub struct BreakOrContinue;

impl Weigh for BreakOrContinue {
    open spec fn weight(&self) -> spec_fn(StmtV) -> nat {
        break_or_continue()
    }

    fn weigh(&self, s: &Stmt, cap: usize) -> (r: usize) {
        bit(matches!(s, Stmt::Break | Stmt::Continue), cap)
    }
}

/// Counts `goto`, `break` and `continue`.
pub struct NonlocalFlow;

impl Weigh for NonlocalFlow {
    open spec fn weight(&self) -> spec_fn(StmtV) -> nat {
        nonlocal_flow()
    }

    fn weigh(&self, s: &Stmt, cap: usize) -> (r: usize) {
        bit(matches!(s, Stmt::Goto(_) | Stmt::Break | Stmt::Continue), cap)
    }
}

/// Counts reads of a variable.
pub struct ReadsOf<'a> {
    pub name: &'a str,
}

impl<'a> Weigh for ReadsOf<'a> {
    open spec fn weight(&self) -> spec_fn(StmtV) -> nat {
        reads_of(self.name@)
    }

    fn weigh(&self, s: &Stmt, cap: usize) -> (r: usize) {
        own_reads_up_to(s, self.name, cap)
    }
}

/// Counts statements that write a variable.
pub struct WritesTo<'a> {
    pub name: &'a str,
}

impl<'a> Weigh for WritesTo<'a> {
    open spec fn weight(&self) -> spec_fn(StmtV) -> nat {
        writes_to(self.name@)
    }

    fn weigh(&self, s: &Stmt, cap: usize) -> (r: usize) {
        let w = names_written(s);
        bit(is_one_of(&w, self.name), cap)
    }
}

/// Counts statements that write one of several variables.
pub struct WritesToAny<'a> {
    pub names: &'a NameSet,
}

impl<'a> Weigh for WritesToAny<'a> {
    open spec fn weight(&self) -> spec_fn(StmtV) -> nat {
        writes_to_any(self.names@)
    }

    fn weigh(&self, s: &Stmt, cap: usize) -> (r: usize) {
        let w = names_written(s);
        let ghost v = own_writes(s@);
        let mut i: usize = 0;
        while i < w.len()
            invariant
                i <= w.len(),
                texts(w@) == v,
                v == own_writes(s@),
                forall|j: int| 0 <= j < i ==> !self.names@.contains(#[trigger] v[j]),
            decreases w.len() - i,
        {
            if self.names.contains(&w[i]) {
                assert(v[i as int] == w@[i as int]@);
                assert(own_writes(s@).contains(v[i as int]));
                return bit(true, cap);
            }
            assert(v[i as int] == w@[i as int]@);
            i += 1;
        }
        assert(!writes_one_of(s@, self.names@)) by {
            if writes_one_of(s@, self.names@) {
                let n = choose|n: Text| self.names@.contains(n) && #[trigger] own_writes(s@).contains(n);
                let k = v.index_of(n);
                assert(v[k] == n);
            }
        }
        bit(false, cap)
    }
}

// ---- jumps -------------------------------------------------------------------------------

/// Whether all jumps to `label` in `b` are in the statement at `i`.
pub fn gotos_only_at(b: &[Stmt], i: usize, label: &str) -> (r: bool)
    requires
        i < b@.len(),
    ensures
        r == (gotos(block(b@), label@) == deep_stmt(goto_to(label@), block(b@)[i as int])),
{
    proof {
        deep_at(goto_to(label@), block(b@), i as int);
    }
    let m = GotoTo { label };
    let n: usize = b.len();
    !occurs_in_range(&m, b, 0, i) && !occurs_in_range(&m, b, i + 1, n)
}

/// The number of jumps to the label.
pub fn count_gotos(b: &[Stmt], label: &str) -> (r: usize)
    ensures
        r == gotos(block(b@), label@),
{
    let mut marks: Vec<bool> = Vec::new();
    mark_all(&GotoTo { label }, b, &mut marks);
    marks.len()
}

/// Whether all jumps to `label` in `b` are in `b[lo..hi]`.
pub fn gotos_only_in(b: &[Stmt], lo: usize, hi: usize, label: &str) -> (r: bool)
    requires
        lo <= hi <= b@.len(),
    ensures
        r == (gotos(block(b@), label@) == gotos(block(b@).subrange(lo as int, hi as int), label@)),
{
    proof {
        deep_split(goto_to(label@), block(b@), hi as int);
        deep_range(goto_to(label@), block(b@), 0, lo as int, hi as int);
    }
    let m = GotoTo { label };
    !occurs_in_range(&m, b, 0, lo) && !occurs_in_range(&m, b, hi, b.len())
}

/// Whether there is exactly one jump to `label`.
pub fn one_goto(b: &[Stmt], label: &str) -> (r: bool)
    ensures
        r == (gotos(block(b@), label@) == 1),
{
    count_up_to(&GotoTo { label }, b, 2) == 1
}

/// Whether there is a jump to `label`.
pub fn has_goto(b: &[Stmt], label: &str) -> (r: bool)
    ensures
        r == (gotos(block(b@), label@) > 0),
{
    occurs(&GotoTo { label }, b)
}

/// Whether there is a label named `label`.
pub fn has_label(b: &[Stmt], label: &str) -> (r: bool)
    ensures
        r == (labels(block(b@), label@) > 0),
{
    occurs(&LabelOf { label }, b)
}

/// Whether `b[lo..hi]` holds a label or a jump.
pub fn range_has_jumps(b: &[Stmt], lo: usize, hi: usize) -> (r: bool)
    requires
        lo <= hi <= b@.len(),
    ensures
        r == has_jumps(block(b@).subrange(lo as int, hi as int)),
{
    occurs_in_range(&LabelOrGoto, b, lo, hi)
}

/// Whether `s` reads `name`.
pub fn stmt_reads_var(s: &Stmt, name: &str) -> (r: bool)
    ensures
        r == stmt_reads(s@, name@),
{
    occurs_in_stmt(&ReadsOf { name }, s)
}

/// Whether `s` writes `name`.
pub fn stmt_writes_var(s: &Stmt, name: &str) -> (r: bool)
    ensures
        r == stmt_writes(s@, name@),
{
    occurs_in_stmt(&WritesTo { name }, s)
}

/// The first position from `i` on at which the label `l` stands, at the top level of `b`.
pub open spec fn find_label(b: Block, i: int, l: Text) -> Option<int>
    decreases b.len() - i,
{
    if i < 0 || i >= b.len() {
        None
    } else if b[i] == StmtV::Label(l) {
        Some(i)
    } else {
        find_label(b, i + 1, l)
    }
}

/// What [`find_label`] finds.
pub proof fn find_label_found(b: Block, i: int, l: Text)
    requires
        0 <= i,
    ensures
        match find_label(b, i, l) {
            Some(k) => i <= k < b.len() && b[k] == StmtV::Label(l) && forall|j: int|
                i <= j < k ==> #[trigger] b[j] != StmtV::Label(l),
            None => forall|j: int| i <= j < b.len() ==> #[trigger] b[j] != StmtV::Label(l),
        },
    decreases b.len() - i,
{
    if i < b.len() && b[i] != StmtV::Label(l) {
        find_label_found(b, i + 1, l);
    }
}

/// As an index, for contracts.
pub open spec fn opt_index(r: Option<usize>) -> Option<int> {
    match r {
        Some(k) => Some(k as int),
        None => None,
    }
}

/// The first position from `from` on at which the label stands, at the top level of `b`.
pub fn position_of_label(b: &[Stmt], from: usize, label: &str) -> (r: Option<usize>)
    requires
        from <= b@.len(),
    ensures
        opt_index(r) == find_label(block(b@), from as int, label@),
        r matches Some(k) ==> from <= k < b.len() && block(b@)[k as int] == StmtV::Label(label@),
{
    let mut i: usize = from;
    while i < b.len()
        invariant
            from <= i <= b.len(),
            find_label(block(b@), from as int, label@) == find_label(block(b@), i as int, label@),
        decreases b.len() - i,
    {
        if is_label_of(&b[i], label) {
            return Some(i);
        }
        i += 1;
    }
    None
}

// ---- collected names ----------------------------------------------------------------------

/// The names that `f` picks from all statements of `b`, put into `acc`.
pub open spec fn collect(f: spec_fn(StmtV) -> Seq<Text>, b: Block, acc: Seq<Text>) -> Seq<Text>
    decreases b,
{
    if b.len() == 0 {
        acc
    } else {
        collect_stmt(f, b.last(), collect(f, b.drop_last(), acc))
    }
}

pub open spec fn collect_stmt(f: spec_fn(StmtV) -> Seq<Text>, s: StmtV, acc: Seq<Text>) -> Seq<Text>
    decreases s,
{
    let own = insert_all(acc, f(s));
    match s {
        StmtV::If { then_body, else_body, .. } => collect(f, else_body, collect(f, then_body, own)),
        StmtV::Loop { body, .. } => collect(f, body, own),
        _ => own,
    }
}

/// Weighs every statement from which `f` picks `n`.
pub open spec fn picks(f: spec_fn(StmtV) -> Seq<Text>, n: Text) -> spec_fn(StmtV) -> nat {
    |s: StmtV| one_if(f(s).contains(n))
}

/// What is collected is what is picked somewhere, in ascending order.
pub proof fn collect_members(f: spec_fn(StmtV) -> Seq<Text>, b: Block, acc: Seq<Text>, n: Text)
    ensures
        collect(f, b, acc).contains(n) <==> acc.contains(n) || deep(picks(f, n), b) > 0,
        ascending(acc) ==> ascending(collect(f, b, acc)),
    decreases b,
{
    if b.len() > 0 {
        collect_members(f, b.drop_last(), acc, n);
        collect_stmt_members(f, b.last(), collect(f, b.drop_last(), acc), n);
    }
}

pub proof fn collect_stmt_members(f: spec_fn(StmtV) -> Seq<Text>, s: StmtV, acc: Seq<Text>, n: Text)
    ensures
        collect_stmt(f, s, acc).contains(n) <==> acc.contains(n) || deep_stmt(picks(f, n), s) > 0,
        ascending(acc) ==> ascending(collect_stmt(f, s, acc)),
    decreases s,
{
    let own = insert_all(acc, f(s));
    insert_all_members(acc, f(s), n);
    match s {
        StmtV::If { then_body, else_body, .. } => {
            collect_members(f, then_body, own, n);
            collect_members(f, else_body, collect(f, then_body, own), n);
        },
        StmtV::Loop { body, .. } => {
            collect_members(f, body, own, n);
        },
        _ => {},
    }
}

/// A choice of names that can be computed.
pub trait Pick {
    spec fn names(&self) -> spec_fn(StmtV) -> Seq<Text>;

    fn pick(&self, s: &Stmt) -> (r: Vec<String>)
        ensures
            texts(r@) == (self.names())(s@),
    ;
}

/// Puts the names that `p` picks from `b` into `acc`.
pub fn collect_names<P: Pick>(p: &P, b: &[Stmt], acc: &mut NameSet)
    ensures
        final(acc)@ == collect(p.names(), block(b@), old(acc)@),
        old(acc).wf() ==> final(acc).wf(),
    decreases b@,
{
    let ghost v = block(b@);
    let ghost a0 = acc@;
    let ghost w0 = acc.wf();
    let mut i: usize = 0;
    while i < b.len()
        invariant
            i <= b.len(),
            v == block(b@),
            acc@ == collect(p.names(), v.take(i as int), a0),
            w0 ==> acc.wf(),
        decreases b.len() - i,
    {
        proof {
            let t = v.take(i + 1);
            assert(t.drop_last() =~= v.take(i as int));
            assert(t.last() == v[i as int]);
        }
        collect_stmt_names(p, &b[i], acc);
        i += 1;
    }
    assert(v.take(i as int) =~= v);
}

pub fn collect_stmt_names<P: Pick>(p: &P, s: &Stmt, acc: &mut NameSet)
    ensures
        final(acc)@ == collect_stmt(p.names(), s@, old(acc)@),
        old(acc).wf() ==> final(acc).wf(),
    decreases s,
{
    let own = p.pick(s);
    acc.insert_all(&own);
    if let Stmt::If { then_body, else_body, .. } = s {
        collect_names(p, then_body, acc);
        collect_names(p, else_body, acc);
    } else {
        match loop_body(s) {
            Some(body) => collect_names(p, body, acc),
            None => {},
        }
    }
}

/// Picks the target of a jump.
pub open spec fn goto_target() -> spec_fn(StmtV) -> Seq<Text> {
    |s: StmtV| match s {
        StmtV::Goto(l) => seq![l],
        _ => Seq::empty(),
    }
}

/// Picks the name of a label.
pub open spec fn label_name() -> spec_fn(StmtV) -> Seq<Text> {
    |s: StmtV| match s {
        StmtV::Label(l) => seq![l],
        _ => Seq::empty(),
    }
}

pub open spec fn written_names() -> spec_fn(StmtV) -> Seq<Text> {
    |s: StmtV| own_writes(s)
}

pub struct GotoTarget;

pub struct LabelName;

pub struct WrittenNames;

fn single(n: &String) -> (r: Vec<String>)
    ensures
        texts(r@) == seq![n@],
{
    crate::ast::one_name(n.clone())
}

fn no_names() -> (r: Vec<String>)
    ensures
        texts(r@) == Seq::<Text>::empty(),
{
    let r: Vec<String> = Vec::new();
    assert(texts(r@) =~= Seq::<Text>::empty());
    r
}

impl Pick for GotoTarget {
    open spec fn names(&self) -> spec_fn(StmtV) -> Seq<Text> {
        goto_target()
    }

    fn pick(&self, s: &Stmt) -> (r: Vec<String>) {
        match s {
            Stmt::Goto(l) => single(l),
            _ => no_names(),
        }
    }
}

impl Pick for LabelName {
    open spec fn names(&self) -> spec_fn(StmtV) -> Seq<Text> {
        label_name()
    }

    fn pick(&self, s: &Stmt) -> (r: Vec<String>) {
        match s {
            Stmt::Label(l) => single(l),
            _ => no_names(),
        }
    }
}

impl Pick for WrittenNames {
    open spec fn names(&self) -> spec_fn(StmtV) -> Seq<Text> {
        written_names()
    }

    fn pick(&self, s: &Stmt) -> (r: Vec<String>) {
        names_written(s)
    }
}

/// The labels that `s` jumps to, in ascending order.
pub open spec fn goto_names(s: StmtV) -> Seq<Text> {
    collect_stmt(goto_target(), s, Seq::empty())
}

/// The labels that stand in `b`, in ascending order.
pub open spec fn label_names(b: Block) -> Seq<Text> {
    collect(label_name(), b, Seq::empty())
}

/// The labels that `b` jumps to, in ascending order.
pub open spec fn block_goto_names(b: Block) -> Seq<Text> {
    collect(goto_target(), b, Seq::empty())
}

pub fn goto_names_in_stmt(s: &Stmt) -> (r: NameSet)
    ensures
        r@ == goto_names(s@),
        r.wf(),
{
    let mut out = NameSet::new();
    collect_stmt_names(&GotoTarget, s, &mut out);
    out
}

pub fn goto_names_in_block(b: &[Stmt]) -> (r: NameSet)
    ensures
        r@ == block_goto_names(block(b@)),
        r.wf(),
{
    let mut out = NameSet::new();
    collect_names(&GotoTarget, b, &mut out);
    out
}

pub fn label_names_in_block(b: &[Stmt]) -> (r: NameSet)
    ensures
        r@ == label_names(block(b@)),
        r.wf(),
{
    let mut out = NameSet::new();
    collect_names(&LabelName, b, &mut out);
    out
}

pub proof fn weights_agree(v: spec_fn(StmtV) -> nat, w: spec_fn(StmtV) -> nat, b: Block)
    requires
        forall|s: StmtV| #[trigger] v(s) == w(s),
    ensures
        deep(v, b) == deep(w, b),
{
    assert(v =~= w);
}

/// `label_names` holds the labels that occur.
pub proof fn label_names_members(b: Block, l: Text)
    ensures
        label_names(b).contains(l) <==> labels(b, l) > 0,
{
    collect_members(label_name(), b, Seq::empty(), l);
    assert forall|s: StmtV| #[trigger] picks(label_name(), l)(s) == label_of(l)(s) by {
        if let StmtV::Label(m) = s {
            assert(seq![m].contains(l) <==> m == l) by {
                assert(seq![m][0] == m);
            }
        }
    }
    weights_agree(picks(label_name(), l), label_of(l), b);
}

/// `goto_names` holds the labels that are jumped to.
pub proof fn goto_names_members(s: StmtV, l: Text)
    ensures
        goto_names(s).contains(l) <==> deep_stmt(goto_to(l), s) > 0,
{
    collect_stmt_members(goto_target(), s, Seq::empty(), l);
    assert forall|s: StmtV| #[trigger] picks(goto_target(), l)(s) == goto_to(l)(s) by {
        if let StmtV::Goto(m) = s {
            assert(seq![m].contains(l) <==> m == l) by {
                assert(seq![m][0] == m);
            }
        }
    }
    assert(picks(goto_target(), l) =~= goto_to(l));
}

} // verus!
