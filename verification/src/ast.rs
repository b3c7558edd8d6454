//! A small Luau syntax tree.
//!
//! Every node type has a mathematical model: strings become sequences of characters, vectors
//! become sequences, and the four loop statements become one `Loop` with a `LoopHead`.
use vstd::prelude::*;

use crate::text::{str_eq, texts, Text};

verus! {

/// What a closure upvalue captures from its enclosing function.
#[derive(Debug, Clone, Copy, PartialEq, Eq, Structural)]
pub enum Capture {
    /// A register (local) of the enclosing function.
    Reg(u8),
    /// An upvalue of the enclosing function (a chained capture).
    Upval(u8),
}

/// A Luau expression.
#[derive(Debug, PartialEq)]
pub enum Expr {
    Nil,
    Bool(bool),
    /// A number, already rendered as text.
    Num(String),
    /// A quoted, escaped string literal (the quotes are part of the text).
    Str(String),
    Vector(String),
    /// A bare identifier: a local name, a synthesized name, or a resolved global/import path.
    Var(String),
    /// `table[key]`
    Index(Box<Expr>, Box<Expr>),
    /// `table.field` (field is a valid identifier)
    Field(Box<Expr>, String),
    Call(Box<Expr>, Vec<Expr>),
    MethodCall(Box<Expr>, String, Vec<Expr>),
    Unary(&'static str, Box<Expr>),
    /// Binary op; the first part is the Luau operator text (`+`, `..`, `==`, `and`, ...).
    Binary(&'static str, Box<Expr>, Box<Expr>),
    Table(Vec<TableField>),
    /// `...`
    Vararg,
    /// A function literal: the rendered body text plus, in order, what each upvalue captures
    /// from the enclosing function.
    Closure { text: String, captures: Vec<Capture> },
    /// Fallback raw text (e.g. `R3 --[[?]]`) for things that could not be reconstructed.
    Raw(String),
}

/// One entry of a table constructor.
#[derive(Debug, PartialEq)]
pub enum TableField {
    /// positional array item
    Item(Expr),
    /// `name = value`
    Named(String, Expr),
    /// `[key] = value`
    Keyed(Expr, Expr),
}

/// A Luau statement.
#[derive(Debug, PartialEq)]
pub enum Stmt {
    /// `local a, b = e1, e2`
    Local { names: Vec<String>, values: Vec<Expr> },
    /// `lhs1, lhs2 = e1, e2`
    Assign { targets: Vec<Expr>, values: Vec<Expr> },
    /// an expression (a call) evaluated for its effects
    Call(Expr),
    Return(Vec<Expr>),
    Break,
    Continue,
    /// `if cond then <then> [else <else_>] end`. elseif chains are nested else-ifs.
    If { cond: Expr, then_body: Vec<Stmt>, else_body: Vec<Stmt> },
    While { cond: Expr, body: Vec<Stmt> },
    Repeat { body: Vec<Stmt>, cond: Expr },
    NumericFor { var: String, start: Expr, limit: Expr, step: Option<Expr>, body: Vec<Stmt> },
    GenericFor { vars: Vec<String>, exprs: Vec<Expr>, body: Vec<Stmt> },
    /// A `::label::` marker.
    Label(String),
    /// `goto label`
    Goto(String),
    /// A free-standing comment line.
    Comment(String),
}

/// Model of an [`Expr`].
#[verifier::ext_equal]
pub enum ExprV {
    Nil,
    Bool(bool),
    Num(Text),
    Str(Text),
    Vector(Text),
    Var(Text),
    Index(Box<ExprV>, Box<ExprV>),
    Field(Box<ExprV>, Text),
    Call(Box<ExprV>, Seq<ExprV>),
    MethodCall(Box<ExprV>, Text, Seq<ExprV>),
    Unary(Text, Box<ExprV>),
    Binary(Text, Box<ExprV>, Box<ExprV>),
    Table(Seq<FieldV>),
    Vararg,
    Closure { text: Text, captures: Seq<Capture> },
    Raw(Text),
}

/// Model of a [`TableField`].
#[verifier::ext_equal]
pub enum FieldV {
    Item(ExprV),
    Named(Text, ExprV),
    Keyed(ExprV, ExprV),
}

/// What stands before the body of a loop (after it, for `repeat`).
#[verifier::ext_equal]
pub enum LoopHead {
    While(ExprV),
    Repeat(ExprV),
    Numeric { var: Text, start: ExprV, limit: ExprV, step: Option<ExprV> },
    Generic { vars: Seq<Text>, exprs: Seq<ExprV> },
}

/// Model of a [`Stmt`].
#[verifier::ext_equal]
pub enum StmtV {
    Local { names: Seq<Text>, values: Seq<ExprV> },
    Assign { targets: Seq<ExprV>, values: Seq<ExprV> },
    Call(ExprV),
    Return(Seq<ExprV>),
    Break,
    Continue,
    If { cond: ExprV, then_body: Seq<StmtV>, else_body: Seq<StmtV> },
    Loop { head: LoopHead, body: Seq<StmtV> },
    Label(Text),
    Goto(Text),
    Comment(Text),
}

/// Model of a list of statements.
pub type Block = Seq<StmtV>;

pub open spec fn expr_view(e: Expr) -> ExprV
    decreases e,
{
    match e {
        Expr::Nil => ExprV::Nil,
        Expr::Bool(b) => ExprV::Bool(b),
        Expr::Num(s) => ExprV::Num(s@),
        Expr::Str(s) => ExprV::Str(s@),
        Expr::Vector(s) => ExprV::Vector(s@),
        Expr::Var(s) => ExprV::Var(s@),
        Expr::Index(t, k) => ExprV::Index(Box::new(expr_view(*t)), Box::new(expr_view(*k))),
        Expr::Field(t, f) => ExprV::Field(Box::new(expr_view(*t)), f@),
        Expr::Call(f, a) => ExprV::Call(Box::new(expr_view(*f)), exprs(a@)),
        Expr::MethodCall(o, m, a) => ExprV::MethodCall(Box::new(expr_view(*o)), m@, exprs(a@)),
        Expr::Unary(op, a) => ExprV::Unary(op@, Box::new(expr_view(*a))),
        Expr::Binary(op, a, b) => ExprV::Binary(op@, Box::new(expr_view(*a)), Box::new(expr_view(*b))),
        Expr::Table(fs) => ExprV::Table(fields(fs@)),
        Expr::Vararg => ExprV::Vararg,
        Expr::Closure { text, captures } => ExprV::Closure { text: text@, captures: captures@ },
        Expr::Raw(s) => ExprV::Raw(s@),
    }
}

pub open spec fn field_view(f: TableField) -> FieldV
    decreases f,
{
    match f {
        TableField::Item(e) => FieldV::Item(expr_view(e)),
        TableField::Named(n, e) => FieldV::Named(n@, expr_view(e)),
        TableField::Keyed(k, e) => FieldV::Keyed(expr_view(k), expr_view(e)),
    }
}

/// The models of a sequence of expressions.
pub open spec fn exprs(s: Seq<Expr>) -> Seq<ExprV>
    decreases s,
{
    Seq::new(s.len(), |i: int| if 0 <= i < s.len() { expr_view(s[i]) } else { ExprV::Nil })
}

/// The models of a sequence of table fields.
pub open spec fn fields(s: Seq<TableField>) -> Seq<FieldV>
    decreases s,
{
    Seq::new(
        s.len(),
        |i: int| if 0 <= i < s.len() { field_view(s[i]) } else { FieldV::Item(ExprV::Nil) },
    )
}

pub open spec fn stmt_view(s: Stmt) -> StmtV
    decreases s,
{
    match s {
        Stmt::Local { names, values } => StmtV::Local { names: texts(names@), values: exprs(values@) },
        Stmt::Assign { targets, values } => StmtV::Assign {
            targets: exprs(targets@),
            values: exprs(values@),
        },
        Stmt::Call(e) => StmtV::Call(expr_view(e)),
        Stmt::Return(es) => StmtV::Return(exprs(es@)),
        Stmt::Break => StmtV::Break,
        Stmt::Continue => StmtV::Continue,
        Stmt::If { cond, then_body, else_body } => StmtV::If {
            cond: expr_view(cond),
            then_body: block(then_body@),
            else_body: block(else_body@),
        },
        Stmt::While { cond, body } => StmtV::Loop {
            head: LoopHead::While(expr_view(cond)),
            body: block(body@),
        },
        Stmt::Repeat { body, cond } => StmtV::Loop {
            head: LoopHead::Repeat(expr_view(cond)),
            body: block(body@),
        },
        Stmt::NumericFor { var, start, limit, step, body } => StmtV::Loop {
            head: LoopHead::Numeric {
                var: var@,
                start: expr_view(start),
                limit: expr_view(limit),
                step: opt_expr_view(step),
            },
            body: block(body@),
        },
        Stmt::GenericFor { vars, exprs: es, body } => StmtV::Loop {
            head: LoopHead::Generic { vars: texts(vars@), exprs: exprs(es@) },
            body: block(body@),
        },
        Stmt::Label(n) => StmtV::Label(n@),
        Stmt::Goto(n) => StmtV::Goto(n@),
        Stmt::Comment(t) => StmtV::Comment(t@),
    }
}

pub open spec fn opt_expr_view(e: Option<Expr>) -> Option<ExprV> {
    match e {
        Some(x) => Some(expr_view(x)),
        None => None,
    }
}

/// The models of a sequence of statements.
pub open spec fn block(s: Seq<Stmt>) -> Block
    decreases s,
{
    Seq::new(s.len(), |i: int| if 0 <= i < s.len() { stmt_view(s[i]) } else { StmtV::Break })
}

impl View for Expr {
    type V = ExprV;

    open spec fn view(&self) -> ExprV {
        expr_view(*self)
    }
}

impl View for TableField {
    type V = FieldV;

    open spec fn view(&self) -> FieldV {
        field_view(*self)
    }
}

impl View for Stmt {
    type V = StmtV;

    open spec fn view(&self) -> StmtV {
        stmt_view(*self)
    }
}

/// Whether an optional list of statements has the given model.
pub open spec fn opt_block(v: Option<Vec<Stmt>>) -> Option<Block> {
    match v {
        Some(x) => Some(block(x@)),
        None => None,
    }
}

impl Clone for Expr {
    fn clone(&self) -> (r: Self)
        ensures
            r@ == self@,
        decreases self,
    {
        match self {
            Expr::Nil => Expr::Nil,
            Expr::Bool(b) => Expr::Bool(*b),
            Expr::Num(s) => Expr::Num(s.clone()),
            Expr::Str(s) => Expr::Str(s.clone()),
            Expr::Vector(s) => Expr::Vector(s.clone()),
            Expr::Var(s) => Expr::Var(s.clone()),
            Expr::Index(t, k) => Expr::Index(Box::new((**t).clone()), Box::new((**k).clone())),
            Expr::Field(t, f) => Expr::Field(Box::new((**t).clone()), f.clone()),
            Expr::Call(f, a) => Expr::Call(Box::new((**f).clone()), clone_exprs(a)),
            Expr::MethodCall(o, m, a) => Expr::MethodCall(
                Box::new((**o).clone()),
                m.clone(),
                clone_exprs(a),
            ),
            Expr::Unary(op, a) => Expr::Unary(op, Box::new((**a).clone())),
            Expr::Binary(op, a, b) => Expr::Binary(
                op,
                Box::new((**a).clone()),
                Box::new((**b).clone()),
            ),
            Expr::Table(fs) => Expr::Table(clone_fields(fs)),
            Expr::Vararg => Expr::Vararg,
            Expr::Closure { text, captures } => Expr::Closure {
                text: text.clone(),
                captures: captures.clone(),
            },
            Expr::Raw(s) => Expr::Raw(s.clone()),
        }
    }
}

impl Clone for TableField {
    fn clone(&self) -> (r: Self)
        ensures
            r@ == self@,
        decreases self,
    {
        match self {
            TableField::Item(e) => TableField::Item(e.clone()),
            TableField::Named(n, e) => TableField::Named(n.clone(), e.clone()),
            TableField::Keyed(k, e) => TableField::Keyed(k.clone(), e.clone()),
        }
    }
}

impl Clone for Stmt {
    fn clone(&self) -> (r: Self)
        ensures
            r@ == self@,
        decreases self,
    {
        match self {
            Stmt::Local { names, values } => Stmt::Local {
                names: clone_names(names),
                values: clone_exprs(values),
            },
            Stmt::Assign { targets, values } => Stmt::Assign {
                targets: clone_exprs(targets),
                values: clone_exprs(values),
            },
            Stmt::Call(e) => Stmt::Call(e.clone()),
            Stmt::Return(es) => Stmt::Return(clone_exprs(es)),
            Stmt::Break => Stmt::Break,
            Stmt::Continue => Stmt::Continue,
            Stmt::If { cond, then_body, else_body } => Stmt::If {
                cond: cond.clone(),
                then_body: clone_block(then_body),
                else_body: clone_block(else_body),
            },
            Stmt::While { cond, body } => Stmt::While { cond: cond.clone(), body: clone_block(body) },
            Stmt::Repeat { body, cond } => Stmt::Repeat { body: clone_block(body), cond: cond.clone() },
            Stmt::NumericFor { var, start, limit, step, body } => Stmt::NumericFor {
                var: var.clone(),
                start: start.clone(),
                limit: limit.clone(),
                step: clone_opt_expr(step),
                body: clone_block(body),
            },
            Stmt::GenericFor { vars, exprs: es, body } => Stmt::GenericFor {
                vars: clone_names(vars),
                exprs: clone_exprs(es),
                body: clone_block(body),
            },
            Stmt::Label(n) => Stmt::Label(n.clone()),
            Stmt::Goto(n) => Stmt::Goto(n.clone()),
            Stmt::Comment(t) => Stmt::Comment(t.clone()),
        }
    }
}

/// A copy of an optional expression.
pub fn clone_opt_expr(e: &Option<Expr>) -> (r: Option<Expr>)
    ensures
        opt_expr_view(r) == opt_expr_view(*e),
{
    match e {
        Some(x) => Some(x.clone()),
        None => None,
    }
}

/// A copy of a list of names.
pub fn clone_names(names: &[String]) -> (r: Vec<String>)
    ensures
        texts(r@) == texts(names@),
{
    let mut out: Vec<String> = Vec::new();
    let mut i: usize = 0;
    while i < names.len()
        invariant
            i <= names.len(),
            out.len() == i,
            forall|j: int| 0 <= j < i ==> (#[trigger] out@[j])@ == names@[j]@,
        decreases names.len() - i,
    {
        out.push(names[i].clone());
        i += 1;
    }
    assert(texts(out@) =~= texts(names@));
    out
}

/// A copy of a list of expressions.
pub fn clone_exprs(es: &[Expr]) -> (r: Vec<Expr>)
    ensures
        exprs(r@) == exprs(es@),
    decreases es@,
{
    let mut out: Vec<Expr> = Vec::new();
    let mut i: usize = 0;
    while i < es.len()
        invariant
            i <= es.len(),
            out.len() == i,
            forall|j: int| 0 <= j < i ==> (#[trigger] out@[j])@ == es@[j]@,
        decreases es.len() - i,
    {
        out.push(es[i].clone());
        i += 1;
    }
    assert(exprs(out@) =~= exprs(es@));
    out
}

/// A copy of a list of table fields.
pub fn clone_fields(es: &[TableField]) -> (r: Vec<TableField>)
    ensures
        fields(r@) == fields(es@),
    decreases es@,
{
    let mut out: Vec<TableField> = Vec::new();
    let mut i: usize = 0;
    while i < es.len()
        invariant
            i <= es.len(),
            out.len() == i,
            forall|j: int| 0 <= j < i ==> (#[trigger] out@[j])@ == es@[j]@,
        decreases es.len() - i,
    {
        out.push(es[i].clone());
        i += 1;
    }
    assert(fields(out@) =~= fields(es@));
    out
}

/// A copy of a list of statements.
pub fn clone_block(es: &[Stmt]) -> (r: Vec<Stmt>)
    ensures
        block(r@) == block(es@),
    decreases es@,
{
    let mut out: Vec<Stmt> = Vec::new();
    let mut i: usize = 0;
    while i < es.len()
        invariant
            i <= es.len(),
            out.len() == i,
            forall|j: int| 0 <= j < i ==> (#[trigger] out@[j])@ == es@[j]@,
        decreases es.len() - i,
    {
        out.push(es[i].clone());
        i += 1;
    }
    assert(block(out@) =~= block(es@));
    out
}

/// Whether two expressions are the same.
pub fn expr_eq(a: &Expr, b: &Expr) -> (r: bool)
    ensures
        r == (a@ == b@),
    decreases a,
{
    match (a, b) {
        (Expr::Nil, Expr::Nil) => true,
        (Expr::Bool(x), Expr::Bool(y)) => *x == *y,
        (Expr::Num(x), Expr::Num(y)) => str_eq(x, y),
        (Expr::Str(x), Expr::Str(y)) => str_eq(x, y),
        (Expr::Vector(x), Expr::Vector(y)) => str_eq(x, y),
        (Expr::Var(x), Expr::Var(y)) => str_eq(x, y),
        (Expr::Index(t, k), Expr::Index(u, l)) => expr_eq(t, u) && expr_eq(k, l),
        (Expr::Field(t, f), Expr::Field(u, g)) => expr_eq(t, u) && str_eq(f, g),
        (Expr::Call(f, x), Expr::Call(g, y)) => expr_eq(f, g) && exprs_eq(x, y),
        (Expr::MethodCall(o, m, x), Expr::MethodCall(p, n, y)) => expr_eq(o, p) && str_eq(m, n)
            && exprs_eq(x, y),
        (Expr::Unary(o, x), Expr::Unary(p, y)) => str_eq(o, p) && expr_eq(x, y),
        (Expr::Binary(o, x, y), Expr::Binary(p, z, w)) => str_eq(o, p) && expr_eq(x, z) && expr_eq(y, w),
        (Expr::Table(x), Expr::Table(y)) => fields_eq(x, y),
        (Expr::Vararg, Expr::Vararg) => true,
        (Expr::Closure { text: s, captures: x }, Expr::Closure { text: t, captures: y }) => str_eq(s, t)
            && captures_eq(x, y),
        (Expr::Raw(x), Expr::Raw(y)) => str_eq(x, y),
        _ => false,
    }
}

/// Whether two capture lists are the same.
pub fn captures_eq(a: &[Capture], b: &[Capture]) -> (r: bool)
    ensures
        r == (a@ == b@),
{
    if a.len() != b.len() {
        return false;
    }
    let mut i: usize = 0;
    while i < a.len()
        invariant
            i <= a.len(),
            a.len() == b.len(),
            forall|j: int| 0 <= j < i ==> a@[j] == b@[j],
        decreases a.len() - i,
    {
        if a[i] != b[i] {
            return false;
        }
        i += 1;
    }
    assert(a@ =~= b@);
    true
}

/// Whether two table fields are the same.
pub fn field_eq(a: &TableField, b: &TableField) -> (r: bool)
    ensures
        r == (a@ == b@),
    decreases a,
{
    match (a, b) {
        (TableField::Item(x), TableField::Item(y)) => expr_eq(x, y),
        (TableField::Named(n, x), TableField::Named(m, y)) => str_eq(n, m) && expr_eq(x, y),
        (TableField::Keyed(k, x), TableField::Keyed(l, y)) => expr_eq(k, l) && expr_eq(x, y),
        _ => false,
    }
}

fn name_eq(a: &String, b: &String) -> (r: bool)
    ensures
        r == (a@ == b@),
{
    str_eq(a, b)
}

fn opt_expr_eq(a: &Option<Expr>, b: &Option<Expr>) -> (r: bool)
    ensures
        r == (opt_expr_view(*a) == opt_expr_view(*b)),
{
    match (a, b) {
        (Some(x), Some(y)) => expr_eq(x, y),
        (None, None) => true,
        _ => false,
    }
}

/// Whether two statements are the same.
pub fn stmt_eq(a: &Stmt, b: &Stmt) -> (r: bool)
    ensures
        r == (a@ == b@),
    decreases a,
{
    match (a, b) {
        (Stmt::Local { names: n, values: x }, Stmt::Local { names: m, values: y }) => names_eq(n, m)
            && exprs_eq(x, y),
        (Stmt::Assign { targets: n, values: x }, Stmt::Assign { targets: m, values: y }) => exprs_eq(n, m)
            && exprs_eq(x, y),
        (Stmt::Call(x), Stmt::Call(y)) => expr_eq(x, y),
        (Stmt::Return(x), Stmt::Return(y)) => exprs_eq(x, y),
        (Stmt::Break, Stmt::Break) => true,
        (Stmt::Continue, Stmt::Continue) => true,
        (
            Stmt::If { cond: c, then_body: t, else_body: e },
            Stmt::If { cond: d, then_body: u, else_body: f },
        ) => expr_eq(c, d) && block_eq(t, u) && block_eq(e, f),
        (Stmt::While { cond: c, body: t }, Stmt::While { cond: d, body: u }) => expr_eq(c, d)
            && block_eq(t, u),
        (Stmt::Repeat { body: t, cond: c }, Stmt::Repeat { body: u, cond: d }) => expr_eq(c, d)
            && block_eq(t, u),
        (
            Stmt::NumericFor { var: v, start: s, limit: l, step: p, body: t },
            Stmt::NumericFor { var: w, start: x, limit: m, step: q, body: u },
        ) => str_eq(v, w) && expr_eq(s, x) && expr_eq(l, m) && opt_expr_eq(p, q) && block_eq(t, u),
        (
            Stmt::GenericFor { vars: v, exprs: x, body: t },
            Stmt::GenericFor { vars: w, exprs: y, body: u },
        ) => names_eq(v, w) && exprs_eq(x, y) && block_eq(t, u),
        (Stmt::Label(x), Stmt::Label(y)) => str_eq(x, y),
        (Stmt::Goto(x), Stmt::Goto(y)) => str_eq(x, y),
        (Stmt::Comment(x), Stmt::Comment(y)) => str_eq(x, y),
        _ => false,
    }
}

/// Whether two lists hold the same items.
pub fn exprs_eq(a: &[Expr], b: &[Expr]) -> (r: bool)
    ensures
        r == (exprs(a@) == exprs(b@)),
    decreases a@,
{
    if a.len() != b.len() {
        assert(exprs(a@).len() != exprs(b@).len());
        return false;
    }
    let mut i: usize = 0;
    while i < a.len()
        invariant
            i <= a.len(),
            a.len() == b.len(),
            forall|j: int| 0 <= j < i ==> (#[trigger] a@[j])@ == b@[j]@,
        decreases a.len() - i,
    {
        if !expr_eq(&a[i], &b[i]) {
            assert(exprs(a@)[i as int] != exprs(b@)[i as int]);
            return false;
        }
        i += 1;
    }
    assert(exprs(a@) =~= exprs(b@));
    true
}

/// Whether two lists hold the same items.
pub fn fields_eq(a: &[TableField], b: &[TableField]) -> (r: bool)
    ensures
        r == (fields(a@) == fields(b@)),
    decreases a@,
{
    if a.len() != b.len() {
        assert(fields(a@).len() != fields(b@).len());
        return false;
    }
    let mut i: usize = 0;
    while i < a.len()
        invariant
            i <= a.len(),
            a.len() == b.len(),
            forall|j: int| 0 <= j < i ==> (#[trigger] a@[j])@ == b@[j]@,
        decreases a.len() - i,
    {
        if !field_eq(&a[i], &b[i]) {
            assert(fields(a@)[i as int] != fields(b@)[i as int]);
            return false;
        }
        i += 1;
    }
    assert(fields(a@) =~= fields(b@));
    true
}

/// Whether two lists hold the same items.
pub fn names_eq(a: &[String], b: &[String]) -> (r: bool)
    ensures
        r == (texts(a@) == texts(b@)),
    decreases a@,
{
    if a.len() != b.len() {
        assert(texts(a@).len() != texts(b@).len());
        return false;
    }
    let mut i: usize = 0;
    while i < a.len()
        invariant
            i <= a.len(),
            a.len() == b.len(),
            forall|j: int| 0 <= j < i ==> (#[trigger] a@[j])@ == b@[j]@,
        decreases a.len() - i,
    {
        if !name_eq(&a[i], &b[i]) {
            assert(texts(a@)[i as int] != texts(b@)[i as int]);
            return false;
        }
        i += 1;
    }
    assert(texts(a@) =~= texts(b@));
    true
}

/// Whether two lists hold the same items.
pub fn block_eq(a: &[Stmt], b: &[Stmt]) -> (r: bool)
    ensures
        r == (block(a@) == block(b@)),
    decreases a@,
{
    if a.len() != b.len() {
        assert(block(a@).len() != block(b@).len());
        return false;
    }
    let mut i: usize = 0;
    while i < a.len()
        invariant
            i <= a.len(),
            a.len() == b.len(),
            forall|j: int| 0 <= j < i ==> (#[trigger] a@[j])@ == b@[j]@,
        decreases a.len() - i,
    {
        if !stmt_eq(&a[i], &b[i]) {
            assert(block(a@)[i as int] != block(b@)[i as int]);
            return false;
        }
        i += 1;
    }
    assert(block(a@) =~= block(b@));
    true
}

/// The body of a loop statement.
pub fn loop_body(s: &Stmt) -> (r: Option<&Vec<Stmt>>)
    ensures
        r matches Some(b) ==> s@ is Loop && s@->Loop_body == block(b@) && decreases_to!(*s => b@),
        r is None ==> !(s@ is Loop),
{
    match s {
        Stmt::While { body, .. } => Some(body),
        Stmt::Repeat { body, .. } => Some(body),
        Stmt::NumericFor { body, .. } => Some(body),
        Stmt::GenericFor { body, .. } => Some(body),
        _ => None,
    }
}

/// The loop statement `s` with another body.
pub fn with_loop_body(s: &Stmt, new_body: Vec<Stmt>) -> (r: Stmt)
    requires
        s@ is Loop,
    ensures
        r@ == (StmtV::Loop { head: s@->head, body: block(new_body@) }),
{
    match s {
        Stmt::While { cond, .. } => Stmt::While { cond: cond.clone(), body: new_body },
        Stmt::Repeat { cond, .. } => Stmt::Repeat { cond: cond.clone(), body: new_body },
        Stmt::NumericFor { var, start, limit, step, .. } => Stmt::NumericFor {
            var: var.clone(),
            start: start.clone(),
            limit: limit.clone(),
            step: clone_opt_expr(step),
            body: new_body,
        },
        Stmt::GenericFor { vars, exprs: es, .. } => Stmt::GenericFor {
            vars: clone_names(vars),
            exprs: clone_exprs(es),
            body: new_body,
        },
        _ => s.clone(),
    }
}

/// The name, where `e` is a bare name.
pub fn as_var(e: &Expr) -> (r: Option<&String>)
    ensures
        match r {
            Some(n) => e@ == ExprV::Var(n@),
            None => !(e@ is Var),
        },
{
    match e {
        Expr::Var(n) => Some(n),
        _ => None,
    }
}

/// The value, where `e` is a boolean constant.
pub fn as_bool(e: &Expr) -> (r: Option<bool>)
    ensures
        match r {
            Some(v) => e@ == ExprV::Bool(v),
            None => !(e@ is Bool),
        },
{
    match e {
        Expr::Bool(v) => Some(*v),
        _ => None,
    }
}

/// Whether `s` is `goto label`.
pub fn is_goto_to(s: &Stmt, label: &str) -> (r: bool)
    ensures
        r == (s@ == StmtV::Goto(label@)),
{
    match s {
        Stmt::Goto(name) => str_eq(name, label),
        _ => false,
    }
}

/// Whether `s` is `::label::`.
pub fn is_label_of(s: &Stmt, label: &str) -> (r: bool)
    ensures
        r == (s@ == StmtV::Label(label@)),
{
    match s {
        Stmt::Label(name) => str_eq(name, label),
        _ => false,
    }
}

/// The statements `b[lo..hi]`, borrowed.
pub fn range(b: &[Stmt], lo: usize, hi: usize) -> (r: &[Stmt])
    requires
        lo <= hi <= b@.len(),
    ensures
        r@ == b@.subrange(lo as int, hi as int),
        block(r@) == block(b@).subrange(lo as int, hi as int),
{
    let r = vstd::slice::slice_subrange(b, lo, hi);
    assert(block(r@) =~= block(b@).subrange(lo as int, hi as int));
    r
}

/// A copy of the statements `b[lo..hi]`.
pub fn copy_range(b: &[Stmt], lo: usize, hi: usize) -> (r: Vec<Stmt>)
    requires
        lo <= hi <= b@.len(),
    ensures
        block(r@) == block(b@).subrange(lo as int, hi as int),
{
    clone_block(range(b, lo, hi))
}

/// `b` with its part from `lo` to `hi` replaced by `mid`.
pub open spec fn spec_splice(b: Block, lo: int, hi: int, mid: Block) -> Block {
    b.subrange(0, lo) + mid + b.subrange(hi, b.len() as int)
}

/// A copy of `b` with its part from `lo` to `hi` replaced by `mid`.
pub fn splice(b: &[Stmt], lo: usize, hi: usize, mid: Vec<Stmt>) -> (r: Vec<Stmt>)
    requires
        lo <= hi <= b@.len(),
    ensures
        block(r@) == spec_splice(block(b@), lo as int, hi as int, block(mid@)),
{
    let mut out = copy_range(b, 0, lo);
    let mut m = mid;
    let mut t = copy_range(b, hi, b.len());
    let ghost o0 = out@;
    let ghost t0 = t@;
    out.append(&mut m);
    out.append(&mut t);
    assert(out@ =~= o0 + mid@ + t0);
    assert(block(out@) =~= block(o0) + block(mid@) + block(t0));
    out
}

/// The statements of `a` followed by those of `b`.
pub fn concat(a: Vec<Stmt>, b: Vec<Stmt>) -> (r: Vec<Stmt>)
    ensures
        block(r@) == block(a@) + block(b@),
{
    let mut out = a;
    let mut t = b;
    out.append(&mut t);
    assert(block(out@) =~= block(a@) + block(b@));
    out
}

/// A block of one statement.
pub fn one(s: Stmt) -> (r: Vec<Stmt>)
    ensures
        block(r@) == seq![s@],
{
    let mut out: Vec<Stmt> = Vec::new();
    out.push(s);
    assert(block(out@) =~= seq![s@]);
    out
}

/// An empty block.
pub fn none() -> (r: Vec<Stmt>)
    ensures
        block(r@) == Seq::<StmtV>::empty(),
{
    let out: Vec<Stmt> = Vec::new();
    assert(block(out@) =~= Seq::<StmtV>::empty());
    out
}

/// `if cond then body end`
pub open spec fn spec_if(cond: ExprV, body: Block) -> StmtV {
    StmtV::If { cond, then_body: body, else_body: Seq::empty() }
}

/// `if cond then body end`
pub fn if_then(cond: Expr, body: Vec<Stmt>) -> (r: Stmt)
    ensures
        r@ == spec_if(cond@, block(body@)),
{
    Stmt::If { cond, then_body: body, else_body: none() }
}

/// `repeat body until true`
pub open spec fn spec_once(body: Block) -> StmtV {
    StmtV::Loop { head: LoopHead::Repeat(ExprV::Bool(true)), body }
}

/// `repeat body until true`: a block that `break` leaves.
pub fn repeat_once(body: Vec<Stmt>) -> (r: Stmt)
    ensures
        r@ == spec_once(block(body@)),
{
    Stmt::Repeat { body, cond: Expr::Bool(true) }
}

/// A list of one expression.
pub fn one_expr(e: Expr) -> (r: Vec<Expr>)
    ensures
        exprs(r@) == seq![e@],
{
    let mut out: Vec<Expr> = Vec::new();
    out.push(e);
    assert(exprs(out@) =~= seq![e@]);
    out
}

/// A list of one name.
pub fn one_name(n: String) -> (r: Vec<String>)
    ensures
        texts(r@) == seq![n@],
{
    let mut out: Vec<String> = Vec::new();
    out.push(n);
    assert(texts(out@) =~= seq![n@]);
    out
}

} // verus!
