//! Inlining values that are read once.
use vstd::prelude::*;

use crate::ast::{
    block, exprs, fields, loop_body, one, opt_block, range, spec_splice, splice, with_loop_body, Block, Expr, ExprV,
    FieldV, LoopHead, Stmt, StmtV, TableField,
};
use crate::jumps::{sole_assign, sole_var_assign};
use crate::liveness::{
    also_reads, names_read, replace_first_var, replaced, replaced_in, replaced_in_field, replaced_in_fields,
    stmt_replaced, with_reads,
};
use crate::names::{insert_all_members, NameSet};
use crate::naming::{all_pure, is_pure, pure, pure_all};
use crate::query::{
    any_goto, expr_reads, expr_reads_var, exprs_reads, field_reads, fields_reads, opt_index, own_reads, own_writes,
    reads_of, shallow_reads, shallow_reads_up_to, stmt_reads, stmt_reads_var, stmt_writes, stmt_writes_var,
    targets_reads, var_names, writes_one_of, writes_to, writes_to_any, AnyGoto, ReadsOf, WritesToAny,
};
use crate::text::{str_eq, Text};
use crate::weight::{count_stmt_up_to, count_up_to, deep, deep_stmt, deep_stmt_le, occurs_in_range, occurs_in_stmt};

verus! {

// ---- what a statement evaluates first ------------------------------------------------------------------

/// The variable that evaluating `e` reads first.
pub open spec fn expr_head(e: ExprV) -> Option<Text>
    decreases e,
{
    match e {
        ExprV::Var(n) => Some(n),
        ExprV::Field(t, _) => expr_head(*t),
        ExprV::Index(t, _) => expr_head(*t),
        ExprV::MethodCall(o, _, _) => expr_head(*o),
        ExprV::Call(f, _) => expr_head(*f),
        ExprV::Binary(_, a, _) => expr_head(*a),
        ExprV::Unary(_, a) => expr_head(*a),
        _ => None,
    }
}

/// The variable that evaluating the first of `es` reads first.
pub open spec fn first_head(es: Seq<ExprV>) -> Option<Text> {
    if es.len() > 0 {
        expr_head(es[0])
    } else {
        None
    }
}

/// The variable that `s` evaluates first, where it begins by reading one.
pub open spec fn stmt_head(s: StmtV) -> Option<Text> {
    match s {
        StmtV::Call(e) => expr_head(e),
        StmtV::Return(es) => first_head(es),
        StmtV::Local { values, .. } => first_head(values),
        StmtV::Assign { targets, values } => if targets.len() == 1 && targets[0] is Var {
            first_head(values)
        } else {
            None
        },
        StmtV::If { cond, .. } => expr_head(cond),
        _ => None,
    }
}

fn head_of_expr(e: &Expr) -> (r: Option<&String>)
    ensures
        match r {
            Some(n) => expr_head(e@) == Some(n@),
            None => expr_head(e@) is None,
        },
    decreases e,
{
    match e {
        Expr::Var(n) => Some(n),
        Expr::Field(t, _) => head_of_expr(t),
        Expr::Index(t, _) => head_of_expr(t),
        Expr::MethodCall(o, _, _) => head_of_expr(o),
        Expr::Call(f, _) => head_of_expr(f),
        Expr::Binary(_, a, _) => head_of_expr(a),
        Expr::Unary(_, a) => head_of_expr(a),
        _ => None,
    }
}

fn head_of_first(es: &Vec<Expr>) -> (r: Option<&String>)
    ensures
        match r {
            Some(n) => first_head(exprs(es@)) == Some(n@),
            None => first_head(exprs(es@)) is None,
        },
{
    assert(exprs(es@).len() == es@.len());
    if es.len() > 0 {
        assert(exprs(es@)[0] == es@[0]@);
        head_of_expr(&es[0])
    } else {
        None
    }
}

fn head_of_stmt(s: &Stmt) -> (r: Option<&String>)
    ensures
        match r {
            Some(n) => stmt_head(s@) == Some(n@),
            None => stmt_head(s@) is None,
        },
{
    match s {
        Stmt::Call(e) => head_of_expr(e),
        Stmt::Return(es) => head_of_first(es),
        Stmt::Local { values, .. } => head_of_first(values),
        Stmt::Assign { targets, values } => {
            assert(exprs(targets@).len() == targets@.len());
            if targets.len() == 1 {
                assert(exprs(targets@)[0] == targets@[0]@);
                if matches!(targets[0], Expr::Var(_)) {
                    return head_of_first(values);
                }
            }
            None
        },
        Stmt::If { cond, .. } => head_of_expr(cond),
        _ => None,
    }
}

// ---- what may stand between a definition and its use -----------------------------------------------------

/// Whether `s` steers control.
pub open spec fn control_flow(s: StmtV) -> bool {
    s is If || s is Loop || s is Label || s is Goto || s is Break || s is Continue
}

/// Whether `s` steers control.
pub fn is_control_flow(s: &Stmt) -> (r: bool)
    ensures
        r == control_flow(s@),
{
    matches!(
        s,
        Stmt::If { .. } | Stmt::While { .. } | Stmt::Repeat { .. } | Stmt::NumericFor { .. } | Stmt::GenericFor { .. }
            | Stmt::Label(_) | Stmt::Goto(_) | Stmt::Break | Stmt::Continue
    )
}

/// Whether `s` has an effect: a call, or a write through a table.
pub open spec fn effectful(s: StmtV) -> bool {
    match s {
        StmtV::Call(_) => true,
        StmtV::Assign { targets, values } => (exists|i: int|
            0 <= i < targets.len() && !(#[trigger] targets[i] is Var)) || !pure_all(values),
        StmtV::Local { values, .. } => !pure_all(values),
        StmtV::Return(es) => !pure_all(es),
        StmtV::If { .. } => true,
        StmtV::Loop { .. } => true,
        _ => false,
    }
}

fn stmt_effectful(s: &Stmt) -> (r: bool)
    ensures
        r == effectful(s@),
{
    match s {
        Stmt::Call(_) => true,
        Stmt::Assign { targets, values } => crate::flow::has_indexed_target(targets) || !all_pure(values),
        Stmt::Local { values, .. } => !all_pure(values),
        Stmt::Return(es) => !all_pure(es),
        Stmt::If { .. } | Stmt::While { .. } | Stmt::Repeat { .. } | Stmt::NumericFor { .. } | Stmt::GenericFor {
            ..
        } => true,
        _ => false,
    }
}

/// Whether `e` reads a field of a table.
pub open spec fn reads_table(e: ExprV) -> bool
    decreases e,
{
    match e {
        ExprV::Field(_, _) => true,
        ExprV::Index(_, _) => true,
        ExprV::Unary(_, a) => reads_table(*a),
        ExprV::Binary(_, a, b) => reads_table(*a) || reads_table(*b),
        ExprV::Call(f, args) => reads_table(*f) || some_reads_table(args),
        ExprV::MethodCall(o, _, args) => reads_table(*o) || some_reads_table(args),
        ExprV::Table(fs) => some_field_reads_table(fs),
        _ => false,
    }
}

pub open spec fn some_reads_table(es: Seq<ExprV>) -> bool
    decreases es,
{
    exists|i: int| 0 <= i < es.len() && reads_table(#[trigger] es[i])
}

pub open spec fn some_field_reads_table(fs: Seq<FieldV>) -> bool
    decreases fs,
{
    exists|i: int| 0 <= i < fs.len() && field_reads_table(#[trigger] fs[i])
}

pub open spec fn field_reads_table(f: FieldV) -> bool
    decreases f,
{
    match f {
        FieldV::Item(e) => reads_table(e),
        FieldV::Named(_, e) => reads_table(e),
        FieldV::Keyed(k, e) => reads_table(k) || reads_table(e),
    }
}

fn expr_reads_table(e: &Expr) -> (r: bool)
    ensures
        r == reads_table(e@),
    decreases e,
{
    match e {
        Expr::Field(_, _) => true,
        Expr::Index(_, _) => true,
        Expr::Unary(_, a) => expr_reads_table(a),
        Expr::Binary(_, a, b) => expr_reads_table(a) || expr_reads_table(b),
        Expr::Call(f, args) => expr_reads_table(f) || any_reads_table(args),
        Expr::MethodCall(o, _, args) => expr_reads_table(o) || any_reads_table(args),
        Expr::Table(fs) => any_field_reads_table(fs),
        _ => false,
    }
}

fn any_reads_table(es: &[Expr]) -> (r: bool)
    ensures
        r == some_reads_table(exprs(es@)),
    decreases es@,
{
    let ghost v = exprs(es@);
    let mut i: usize = 0;
    while i < es.len()
        invariant
            i <= es.len(),
            v == exprs(es@),
            forall|j: int| 0 <= j < i ==> !reads_table(#[trigger] v[j]),
        decreases es.len() - i,
    {
        assert(v[i as int] == es@[i as int]@);
        if expr_reads_table(&es[i]) {
            return true;
        }
        i += 1;
    }
    false
}

fn any_field_reads_table(fs: &[TableField]) -> (r: bool)
    ensures
        r == some_field_reads_table(fields(fs@)),
    decreases fs@,
{
    let ghost v = fields(fs@);
    let mut i: usize = 0;
    while i < fs.len()
        invariant
            i <= fs.len(),
            v == fields(fs@),
            forall|j: int| 0 <= j < i ==> !field_reads_table(#[trigger] v[j]),
        decreases fs.len() - i,
    {
        assert(v[i as int] == fs@[i as int]@);
        if one_field_reads_table(&fs[i]) {
            return true;
        }
        i += 1;
    }
    false
}

fn one_field_reads_table(f: &TableField) -> (r: bool)
    ensures
        r == field_reads_table(f@),
    decreases f,
{
    match f {
        TableField::Item(e) => expr_reads_table(e),
        TableField::Named(_, e) => expr_reads_table(e),
        TableField::Keyed(k, e) => expr_reads_table(k) || expr_reads_table(e),
    }
}

/// The variables that `e` reads, in ascending order.
pub open spec fn read_set(e: ExprV) -> Seq<Text> {
    also_reads(Seq::empty(), e)
}

/// Whether `e` gives the same value, and has the same effect, before and after `s`.
pub open spec fn passes(s: StmtV, e: ExprV) -> bool {
    &&& !control_flow(s)
    &&& deep_stmt(writes_to_any(read_set(e)), s) == 0
    &&& (reads_table(e) || !pure(e)) ==> !effectful(s)
}

/// Whether `e` gives the same value, and has the same effect, before and after `between`.
pub open spec fn passes_all(between: Block, e: ExprV) -> bool {
    forall|k: int| 0 <= k < between.len() ==> passes(#[trigger] between[k], e)
}

fn can_pass(between: &[Stmt], e: &Expr) -> (r: bool)
    ensures
        r == passes_all(block(between@), e@),
{
    let ghost v = block(between@);
    let nothing = NameSet::new();
    let reads = with_reads(&nothing, e);
    let careful = expr_reads_table(e) || !is_pure(e);
    let mut k: usize = 0;
    while k < between.len()
        invariant
            k <= between.len(),
            v == block(between@),
            reads@ == read_set(e@),
            careful == (reads_table(e@) || !pure(e@)),
            forall|j: int| 0 <= j < k ==> passes(#[trigger] v[j], e@),
        decreases between.len() - k,
    {
        assert(v[k as int] == between@[k as int]@);
        let s = &between[k];
        if is_control_flow(s) || occurs_in_stmt(&WritesToAny { names: &reads }, s) || (careful && stmt_effectful(s)) {
            assert(!passes(v[k as int], e@));
            return false;
        }
        k += 1;
    }
    true
}

/// Whether copying `e` costs nothing.
pub open spec fn leaf(e: ExprV) -> bool {
    e is Nil || e is Bool || e is Num || e is Str || e is Vector || e is Var || e is Vararg
}

fn is_duplicable_leaf(e: &Expr) -> (r: bool)
    ensures
        r == leaf(e@),
{
    matches!(
        e,
        Expr::Nil | Expr::Bool(_) | Expr::Num(_) | Expr::Str(_) | Expr::Vector(_) | Expr::Var(_) | Expr::Vararg
    )
}

// ---- one inlining ----------------------------------------------------------------------------------------

/// The first position from `k` on whose statement writes `n`, or the length.
pub open spec fn next_write(b: Block, k: int, n: Text) -> int
    decreases b.len() - k,
{
    if k < 0 || k >= b.len() || stmt_writes(b[k], n) {
        k
    } else {
        next_write(b, k + 1, n)
    }
}

pub proof fn next_write_bounds(b: Block, k: int, n: Text)
    requires
        0 <= k <= b.len(),
    ensures
        k <= next_write(b, k, n) <= b.len(),
        forall|j: int| k <= j < next_write(b, k, n) ==> !stmt_writes(#[trigger] b[j], n),
    decreases b.len() - k,
{
    if k < b.len() && !stmt_writes(b[k], n) {
        next_write_bounds(b, k + 1, n);
    }
}

fn position_of_write(b: &[Stmt], from: usize, n: &str) -> (r: usize)
    requires
        from <= b.len(),
    ensures
        r == next_write(block(b@), from as int, n@),
        from <= r <= b.len(),
{
    let mut k: usize = from;
    while k < b.len()
        invariant
            from <= k <= b.len(),
            next_write(block(b@), from as int, n@) == next_write(block(b@), k as int, n@),
        decreases b.len() - k,
    {
        if stmt_writes_var(&b[k], n) {
            return k;
        }
        k += 1;
    }
    k
}

/// The first position from `k` on, before `end`, whose statement reads `n`.
pub open spec fn next_read(b: Block, k: int, end: int, n: Text) -> Option<int>
    decreases end - k,
{
    if k < 0 || k >= end {
        None
    } else if stmt_reads(b[k], n) {
        Some(k)
    } else {
        next_read(b, k + 1, end, n)
    }
}

pub proof fn next_read_bounds(b: Block, k: int, end: int, n: Text)
    requires
        0 <= k,
    ensures
        next_read(b, k, end, n) matches Some(j) ==> k <= j < end,
    decreases end - k,
{
    if k < end && !stmt_reads(b[k], n) {
        next_read_bounds(b, k + 1, end, n);
    }
}

fn position_of_read(b: &[Stmt], from: usize, end: usize, n: &str) -> (r: Option<usize>)
    requires
        from <= end <= b.len(),
    ensures
        opt_index(r) == next_read(block(b@), from as int, end as int, n@),
        r matches Some(j) ==> from <= j < end,
{
    let mut k: usize = from;
    while k < end
        invariant
            from <= k <= end <= b.len(),
            next_read(block(b@), from as int, end as int, n@) == next_read(block(b@), k as int, end as int, n@),
        decreases end - k,
    {
        if stmt_reads_var(&b[k], n) {
            return Some(k);
        }
        k += 1;
    }
    None
}

/// Reads of `n` in the targets of the assignment `s`.
pub open spec fn reads_in_targets(s: StmtV, n: Text) -> bool {
    s matches StmtV::Assign { targets, .. } && targets_reads(targets, n) > 0
}

pub fn stmt_reads_var_in_assignment_target(s: &Stmt, n: &str) -> (r: bool)
    ensures
        r == reads_in_targets(s@, n@),
{
    match s {
        Stmt::Assign { targets, .. } => crate::query::targets_reads_up_to(targets, n, 1) == 1,
        _ => false,
    }
}

/// Whether the value `v` of `n`, defined at `i`, may be evaluated by the statement at `j` instead.
pub open spec fn may_move(b: Block, i: int, j: int, n: Text, v: ExprV) -> bool {
    &&& expr_reads(v, n) == 0
    &&& shallow_reads(b[j], n) > 0
    &&& deep(any_goto(), b.subrange(0, i)) == 0
    &&& passes_all(b.subrange(i + 1, j), v)
    &&& pure(v) || stmt_head(b[j]) == Some(n)
    &&& !reads_in_targets(b[j], n)
}

/// Whether `n`, defined at `i` and next written at `nd`, is read only once in between.
pub open spec fn read_once(b: Block, i: int, nd: int, n: Text) -> bool {
    deep(reads_of(n), b.subrange(i + 1, nd)) == 1 && !(nd < b.len() && stmt_reads(b[nd], n))
}

/// `b` with the definition at `i` inlined into the first statement that reads it: the definition
/// goes if there is no other read, and stays if its value can be copied for nothing.
pub open spec fn inlined_at(b: Block, i: int, protected: Seq<Text>) -> Option<Block> {
    match sole_assign(b[i]) {
        None => None,
        Some((n, v)) => {
            let nd = next_write(b, i + 1, n);
            match next_read(b, i + 1, nd, n) {
                None => None,
                Some(j) => if protected.contains(n) || !may_move(b, i, j, n, v) {
                    None
                } else {
                    let c = b.update(j, stmt_replaced(b[j], n, v));
                    if read_once(b, i, nd, n) {
                        Some(spec_splice(c, i, i + 1, Seq::empty()))
                    } else if leaf(v) && deep_stmt(reads_of(n), b[j]) == 1 && shallow_reads(b[j], n) == 1 {
                        Some(c)
                    } else {
                        None
                    }
                },
            }
        },
    }
}

/// One inlining at the first position from `i` on where there is one.
pub open spec fn inlined_from(b: Block, i: int, protected: Seq<Text>) -> Option<Block>
    decreases b.len() - i,
{
    if i < 0 || i >= b.len() {
        None
    } else {
        match inlined_at(b, i, protected) {
            Some(c) => Some(c),
            None => inlined_from(b, i + 1, protected),
        }
    }
}

fn with_stmt(b: &Vec<Stmt>, j: usize, s: Stmt) -> (r: Vec<Stmt>)
    requires
        j < b.len(),
    ensures
        block(r@) == block(b@).update(j as int, s@),
{
    let r = splice(b, j, j + 1, one(s));
    assert(block(r@) =~= block(b@).update(j as int, s@));
    r
}

fn value_may_move(b: &Vec<Stmt>, i: usize, j: usize, n: &str, v: &Expr) -> (r: bool)
    requires
        i < j < b.len(),
    ensures
        r == may_move(block(b@), i as int, j as int, n@, v@),
{
    if expr_reads_var(v, n) || shallow_reads_up_to(&b[j], n, 1) == 0 || occurs_in_range(&AnyGoto, b, 0, i) {
        return false;
    }
    if !can_pass(range(b, i + 1, j), v) || stmt_reads_var_in_assignment_target(&b[j], n) {
        return false;
    }
    if is_pure(v) {
        return true;
    }
    match head_of_stmt(&b[j]) {
        Some(m) => str_eq(m, n),
        None => false,
    }
}

fn is_read_once(b: &Vec<Stmt>, i: usize, nd: usize, n: &str) -> (r: bool)
    requires
        i < nd <= b.len(),
    ensures
        r == read_once(block(b@), i as int, nd as int, n@),
{
    let m = ReadsOf { name: n };
    count_up_to(&m, range(b, i + 1, nd), 2) == 1 && !(nd < b.len() && stmt_reads_var(&b[nd], n))
}

fn try_inline_at(b: &Vec<Stmt>, i: usize, protected: &NameSet) -> (r: Option<Vec<Stmt>>)
    requires
        i < b.len(),
    ensures
        opt_block(r) == inlined_at(block(b@), i as int, protected@),
{
    match sole_var_assign(&b[i]) {
        None => None,
        Some((n, v)) => {
            let nd: usize = position_of_write(b, i + 1, n);
            match position_of_read(b, i + 1, nd, n) {
                None => None,
                Some(j) => {
                    if protected.contains(n) || !value_may_move(b, i, j, n, v) {
                        return None;
                    }
                    let c = with_stmt(b, j, replace_first_var(&b[j], n, v));
                    assert(block(c@).len() == c@.len());
                    if is_read_once(b, i, nd, n) {
                        Some(splice(&c, i, i + 1, crate::ast::none()))
                    } else if is_duplicable_leaf(v) && count_stmt_up_to(&ReadsOf { name: n }, &b[j], 2) == 1
                        && shallow_reads_up_to(&b[j], n, 2) == 1 {
                        Some(c)
                    } else {
                        None
                    }
                },
            }
        },
    }
}

/// Makes one inlining, at the first position where there is one.
pub fn flat_inline_once(b: &mut Vec<Stmt>, protected: &NameSet) -> (r: bool)
    ensures
        r == (inlined_from(block(old(b)@), 0, protected@) is Some),
        block(final(b)@) == match inlined_from(block(old(b)@), 0, protected@) {
            Some(c) => c,
            None => block(old(b)@),
        },
{
    let mut i: usize = 0;
    while i < b.len()
        invariant
            i <= b.len(),
            *b == *old(b),
            inlined_from(block(b@), 0, protected@) == inlined_from(block(b@), i as int, protected@),
        decreases b.len() - i,
    {
        match try_inline_at(b, i, protected) {
            Some(c) => {
                *b = c;
                return true;
            },
            None => {},
        }
        i += 1;
    }
    false
}

/// Whether `c` is `b` with the definition at `i` inlined into the statement at `j`: the value goes
/// where the name was first read, and the definition is gone, or stays if its value can be copied
/// for nothing. Nothing in between reads or writes the name, or changes the value; and where the
/// definition is gone, nothing behind it reads the name before it is written again.
pub open spec fn inlines(b: Block, c: Block, i: int, j: int, protected: Seq<Text>) -> bool {
    &&& 0 <= i < j < b.len()
    &&& sole_assign(b[i]) matches Some((n, v)) && {
        let d = b.update(j, stmt_replaced(b[j], n, v));
        &&& !protected.contains(n)
        &&& expr_reads(v, n) == 0
        &&& shallow_reads(b[j], n) > 0
        &&& pure(v) || stmt_head(b[j]) == Some(n)
        &&& forall|k: int|
            i < k < j ==> passes(#[trigger] b[k], v) && !stmt_reads(b[k], n) && !stmt_writes(b[k], n)
        &&& (c == d.remove(i) && needless(c, i, n)) || (leaf(v) && c == d)
    }
}

/// Whether, in `c` from `i` on, nothing reads `n` before it is written.
pub open spec fn needless(c: Block, i: int, n: Text) -> bool {
    let nd = next_write(c, i, n);
    &&& forall|k: int| i <= k < nd ==> !stmt_reads(#[trigger] c[k], n)
    &&& nd < c.len() ==> !stmt_reads(c[nd], n)
}

proof fn next_write_is(c: Block, i: int, x: int, n: Text)
    requires
        0 <= i <= x <= c.len(),
        forall|k: int| i <= k < x ==> !stmt_writes(#[trigger] c[k], n),
        x < c.len() ==> stmt_writes(c[x], n),
    ensures
        next_write(c, i, n) == x,
    decreases x - i,
{
    if i < x {
        assert(!stmt_writes(c[i], n));
        next_write_is(c, i + 1, x, n);
    }
}

/// Replacing a read takes one read away.
proof fn replaced_reads(e: ExprV, n: Text, v: ExprV)
    requires
        expr_reads(v, n) == 0,
        expr_reads(e, n) > 0,
    ensures
        expr_reads(replaced(e, n, v), n) + 1 == expr_reads(e, n),
    decreases e,
{
    match e {
        ExprV::Index(t, k) => {
            if expr_reads(*t, n) > 0 {
                replaced_reads(*t, n, v);
            } else {
                replaced_reads(*k, n, v);
            }
        },
        ExprV::Field(t, _) => {
            replaced_reads(*t, n, v);
        },
        ExprV::Call(f, args) => {
            if expr_reads(*f, n) > 0 {
                replaced_reads(*f, n, v);
            } else {
                replaced_in_reads(args, n, v);
            }
        },
        ExprV::MethodCall(o, _, args) => {
            if expr_reads(*o, n) > 0 {
                replaced_reads(*o, n, v);
            } else {
                replaced_in_reads(args, n, v);
            }
        },
        ExprV::Unary(_, a) => {
            replaced_reads(*a, n, v);
        },
        ExprV::Binary(_, a, b) => {
            if expr_reads(*a, n) > 0 {
                replaced_reads(*a, n, v);
            } else {
                replaced_reads(*b, n, v);
            }
        },
        ExprV::Table(fs) => {
            replaced_in_fields_reads(fs, n, v);
        },
        _ => {},
    }
}

proof fn replaced_in_reads(es: Seq<ExprV>, n: Text, v: ExprV)
    requires
        expr_reads(v, n) == 0,
        exprs_reads(es, n) > 0,
    ensures
        exprs_reads(replaced_in(es, n, v), n) + 1 == exprs_reads(es, n),
    decreases es,
{
    let r = replaced_in(es, n, v);
    if exprs_reads(es.drop_last(), n) > 0 {
        replaced_in_reads(es.drop_last(), n, v);
        assert(r.drop_last() =~= replaced_in(es.drop_last(), n, v));
    } else {
        replaced_reads(es.last(), n, v);
        assert(r.drop_last() =~= es.drop_last());
    }
}

proof fn replaced_in_fields_reads(fs: Seq<FieldV>, n: Text, v: ExprV)
    requires
        expr_reads(v, n) == 0,
        fields_reads(fs, n) > 0,
    ensures
        fields_reads(replaced_in_fields(fs, n, v), n) + 1 == fields_reads(fs, n),
    decreases fs,
{
    let r = replaced_in_fields(fs, n, v);
    if fields_reads(fs.drop_last(), n) > 0 {
        replaced_in_fields_reads(fs.drop_last(), n, v);
        assert(r.drop_last() =~= replaced_in_fields(fs.drop_last(), n, v));
    } else {
        assert(r.drop_last() =~= fs.drop_last());
        assert(r.last() == replaced_in_field(fs.last(), n, v));
        assert(field_reads(fs.last(), n) > 0);
        match fs.last() {
            FieldV::Item(e) => {
                replaced_reads(e, n, v);
            },
            FieldV::Named(_, e) => {
                replaced_reads(e, n, v);
            },
            FieldV::Keyed(k, e) => {
                if expr_reads(k, n) > 0 {
                    replaced_reads(k, n, v);
                } else {
                    replaced_reads(e, n, v);
                }
            },
        }
        assert(field_reads(r.last(), n) + 1 == field_reads(fs.last(), n));
    }
}

/// Replacing a read of a statement takes one read away.
proof fn stmt_replaced_reads(s: StmtV, n: Text, v: ExprV)
    requires
        expr_reads(v, n) == 0,
        shallow_reads(s, n) > 0,
        !reads_in_targets(s, n),
    ensures
        deep_stmt(reads_of(n), stmt_replaced(s, n, v)) + 1 == deep_stmt(reads_of(n), s),
{
    let t = stmt_replaced(s, n, v);
    match s {
        StmtV::Local { values, .. } => {
            replaced_in_reads(values, n, v);
        },
        StmtV::Assign { values, .. } => {
            replaced_in_reads(values, n, v);
        },
        StmtV::Call(e) => {
            replaced_reads(e, n, v);
        },
        StmtV::Return(es) => {
            replaced_in_reads(es, n, v);
        },
        StmtV::If { cond, .. } => {
            replaced_reads(cond, n, v);
        },
        StmtV::Loop { head: LoopHead::Numeric { start, limit, step, .. }, .. } => {
            if expr_reads(start, n) > 0 {
                replaced_reads(start, n, v);
            } else if expr_reads(limit, n) > 0 {
                replaced_reads(limit, n, v);
            } else if let Some(e) = step {
                replaced_reads(e, n, v);
            }
        },
        StmtV::Loop { head: LoopHead::Generic { exprs, .. }, .. } => {
            replaced_in_reads(exprs, n, v);
        },
        _ => {},
    }
    assert(own_reads(t, n) + 1 == own_reads(s, n));
}

/// Where a name is read once between its definition and its next write, and that read is replaced,
/// the definition is needed no more.
proof fn read_once_needless(b: Block, i: int, j: int, n: Text, v: ExprV)
    requires
        0 <= i < j < next_write(b, i + 1, n) <= b.len(),
        read_once(b, i, next_write(b, i + 1, n), n),
        expr_reads(v, n) == 0,
        shallow_reads(b[j], n) > 0,
        !reads_in_targets(b[j], n),
    ensures
        needless(b.update(j, stmt_replaced(b[j], n, v)).remove(i), i, n),
{
    let w = reads_of(n);
    let nd = next_write(b, i + 1, n);
    let s = stmt_replaced(b[j], n, v);
    let c = b.update(j, s).remove(i);
    next_write_bounds(b, i + 1, n);
    stmt_replaced_reads(b[j], n, v);
    stmt_replaced_writes(b[j], n, v, n);
    crate::weight::deep_range(w, b, i + 1, j, nd);
    crate::weight::deep_range(w, b, j, j + 1, nd);
    crate::weight::deep_range_one(w, b, j);
    assert forall|k: int| i <= k < nd - 1 implies !stmt_writes(#[trigger] c[k], n) by {
        if k + 1 == j {
            assert(c[k] == s);
        } else {
            assert(c[k] == b[k + 1]);
        }
        assert(!stmt_writes(b[k + 1], n));
    }
    if nd < b.len() {
        assert(c[nd - 1] == b[nd]);
        next_write_found(b, i + 1, n);
    }
    next_write_is(c, i, nd - 1, n);
    assert forall|k: int| i <= k < nd - 1 implies !stmt_reads(#[trigger] c[k], n) by {
        if k + 1 == j {
            assert(c[k] == s);
        } else if k + 1 < j {
            assert(c[k] == b[k + 1]);
            assert(b.subrange(i + 1, j)[k - i] == b[k + 1]);
            crate::weight::deep_member(w, b.subrange(i + 1, j), k - i);
        } else {
            assert(c[k] == b[k + 1]);
            assert(b.subrange(j + 1, nd)[k - j] == b[k + 1]);
            crate::weight::deep_member(w, b.subrange(j + 1, nd), k - j);
        }
    }
}

proof fn next_write_found(b: Block, k: int, n: Text)
    requires
        0 <= k <= b.len(),
        next_write(b, k, n) < b.len(),
    ensures
        stmt_writes(b[next_write(b, k, n)], n),
    decreases b.len() - k,
{
    if k < b.len() && !stmt_writes(b[k], n) {
        next_write_found(b, k + 1, n);
    }
}

proof fn next_read_first(b: Block, k: int, end: int, n: Text)
    requires
        0 <= k,
    ensures
        next_read(b, k, end, n) matches Some(j) ==> forall|x: int| k <= x < j ==> !stmt_reads(#[trigger] b[x], n),
    decreases end - k,
{
    if k < end && !stmt_reads(b[k], n) {
        next_read_first(b, k + 1, end, n);
    }
}

proof fn inlined_from_inlines(b: Block, k: int, protected: Seq<Text>)
    requires
        0 <= k,
    ensures
        match inlined_from(b, k, protected) {
            Some(c) => exists|i: int, j: int| #[trigger] inlines(b, c, i, j, protected),
            None => forall|i: int| k <= i < b.len() ==> (#[trigger] inlined_at(b, i, protected)) is None,
        },
    decreases b.len() - k,
{
    if k < b.len() {
        match inlined_at(b, k, protected) {
            Some(c) => {
                let (n, v) = sole_assign(b[k])->Some_0;
                let nd = next_write(b, k + 1, n);
                next_write_bounds(b, k + 1, n);
                next_read_bounds(b, k + 1, nd, n);
                next_read_first(b, k + 1, nd, n);
                let j = next_read(b, k + 1, nd, n)->Some_0;
                let d = b.update(j, stmt_replaced(b[j], n, v));
                let between = b.subrange(k + 1, j);
                assert forall|x: int| k < x < j implies passes(#[trigger] b[x], v) && !stmt_reads(b[x], n)
                    && !stmt_writes(b[x], n) by {
                    assert(between[x - k - 1] == b[x]);
                }
                assert(spec_splice(d, k, k + 1, Seq::empty()) =~= d.remove(k));
                if read_once(b, k, nd, n) {
                    read_once_needless(b, k, j, n, v);
                }
                assert(inlines(b, c, k, j, protected));
            },
            None => {
                inlined_from_inlines(b, k + 1, protected);
            },
        }
    }
}

/// One step of inlining changes one statement: it puts the value of an unprotected name where the
/// name is read next, and removes the definition or leaves it. Where there is no such step, no
/// definition of the block can be inlined.
pub proof fn one_inlining(b: Block, protected: Seq<Text>)
    ensures
        match inlined_from(b, 0, protected) {
            Some(c) => exists|i: int, j: int| #[trigger] inlines(b, c, i, j, protected),
            None => forall|i: int| 0 <= i < b.len() ==> (#[trigger] inlined_at(b, i, protected)) is None,
        },
{
    inlined_from_inlines(b, 0, protected);
}

// ---- inlining comes to an end ------------------------------------------------------------------------------

/// The sum of `f` over the variables that `e` reads.
pub open spec fn weighed(e: ExprV, f: spec_fn(Text) -> nat) -> nat
    decreases e,
{
    match e {
        ExprV::Var(m) => if m.contains('.') {
            0
        } else {
            f(m)
        },
        ExprV::Index(t, k) => weighed(*t, f) + weighed(*k, f),
        ExprV::Field(t, _) => weighed(*t, f),
        ExprV::Call(g, args) => weighed(*g, f) + weighed_all(args, f),
        ExprV::MethodCall(o, _, args) => weighed(*o, f) + weighed_all(args, f),
        ExprV::Unary(_, a) => weighed(*a, f),
        ExprV::Binary(_, a, b) => weighed(*a, f) + weighed(*b, f),
        ExprV::Table(fs) => weighed_fields(fs, f),
        _ => 0,
    }
}

pub open spec fn weighed_all(es: Seq<ExprV>, f: spec_fn(Text) -> nat) -> nat
    decreases es,
{
    if es.len() == 0 {
        0
    } else {
        weighed_all(es.drop_last(), f) + weighed(es.last(), f)
    }
}

pub open spec fn weighed_fields(fs: Seq<FieldV>, f: spec_fn(Text) -> nat) -> nat
    decreases fs,
{
    if fs.len() == 0 {
        0
    } else {
        weighed_fields(fs.drop_last(), f) + weighed_field(fs.last(), f)
    }
}

pub open spec fn weighed_field(x: FieldV, f: spec_fn(Text) -> nat) -> nat
    decreases x,
{
    match x {
        FieldV::Item(e) => weighed(e, f),
        FieldV::Named(_, e) => weighed(e, f),
        FieldV::Keyed(k, e) => weighed(k, f) + weighed(e, f),
    }
}

/// The sum of `f` over the variables that `s` itself reads.
pub open spec fn stmt_weighed(s: StmtV, f: spec_fn(Text) -> nat) -> nat {
    match s {
        StmtV::Local { values, .. } => weighed_all(values, f),
        StmtV::Assign { values, .. } => weighed_all(values, f),
        StmtV::Call(e) => weighed(e, f),
        StmtV::Return(es) => weighed_all(es, f),
        StmtV::If { cond, .. } => weighed(cond, f),
        StmtV::Loop { head: LoopHead::Numeric { start, limit, step, .. }, .. } => weighed(start, f) + weighed(
            limit,
            f,
        ) + match step {
            Some(e) => weighed(e, f),
            None => 0,
        },
        StmtV::Loop { head: LoopHead::Generic { exprs, .. }, .. } => weighed_all(exprs, f),
        _ => 0,
    }
}

proof fn replaced_weighed(e: ExprV, n: Text, v: ExprV, f: spec_fn(Text) -> nat)
    requires
        expr_reads(e, n) > 0,
    ensures
        weighed(replaced(e, n, v), f) + f(n) == weighed(e, f) + weighed(v, f),
    decreases e,
{
    match e {
        ExprV::Index(t, k) => {
            if expr_reads(*t, n) > 0 {
                replaced_weighed(*t, n, v, f);
            } else {
                replaced_weighed(*k, n, v, f);
            }
        },
        ExprV::Field(t, _) => {
            replaced_weighed(*t, n, v, f);
        },
        ExprV::Call(g, args) => {
            if expr_reads(*g, n) > 0 {
                replaced_weighed(*g, n, v, f);
            } else {
                replaced_in_weighed(args, n, v, f);
            }
        },
        ExprV::MethodCall(o, _, args) => {
            if expr_reads(*o, n) > 0 {
                replaced_weighed(*o, n, v, f);
            } else {
                replaced_in_weighed(args, n, v, f);
            }
        },
        ExprV::Unary(_, a) => {
            replaced_weighed(*a, n, v, f);
        },
        ExprV::Binary(_, a, b) => {
            if expr_reads(*a, n) > 0 {
                replaced_weighed(*a, n, v, f);
            } else {
                replaced_weighed(*b, n, v, f);
            }
        },
        ExprV::Table(fs) => {
            replaced_in_fields_weighed(fs, n, v, f);
        },
        _ => {},
    }
}

proof fn replaced_in_weighed(es: Seq<ExprV>, n: Text, v: ExprV, f: spec_fn(Text) -> nat)
    requires
        exprs_reads(es, n) > 0,
    ensures
        weighed_all(replaced_in(es, n, v), f) + f(n) == weighed_all(es, f) + weighed(v, f),
    decreases es,
{
    let r = replaced_in(es, n, v);
    if exprs_reads(es.drop_last(), n) > 0 {
        replaced_in_weighed(es.drop_last(), n, v, f);
        assert(r.drop_last() =~= replaced_in(es.drop_last(), n, v));
        assert(r.last() == es.last());
    } else {
        replaced_weighed(es.last(), n, v, f);
        assert(r.drop_last() =~= es.drop_last());
    }
}

proof fn replaced_in_fields_weighed(fs: Seq<FieldV>, n: Text, v: ExprV, f: spec_fn(Text) -> nat)
    requires
        fields_reads(fs, n) > 0,
    ensures
        weighed_fields(replaced_in_fields(fs, n, v), f) + f(n) == weighed_fields(fs, f) + weighed(v, f),
    decreases fs,
{
    let r = replaced_in_fields(fs, n, v);
    if fields_reads(fs.drop_last(), n) > 0 {
        replaced_in_fields_weighed(fs.drop_last(), n, v, f);
        assert(r.drop_last() =~= replaced_in_fields(fs.drop_last(), n, v));
        assert(r.last() == fs.last());
    } else {
        assert(r.drop_last() =~= fs.drop_last());
        assert(r.last() == replaced_in_field(fs.last(), n, v));
        replaced_in_field_weighed(fs.last(), n, v, f);
    }
}

proof fn replaced_in_field_weighed(x: FieldV, n: Text, v: ExprV, f: spec_fn(Text) -> nat)
    requires
        field_reads(x, n) > 0,
    ensures
        weighed_field(replaced_in_field(x, n, v), f) + f(n) == weighed_field(x, f) + weighed(v, f),
    decreases x,
{
    match x {
        FieldV::Item(e) => {
            replaced_weighed(e, n, v, f);
        },
        FieldV::Named(_, e) => {
            replaced_weighed(e, n, v, f);
        },
        FieldV::Keyed(k, e) => {
            if expr_reads(k, n) > 0 {
                replaced_weighed(k, n, v, f);
            } else {
                replaced_weighed(e, n, v, f);
            }
        },
    }
}

proof fn stmt_replaced_weighed(s: StmtV, n: Text, v: ExprV, f: spec_fn(Text) -> nat)
    requires
        shallow_reads(s, n) > 0,
        !reads_in_targets(s, n),
    ensures
        stmt_weighed(stmt_replaced(s, n, v), f) + f(n) == stmt_weighed(s, f) + weighed(v, f),
{
    match s {
        StmtV::Local { values, .. } => {
            replaced_in_weighed(values, n, v, f);
        },
        StmtV::Assign { values, .. } => {
            replaced_in_weighed(values, n, v, f);
        },
        StmtV::Call(e) => {
            replaced_weighed(e, n, v, f);
        },
        StmtV::Return(es) => {
            replaced_in_weighed(es, n, v, f);
        },
        StmtV::If { cond, .. } => {
            replaced_weighed(cond, n, v, f);
        },
        StmtV::Loop { head: LoopHead::Numeric { start, limit, step, .. }, .. } => {
            if expr_reads(start, n) > 0 {
                replaced_weighed(start, n, v, f);
            } else if expr_reads(limit, n) > 0 {
                replaced_weighed(limit, n, v, f);
            } else if let Some(e) = step {
                replaced_weighed(e, n, v, f);
            }
        },
        StmtV::Loop { head: LoopHead::Generic { exprs, .. }, .. } => {
            replaced_in_weighed(exprs, n, v, f);
        },
        _ => {},
    }
}

/// Replacing a read changes nothing in what a statement writes.
pub proof fn stmt_replaced_writes(s: StmtV, n: Text, v: ExprV, m: Text)
    ensures
        stmt_writes(stmt_replaced(s, n, v), m) == stmt_writes(s, m),
{
    let w = writes_to(m);
    let t = stmt_replaced(s, n, v);
    assert(own_writes(t) == own_writes(s));
    assert(w(t) == w(s));
}

/// The position of the last statement before `j` that writes `m`, or -1.
pub open spec fn reach(b: Block, j: int, m: Text) -> int
    decreases j,
{
    if j <= 0 {
        -1
    } else if stmt_writes(b[j - 1], m) {
        j - 1
    } else {
        reach(b, j - 1, m)
    }
}

/// How far down the definition that reaches `j` stands.
pub open spec fn reach_weight(b: Block, j: int) -> spec_fn(Text) -> nat {
    |m: Text| (reach(b, j, m) + 2) as nat
}

proof fn reach_bounds(b: Block, j: int, m: Text)
    requires
        0 <= j,
    ensures
        -1 <= reach(b, j, m) < j,
    decreases j,
{
    if j > 0 && !stmt_writes(b[j - 1], m) {
        reach_bounds(b, j - 1, m);
    }
}

/// Statements that do not write `m` do not change what reaches.
proof fn reach_skips(b: Block, i: int, j: int, m: Text)
    requires
        0 <= i <= j,
        forall|k: int| i <= k < j ==> !stmt_writes(#[trigger] b[k], m),
    ensures
        reach(b, j, m) == reach(b, i, m),
    decreases j,
{
    if i < j {
        reach_skips(b, i, j - 1, m);
    }
}

/// How far down the definitions stand that the first `k` statements read.
pub open spec fn pending(b: Block, k: int) -> nat
    decreases k,
{
    if k <= 0 {
        0
    } else {
        pending(b, k - 1) + stmt_weighed(b[k - 1], reach_weight(b, k - 1))
    }
}

proof fn reach_same(b: Block, c: Block, j: int, m: Text)
    requires
        b.len() == c.len(),
        0 <= j <= b.len(),
        forall|k: int| 0 <= k < b.len() ==> stmt_writes(#[trigger] c[k], m) == stmt_writes(b[k], m),
    ensures
        reach(c, j, m) == reach(b, j, m),
    decreases j,
{
    if j > 0 {
        assert(stmt_writes(c[j - 1], m) == stmt_writes(b[j - 1], m));
        reach_same(b, c, j - 1, m);
    }
}

proof fn pending_update(b: Block, j: int, s: StmtV, k: int)
    requires
        0 <= j < b.len(),
        0 <= k <= b.len(),
        forall|m: Text| #[trigger] stmt_writes(s, m) == stmt_writes(b[j], m),
    ensures
        k <= j ==> pending(b.update(j, s), k) == pending(b, k),
        k > j ==> pending(b.update(j, s), k) + stmt_weighed(b[j], reach_weight(b, j)) == pending(b, k)
            + stmt_weighed(s, reach_weight(b, j)),
    decreases k,
{
    let c = b.update(j, s);
    if k > 0 {
        pending_update(b, j, s, k - 1);
        assert forall|m: Text| #[trigger] reach(c, k - 1, m) == reach(b, k - 1, m) by {
            assert forall|q: int| 0 <= q < b.len() implies stmt_writes(#[trigger] c[q], m) == stmt_writes(b[q], m) by {
                if q == j {
                    assert(stmt_writes(s, m) == stmt_writes(b[j], m));
                }
            }
            reach_same(b, c, k - 1, m);
        }
        assert(reach_weight(c, k - 1) =~= reach_weight(b, k - 1));
    }
}

/// A definition of one name writes that name and nothing else.
proof fn sole_assign_writes(s: StmtV, m: Text)
    requires
        sole_assign(s) is Some,
    ensures
        stmt_writes(s, m) == (m == sole_assign(s)->Some_0.0),
{
    let n = sole_assign(s)->Some_0.0;
    let w = own_writes(s);
    assert(deep_stmt(writes_to(m), s) == writes_to(m)(s));
    match s {
        StmtV::Assign { targets, .. } => {
            assert(targets.drop_last() =~= Seq::<ExprV>::empty());
            assert(targets.last() == targets[0]);
            reveal_with_fuel(var_names, 2);
            assert(w =~= seq![n]);
        },
        StmtV::Local { names, .. } => {
            assert(w =~= seq![n]);
        },
        _ => {},
    }
    assert(w[0] == n);
    assert(w.contains(m) <==> m == n);
}

/// A statement that writes none of the variables of `e` does not write the variable that `e` is.
proof fn passes_var(s: StmtV, m: Text)
    requires
        passes(s, ExprV::Var(m)),
        !m.contains('.'),
    ensures
        !stmt_writes(s, m),
{
    let rs = read_set(ExprV::Var(m));
    insert_all_members(Seq::empty(), names_read(ExprV::Var(m)), m);
    assert(names_read(ExprV::Var(m)) =~= seq![m]);
    assert(seq![m][0] == m);
    assert(rs.contains(m));
    let v = writes_to(m);
    let w = writes_to_any(rs);
    assert forall|x: StmtV| #[trigger] v(x) <= w(x) by {
        if own_writes(x).contains(m) {
            assert(writes_one_of(x, rs));
        }
    }
    deep_stmt_le(v, w, s);
}

/// Inlining makes the block shorter, or makes it read definitions that stand higher up.
proof fn inlined_at_settles(b: Block, i: int, protected: Seq<Text>)
    requires
        0 <= i < b.len(),
    ensures
        inlined_at(b, i, protected) matches Some(c) ==> c.len() < b.len() || (c.len() == b.len() && pending(
            c,
            c.len() as int,
        ) < pending(b, b.len() as int)),
{
    if let Some(c) = inlined_at(b, i, protected) {
        let (n, v) = sole_assign(b[i])->Some_0;
        let nd = next_write(b, i + 1, n);
        next_write_bounds(b, i + 1, n);
        next_read_bounds(b, i + 1, nd, n);
        let j = next_read(b, i + 1, nd, n)->Some_0;
        if !read_once(b, i, nd, n) {
            let s = stmt_replaced(b[j], n, v);
            assert forall|m: Text| #[trigger] stmt_writes(s, m) == stmt_writes(b[j], m) by {
                stmt_replaced_writes(b[j], n, v, m);
            }
            let f = reach_weight(b, j);
            pending_update(b, j, s, b.len() as int);
            stmt_replaced_weighed(b[j], n, v, f);
            sole_assign_writes(b[i], n);
            assert forall|k: int| i + 1 <= k < j implies !stmt_writes(#[trigger] b[k], n) by {}
            reach_skips(b, i + 1, j, n);
            assert(reach(b, i + 1, n) == i);
            assert(f(n) == i + 2);
            if let ExprV::Var(m) = v {
                if !m.contains('.') {
                    assert(m != n);
                    sole_assign_writes(b[i], m);
                    let between = b.subrange(i + 1, j);
                    assert forall|k: int| i <= k < j implies !stmt_writes(#[trigger] b[k], m) by {
                        if k > i {
                            assert(between[k - i - 1] == b[k]);
                            passes_var(b[k], m);
                        }
                    }
                    reach_skips(b, i, j, m);
                    reach_bounds(b, i, m);
                    assert(f(m) < i + 2);
                }
            }
            assert(weighed(v, f) < f(n));
        }
    }
}

proof fn inlined_from_settles(b: Block, i: int, protected: Seq<Text>)
    requires
        0 <= i,
    ensures
        inlined_from(b, i, protected) matches Some(c) ==> c.len() < b.len() || (c.len() == b.len() && pending(
            c,
            c.len() as int,
        ) < pending(b, b.len() as int)),
    decreases b.len() - i,
{
    if i < b.len() {
        inlined_at_settles(b, i, protected);
        inlined_from_settles(b, i + 1, protected);
    }
}

/// `b` after as many inlinings as there are.
pub open spec fn inlined_flat(b: Block, protected: Seq<Text>) -> Block
    decreases b.len(), pending(b, b.len() as int),
{
    match inlined_from(b, 0, protected) {
        Some(c) => if c.len() < b.len() || (c.len() == b.len() && pending(c, c.len() as int) < pending(
            b,
            b.len() as int,
        )) {
            inlined_flat(c, protected)
        } else {
            c
        },
        None => b,
    }
}

/// Nothing is left to inline at the top level of the block.
pub proof fn inlined_flat_settles(b: Block, protected: Seq<Text>)
    ensures
        inlined_from(inlined_flat(b, protected), 0, protected) is None,
    decreases b.len(), pending(b, b.len() as int),
{
    inlined_from_settles(b, 0, protected);
    if let Some(c) = inlined_from(b, 0, protected) {
        inlined_flat_settles(c, protected);
    }
}

/// Inlines in the nested blocks of `b`, then in `b`. What the condition of a `while` or `repeat`
/// reads is protected in its body.
pub open spec fn inlined(b: Block, protected: Seq<Text>) -> Block
    decreases b, 1nat,
{
    inlined_flat(inlined_inside(b, protected), protected)
}

pub open spec fn inlined_inside(b: Block, protected: Seq<Text>) -> Block
    decreases b, 0nat,
{
    Seq::new(b.len(), |i: int| if 0 <= i < b.len() { inlined_in(b[i], protected) } else { StmtV::Break })
}

pub open spec fn inlined_in(s: StmtV, protected: Seq<Text>) -> StmtV
    decreases s, 0nat,
{
    match s {
        StmtV::If { cond, then_body, else_body } => StmtV::If {
            cond,
            then_body: inlined(then_body, protected),
            else_body: inlined(else_body, protected),
        },
        StmtV::Loop { head, body } => StmtV::Loop { head, body: inlined(body, body_protected(head, protected)) },
        _ => s,
    }
}

proof fn inlined_at_keeps_nested(b: Block, i: int, protected: Seq<Text>)
    requires
        0 <= i < b.len(),
        forall|k: int| 0 <= k < b.len() ==> inlined_in(#[trigger] b[k], protected) == b[k],
    ensures
        inlined_at(b, i, protected) matches Some(c) ==> forall|k: int|
            0 <= k < c.len() ==> inlined_in(#[trigger] c[k], protected) == c[k],
{
    if let Some(c) = inlined_at(b, i, protected) {
        let (n, v) = sole_assign(b[i])->Some_0;
        let nd = next_write(b, i + 1, n);
        next_write_bounds(b, i + 1, n);
        next_read_bounds(b, i + 1, nd, n);
        let j = next_read(b, i + 1, nd, n)->Some_0;
        let s = stmt_replaced(b[j], n, v);
        let d = b.update(j, s);
        assert(inlined_in(b[j], protected) == b[j]);
        assert(inlined_in(s, protected) == s);
        assert forall|k: int| 0 <= k < d.len() implies inlined_in(#[trigger] d[k], protected) == d[k] by {
            if k != j {
                assert(d[k] == b[k]);
            }
        }
        assert forall|k: int| 0 <= k < c.len() implies inlined_in(#[trigger] c[k], protected) == c[k] by {
            if c != d && k >= i {
                assert(c[k] == d[k + 1]);
            } else {
                assert(c[k] == d[k]);
            }
        }
    }
}

proof fn inlined_from_keeps_nested(b: Block, i: int, protected: Seq<Text>)
    requires
        0 <= i,
        forall|k: int| 0 <= k < b.len() ==> inlined_in(#[trigger] b[k], protected) == b[k],
    ensures
        inlined_from(b, i, protected) matches Some(c) ==> forall|k: int|
            0 <= k < c.len() ==> inlined_in(#[trigger] c[k], protected) == c[k],
    decreases b.len() - i,
{
    if i < b.len() {
        inlined_at_keeps_nested(b, i, protected);
        inlined_from_keeps_nested(b, i + 1, protected);
    }
}

proof fn inlined_flat_keeps_nested(b: Block, protected: Seq<Text>)
    requires
        forall|k: int| 0 <= k < b.len() ==> inlined_in(#[trigger] b[k], protected) == b[k],
    ensures
        forall|k: int|
            0 <= k < inlined_flat(b, protected).len() ==> inlined_in(
                #[trigger] inlined_flat(b, protected)[k],
                protected,
            ) == inlined_flat(b, protected)[k],
    decreases b.len(), pending(b, b.len() as int),
{
    inlined_from_settles(b, 0, protected);
    inlined_from_keeps_nested(b, 0, protected);
    if let Some(c) = inlined_from(b, 0, protected) {
        inlined_flat_keeps_nested(c, protected);
    }
}

/// Inlining leaves nothing to inline, at any depth: to inline again changes nothing.
pub proof fn inlined_settles(b: Block, protected: Seq<Text>)
    ensures
        inlined(inlined(b, protected), protected) == inlined(b, protected),
    decreases b, 1nat,
{
    let c = inlined_inside(b, protected);
    let d = inlined(b, protected);
    assert forall|k: int| 0 <= k < c.len() implies inlined_in(#[trigger] c[k], protected) == c[k] by {
        inlined_in_settles(b[k], protected);
    }
    inlined_flat_keeps_nested(c, protected);
    inlined_flat_settles(c, protected);
    assert(inlined_inside(d, protected) =~= d);
}

proof fn inlined_in_settles(s: StmtV, protected: Seq<Text>)
    ensures
        inlined_in(inlined_in(s, protected), protected) == inlined_in(s, protected),
    decreases s, 0nat,
{
    match s {
        StmtV::If { then_body, else_body, .. } => {
            inlined_settles(then_body, protected);
            inlined_settles(else_body, protected);
        },
        StmtV::Loop { head, body } => {
            inlined_settles(body, body_protected(head, protected));
        },
        _ => {},
    }
}

/// What is protected in the body of a loop.
pub open spec fn body_protected(head: LoopHead, protected: Seq<Text>) -> Seq<Text> {
    match head {
        LoopHead::While(c) => also_reads(protected, c),
        LoopHead::Repeat(c) => also_reads(protected, c),
        _ => protected,
    }
}

/// What is protected in the body of the loop `s`.
pub fn protected_in_body(s: &Stmt, protected: &NameSet) -> (r: NameSet)
    requires
        s@ is Loop,
    ensures
        r@ == body_protected(s@->head, protected@),
{
    match s {
        Stmt::While { cond, .. } => with_reads(protected, cond),
        Stmt::Repeat { cond, .. } => with_reads(protected, cond),
        _ => protected.copy(),
    }
}

fn inline_flat(b: Vec<Stmt>, protected: &NameSet) -> (r: Vec<Stmt>)
    ensures
        block(r@) == inlined_flat(block(b@), protected@),
{
    let mut cur = b;
    loop
        invariant
            inlined_flat(block(cur@), protected@) == inlined_flat(block(b@), protected@),
        decreases block(cur@).len(), pending(block(cur@), block(cur@).len() as int),
    {
        proof {
            inlined_from_settles(block(cur@), 0, protected@);
        }
        if !flat_inline_once(&mut cur, protected) {
            return cur;
        }
    }
}

fn inline_block(b: &[Stmt], protected: &NameSet) -> (r: Vec<Stmt>)
    ensures
        block(r@) == inlined(block(b@), protected@),
    decreases b@,
{
    let mut out: Vec<Stmt> = Vec::new();
    let mut i: usize = 0;
    while i < b.len()
        invariant
            i <= b.len(),
            out.len() == i,
            forall|j: int| 0 <= j < i ==> (#[trigger] out@[j])@ == inlined_in(b@[j]@, protected@),
        decreases b.len() - i,
    {
        out.push(inline_in_stmt(&b[i], protected));
        i += 1;
    }
    assert(block(out@) =~= inlined_inside(block(b@), protected@));
    inline_flat(out, protected)
}

fn inline_in_stmt(s: &Stmt, protected: &NameSet) -> (r: Stmt)
    ensures
        r@ == inlined_in(s@, protected@),
    decreases s,
{
    if let Stmt::If { cond, then_body, else_body } = s {
        Stmt::If {
            cond: cond.clone(),
            then_body: inline_block(then_body, protected),
            else_body: inline_block(else_body, protected),
        }
    } else {
        match loop_body(s) {
            Some(body) => {
                let p = protected_in_body(s, protected);
                let b = inline_block(body, &p);
                with_loop_body(s, b)
            },
            None => s.clone(),
        }
    }
}

/// Inlines values that are read once, or that can be copied for nothing, where nothing in between
/// could change them. `protected` names keep their definitions.
pub fn single_use_inline(root: &mut Vec<Stmt>, protected: &NameSet)
    ensures
        block(final(root)@) == inlined(block(old(root)@), protected@),
{
    *root = inline_block(root, protected);
}

} // verus!
