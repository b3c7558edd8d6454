//! Jumps out of search loops.
use vstd::prelude::*;

use crate::ast::{
    as_bool, as_var, block, clone_block, concat, copy_range, loop_body, one, range, spec_splice, splice,
    with_loop_body, Block, Expr, ExprV, Stmt, StmtV,
};
use crate::conditions::{not_expr, not_of};
use crate::jumps::{
    all_gotos_preceded_by_assign_to, all_gotos_preceded_by_bool_assign, break_loop, broken_loop, broken_loop_fewer,
    found_by_assign, found_by_bool, has_goto_in_nested_loop, jumps_from_loop, only, sole_assign, sole_var_assign,
};
use crate::names::NameSet;
use crate::naming::{all_pure, pure_all};
use crate::query::{
    any_goto, find_label, find_label_found, goto_to, gotos, gotos_only_at, has_jumps, has_label, label_names,
    label_names_in_block, labels, position_of_label, range_has_jumps,
};
use crate::rules::{
    everywhere, everywhere_same, per_label_same, rewrite_everywhere, scan_same, tree_of, tree_of_model, Either, Gotos,
    LabelRule, Measure, PerLabel, Rule, Scan, Step,
};
use crate::text::{str_eq, Text};
use crate::weight::{deep, deep_concat, deep_one, deep_push, deep_range, deep_range_one, deep_splice, deep_stmt};

verus! {

/// Whether the statement only assigns effect-free values to bare names.
pub open spec fn pure_assignment(s: StmtV) -> bool {
    match s {
        StmtV::Assign { targets, values } => (forall|i: int|
            0 <= i < targets.len() ==> #[trigger] targets[i] is Var) && pure_all(values),
        StmtV::Local { values, .. } => pure_all(values),
        _ => false,
    }
}

pub open spec fn pure_assignments(b: Block) -> bool {
    forall|i: int| 0 <= i < b.len() ==> pure_assignment(#[trigger] b[i])
}

fn all_bare(es: &[Expr]) -> (r: bool)
    ensures
        r == (forall|i: int| 0 <= i < es@.len() ==> #[trigger] crate::ast::exprs(es@)[i] is Var),
{
    let ghost v = crate::ast::exprs(es@);
    let mut i: usize = 0;
    while i < es.len()
        invariant
            i <= es.len(),
            v == crate::ast::exprs(es@),
            forall|j: int| 0 <= j < i ==> #[trigger] v[j] is Var,
        decreases es.len() - i,
    {
        assert(v[i as int] == es@[i as int]@);
        if !matches!(es[i], Expr::Var(_)) {
            return false;
        }
        i += 1;
    }
    true
}

fn is_pure_assignment_stmt(s: &Stmt) -> (r: bool)
    ensures
        r == pure_assignment(s@),
{
    match s {
        Stmt::Assign { targets, values } => all_bare(targets) && all_pure(values),
        Stmt::Local { values, .. } => all_pure(values),
        _ => false,
    }
}

fn all_pure_assignments(b: &[Stmt]) -> (r: bool)
    ensures
        r == pure_assignments(block(b@)),
{
    let ghost v = block(b@);
    let mut i: usize = 0;
    while i < b.len()
        invariant
            i <= b.len(),
            v == block(b@),
            forall|j: int| 0 <= j < i ==> pure_assignment(#[trigger] v[j]),
        decreases b.len() - i,
    {
        assert(v[i as int] == b@[i as int]@);
        if !is_pure_assignment_stmt(&b[i]) {
            return false;
        }
        i += 1;
    }
    true
}

/// A search loop whose hits jump past the default: the default moves before the loop, and the
/// jumps become `break`.
pub struct FindBreak;

impl LabelRule for FindBreak {
    type M = Gotos;

    open spec fn at_label(&self, b: Block, i: int, l: Text) -> Option<Block> {
        if i + 1 >= b.len() || !(b[i] is Loop) {
            None
        } else {
            match sole_assign(b[i + 1]) {
                None => None,
                Some((var, default)) => {
                    let body = b[i]->Loop_body;
                    let labelled = i + 2 < b.len() && b[i + 2] == StmtV::Label(l);
                    if (default != ExprV::Nil && !labelled) || (labels(b, l) > 0 && (!labelled || gotos(
                        b,
                        l,
                    ) != deep_stmt(goto_to(l), b[i]))) || jumps_from_loop(body, l) || !found_by_assign(
                        body,
                        l,
                        var,
                    ) {
                        None
                    } else {
                        Some(
                            spec_splice(
                                b,
                                i,
                                if labelled {
                                    i + 3
                                } else {
                                    i + 2
                                },
                                seq![b[i + 1], broken_loop(b[i], l)],
                            ),
                        )
                    }
                },
            }
        }
    }

    proof fn shrinks_at_label(&self, b: Block, i: int, l: Text) {
        if i + 1 < b.len() && b[i] is Loop {
            let hi = if i + 2 < b.len() && b[i + 2] == StmtV::Label(l) {
                i + 3
            } else {
                i + 2
            };
            let g = any_goto();
            let mid = seq![b[i + 1], broken_loop(b[i], l)];
            broken_loop_fewer(b[i], l);
            deep_range(g, b, i, i + 1, hi);
            deep_range(g, b, i + 1, i + 2, hi);
            deep_range_one(g, b, i);
            deep_range_one(g, b, i + 1);
            deep_splice(g, b, i, hi, mid);
            assert(mid =~= seq![b[i + 1]].push(broken_loop(b[i], l)));
            deep_push(g, seq![b[i + 1]], broken_loop(b[i], l));
            deep_one(g, b[i + 1]);
        }
    }

    fn try_at_label(&self, b: &Vec<Stmt>, i: usize, l: &str) -> (r: Option<Vec<Stmt>>) {
        let n: usize = b.len();
        if n - i < 2 {
            return None;
        }
        let body = match loop_body(&b[i]) {
            Some(body) => body,
            None => {
                return None;
            },
        };
        match sole_var_assign(&b[i + 1]) {
            None => None,
            Some((var, default)) => {
                let labelled = n - i > 2 && crate::ast::is_label_of(&b[i + 2], l);
                if !matches!(default, Expr::Nil) && !labelled {
                    return None;
                }
                if has_label(b, l) && (!labelled || !gotos_only_at(b, i, l)) {
                    return None;
                }
                if has_goto_in_nested_loop(body, l) || !all_gotos_preceded_by_assign_to(body, l, var) {
                    return None;
                }
                let mid = pair(b[i + 1].clone(), break_loop(&b[i], l));
                let hi: usize = if labelled {
                    i + 3
                } else {
                    i + 2
                };
                Some(splice(b, i, hi, mid))
            },
        }
    }
}

fn pair(a: Stmt, b: Stmt) -> (r: Vec<Stmt>)
    ensures
        block(r@) == seq![a@, b@],
{
    let mut out: Vec<Stmt> = Vec::new();
    out.push(a);
    out.push(b);
    assert(block(out@) =~= seq![a@, b@]);
    out
}

/// A search loop whose hits jump past a few fallback assignments: these move before the loop,
/// and the jumps become `break`.
pub struct FindFallback;

impl LabelRule for FindFallback {
    type M = Gotos;

    open spec fn at_label(&self, b: Block, i: int, l: Text) -> Option<Block> {
        if i + 2 >= b.len() || !(b[i] is Loop) {
            None
        } else {
            match find_label(b, i + 2, l) {
                None => None,
                Some(k) => {
                    let body = b[i]->Loop_body;
                    let fallback = b.subrange(i + 1, k);
                    match sole_assign(b[k - 1]) {
                        None => None,
                        Some((var, _)) => if fallback.len() > 6 || gotos(b, l) != deep_stmt(goto_to(l), b[i])
                            || has_jumps(fallback) || !pure_assignments(fallback) || jumps_from_loop(body, l)
                            || !found_by_assign(body, l, var) {
                            None
                        } else {
                            Some(spec_splice(b, i, k + 1, fallback.push(broken_loop(b[i], l))))
                        },
                    }
                },
            }
        }
    }

    proof fn shrinks_at_label(&self, b: Block, i: int, l: Text) {
        if i + 2 < b.len() && b[i] is Loop {
            find_label_found(b, i + 2, l);
            if let Some(k) = find_label(b, i + 2, l) {
                let fallback = b.subrange(i + 1, k);
                let g = any_goto();
                broken_loop_fewer(b[i], l);
                deep_range(g, b, i, i + 1, k + 1);
                deep_range(g, b, i + 1, k, k + 1);
                deep_range_one(g, b, i);
                deep_splice(g, b, i, k + 1, fallback.push(broken_loop(b[i], l)));
                deep_push(g, fallback, broken_loop(b[i], l));
            }
        }
    }

    fn try_at_label(&self, b: &Vec<Stmt>, i: usize, l: &str) -> (r: Option<Vec<Stmt>>) {
        let n: usize = b.len();
        if n - i < 3 {
            return None;
        }
        let body = match loop_body(&b[i]) {
            Some(body) => body,
            None => {
                return None;
            },
        };
        match position_of_label(b, i + 2, l) {
            None => None,
            Some(k) => match sole_var_assign(&b[k - 1]) {
                None => None,
                Some((var, _)) => {
                    let fallback = range(b, i + 1, k);
                    if k - (i + 1) > 6 || !gotos_only_at(b, i, l) || range_has_jumps(b, i + 1, k)
                        || !all_pure_assignments(fallback) || has_goto_in_nested_loop(body, l)
                        || !all_gotos_preceded_by_assign_to(body, l, var) {
                        return None;
                    }
                    let mut mid = clone_block(fallback);
                    let ghost o = mid@;
                    mid.push(break_loop(&b[i], l));
                    assert(block(mid@) =~= block(o).push(mid@.last()@));
                    Some(splice(b, i, k + 1, mid))
                },
            },
        }
    }
}

/// Recovers search loops that jump past the code for "not found".
pub fn recover_loop_find_breaks(root: &mut Vec<Stmt>)
    ensures
        block(final(root)@) == everywhere(
            Either(Scan(PerLabel(FindBreak)), Scan(PerLabel(FindFallback))),
            block(old(root)@),
        ),
{
    *root = rewrite_everywhere(&Either(Scan(PerLabel(FindBreak)), Scan(PerLabel(FindFallback))), root);
}

/// Whether `e` is `not x` for some `x`, and which.
pub open spec fn negand(e: ExprV) -> Option<ExprV> {
    match e {
        ExprV::Unary(op, a) => if op == "not "@ {
            Some(*a)
        } else {
            None
        },
        _ => None,
    }
}

pub fn negand_of(e: &Expr) -> (r: Option<&Expr>)
    ensures
        match r {
            Some(a) => negand(e@) == Some(a@),
            None => negand(e@) is None,
        },
{
    match e {
        Expr::Unary(op, a) => if str_eq(op, "not ") {
            Some(&**a)
        } else {
            None
        },
        _ => None,
    }
}

/// The name `x` where `e` is `not x`.
fn negated_var(e: &Expr) -> (r: Option<&String>)
    ensures
        match r {
            Some(n) => negand(e@) == Some(ExprV::Var(n@)),
            None => !(negand(e@) matches Some(ExprV::Var(_))),
        },
{
    match negand_of(e) {
        Some(a) => as_var(a),
        None => None,
    }
}

/// `(name, constant)` where `s` assigns a boolean constant to a bare name.
fn sole_bool_assign(s: &Stmt) -> (r: Option<(&String, bool)>)
    ensures
        match r {
            Some((n, v)) => sole_assign(s@) == Some((n@, ExprV::Bool(v))),
            None => !(sole_assign(s@) matches Some((_, ExprV::Bool(_)))),
        },
{
    match sole_var_assign(s) {
        Some((n, e)) => match as_bool(e) {
            Some(v) => Some((n, v)),
            None => None,
        },
        None => None,
    }
}

/// A loop that ends by `selector = false; goto L`, followed by `selector = true` and
/// `if not selector`: the initial value moves before the loop, and the jumps become `break`.
pub struct BoolSelector;

impl LabelRule for BoolSelector {
    type M = Gotos;

    open spec fn at_label(&self, b: Block, i: int, l: Text) -> Option<Block> {
        if i + 2 >= b.len() || !(b[i] is Loop) {
            None
        } else {
            match (sole_assign(b[i + 1]), b[i + 2]) {
                (
                    Some((selector, ExprV::Bool(true))),
                    StmtV::If { cond, then_body, else_body },
                ) => if (negand(cond) == Some(ExprV::Var(selector)) || negand(cond) == Some(
                    ExprV::Bool(true),
                )) && found_by_bool(b[i]->Loop_body, l, selector, false) {
                    Some(
                        spec_splice(
                            b,
                            i,
                            i + 3,
                            seq![
                                b[i + 1],
                                broken_loop(b[i], l),
                                StmtV::If { cond: not_of(ExprV::Var(selector)), then_body, else_body },
                            ],
                        ),
                    )
                } else {
                    None
                },
                _ => None,
            }
        }
    }

    proof fn shrinks_at_label(&self, b: Block, i: int, l: Text) {
        if i + 2 < b.len() && b[i] is Loop {
            if let (Some((selector, _)), StmtV::If { cond, then_body, else_body }) = (
                sole_assign(b[i + 1]),
                b[i + 2],
            ) {
                let t = StmtV::If { cond: not_of(ExprV::Var(selector)), then_body, else_body };
                moved_init_shrinks(b, i, l, t);
            }
        }
    }

    fn try_at_label(&self, b: &Vec<Stmt>, i: usize, l: &str) -> (r: Option<Vec<Stmt>>) {
        let n: usize = b.len();
        if n - i < 3 {
            return None;
        }
        let body = match loop_body(&b[i]) {
            Some(body) => body,
            None => {
                return None;
            },
        };
        let (selector, init) = match sole_bool_assign(&b[i + 1]) {
            Some(x) => x,
            None => {
                return None;
            },
        };
        if !init {
            return None;
        }
        match &b[i + 2] {
            Stmt::If { cond, then_body, else_body } => {
                let negates = match negand_of(cond) {
                    Some(a) => match (as_var(a), as_bool(a)) {
                        (Some(name), _) => str_eq(name, selector),
                        (_, Some(v)) => v,
                        _ => false,
                    },
                    None => false,
                };
                if !negates || !all_gotos_preceded_by_bool_assign(body, l, selector, false) {
                    return None;
                }
                let mut mid = pair(b[i + 1].clone(), break_loop(&b[i], l));
                let ghost o = mid@;
                mid.push(
                    Stmt::If {
                        cond: not_expr(Expr::Var(selector.clone())),
                        then_body: clone_block(then_body),
                        else_body: clone_block(else_body),
                    },
                );
                assert(block(mid@) =~= block(o).push(mid@.last()@));
                assert(block(mid@) =~= seq![block(o)[0], block(o)[1], mid@.last()@]);
                Some(splice(b, i, i + 3, mid))
            },
            _ => None,
        }
    }
}

/// Moving the statement after a loop before it, and jumps becoming `break`, leaves fewer jumps;
/// the third statement may change in its condition.
proof fn moved_init_shrinks(b: Block, i: int, l: Text, t: StmtV)
    requires
        0 <= i,
        i + 2 < b.len(),
        b[i] is Loop,
        b[i + 2] is If,
        t is If,
        t->then_body == b[i + 2]->then_body,
        t->else_body == b[i + 2]->else_body,
    ensures
        gotos(b[i]->Loop_body, l) > 0 ==> deep(
            any_goto(),
            spec_splice(b, i, i + 3, seq![b[i + 1], broken_loop(b[i], l), t]),
        ) < deep(any_goto(), b),
{
    let g = any_goto();
    let mid = seq![b[i + 1], broken_loop(b[i], l), t];
    broken_loop_fewer(b[i], l);
    deep_range(g, b, i, i + 1, i + 3);
    deep_range(g, b, i + 1, i + 2, i + 3);
    deep_range_one(g, b, i);
    deep_range_one(g, b, i + 1);
    deep_range_one(g, b, i + 2);
    deep_splice(g, b, i, i + 3, mid);
    let two = seq![b[i + 1]].push(broken_loop(b[i], l));
    assert(mid =~= two.push(t));
    deep_push(g, two, t);
    deep_push(g, seq![b[i + 1]], broken_loop(b[i], l));
    deep_one(g, b[i + 1]);
}

/// The guard after the loop, with the constant that stood for the selector turned back into it.
pub open spec fn guard_on(s: StmtV, selector: Text, value: bool) -> StmtV {
    match s {
        StmtV::If { cond, then_body, else_body } => if cond == ExprV::Bool(value) {
            StmtV::If { cond: ExprV::Var(selector), then_body, else_body }
        } else if negand(cond) == Some(ExprV::Bool(value)) {
            StmtV::If { cond: not_of(ExprV::Var(selector)), then_body, else_body }
        } else {
            s
        },
        _ => s,
    }
}

fn rewrite_const_bool_if_guard(s: &Stmt, selector: &str, value: bool) -> (r: Stmt)
    ensures
        r@ == guard_on(s@, selector@, value),
{
    match s {
        Stmt::If { cond, then_body, else_body } => {
            let plain = match as_bool(cond) {
                Some(v) => v == value,
                None => false,
            };
            let negative = match negand_of(cond) {
                Some(a) => match as_bool(a) {
                    Some(v) => v == value,
                    None => false,
                },
                None => false,
            };
            if plain {
                Stmt::If {
                    cond: Expr::Var(selector.to_owned()),
                    then_body: clone_block(then_body),
                    else_body: clone_block(else_body),
                }
            } else if negative {
                Stmt::If {
                    cond: not_expr(Expr::Var(selector.to_owned())),
                    then_body: clone_block(then_body),
                    else_body: clone_block(else_body),
                }
            } else {
                s.clone()
            }
        },
        _ => s.clone(),
    }
}

/// A loop that ends by `selector = not default; goto L`, followed by `selector = default`,
/// where `::L::` is gone: the default moves before the loop, and the jumps become `break`.
pub struct BoolAssignBreak<'a> {
    /// The whole tree.
    pub root: &'a Vec<Stmt>,
}

impl<'a> LabelRule for BoolAssignBreak<'a> {
    type M = Gotos;

    open spec fn at_label(&self, b: Block, i: int, l: Text) -> Option<Block> {
        if i + 1 >= b.len() || !(b[i] is Loop) {
            None
        } else {
            match sole_assign(b[i + 1]) {
                Some((selector, ExprV::Bool(default))) => if labels(block(self.root@), l) > 0 || jumps_from_loop(
                    b[i]->Loop_body,
                    l,
                ) || !found_by_bool(b[i]->Loop_body, l, selector, !default) {
                    None
                } else if i + 2 < b.len() {
                    Some(
                        spec_splice(
                            b,
                            i,
                            i + 3,
                            seq![b[i + 1], broken_loop(b[i], l), guard_on(b[i + 2], selector, default)],
                        ),
                    )
                } else {
                    Some(spec_splice(b, i, i + 2, seq![b[i + 1], broken_loop(b[i], l)]))
                },
                _ => None,
            }
        }
    }

    proof fn shrinks_at_label(&self, b: Block, i: int, l: Text) {
        if i + 1 < b.len() && b[i] is Loop {
            if let Some((selector, ExprV::Bool(default))) = sole_assign(b[i + 1]) {
                let g = any_goto();
                if i + 2 < b.len() {
                    let t = guard_on(b[i + 2], selector, default);
                    if b[i + 2] is If {
                        moved_init_shrinks(b, i, l, t);
                    } else {
                        swapped_shrinks(b, i, l);
                        let mid = seq![b[i + 1], broken_loop(b[i], l), t];
                        assert(spec_splice(b, i, i + 3, mid) =~= spec_splice(
                            b,
                            i,
                            i + 2,
                            seq![b[i + 1], broken_loop(b[i], l)],
                        ));
                    }
                } else {
                    swapped_shrinks(b, i, l);
                }
            }
        }
    }

    fn try_at_label(&self, b: &Vec<Stmt>, i: usize, l: &str) -> (r: Option<Vec<Stmt>>) {
        let n: usize = b.len();
        if n - i < 2 {
            return None;
        }
        let body = match loop_body(&b[i]) {
            Some(body) => body,
            None => {
                return None;
            },
        };
        match sole_bool_assign(&b[i + 1]) {
            Some((selector, default)) => {
                if has_label(self.root, l) || has_goto_in_nested_loop(body, l) || !all_gotos_preceded_by_bool_assign(
                    body,
                    l,
                    selector,
                    !default,
                ) {
                    return None;
                }
                let mut mid = pair(b[i + 1].clone(), break_loop(&b[i], l));
                if n - i > 2 {
                    let ghost o = mid@;
                    mid.push(rewrite_const_bool_if_guard(&b[i + 2], selector, default));
                    assert(block(mid@) =~= block(o).push(mid@.last()@));
                    assert(block(mid@) =~= seq![block(o)[0], block(o)[1], mid@.last()@]);
                    Some(splice(b, i, i + 3, mid))
                } else {
                    Some(splice(b, i, i + 2, mid))
                }
            },
            _ => None,
        }
    }
}

proof fn swapped_shrinks(b: Block, i: int, l: Text)
    requires
        0 <= i,
        i + 1 < b.len(),
        b[i] is Loop,
    ensures
        gotos(b[i]->Loop_body, l) > 0 ==> deep(
            any_goto(),
            spec_splice(b, i, i + 2, seq![b[i + 1], broken_loop(b[i], l)]),
        ) < deep(any_goto(), b),
{
    let g = any_goto();
    let mid = seq![b[i + 1], broken_loop(b[i], l)];
    broken_loop_fewer(b[i], l);
    deep_range(g, b, i, i + 1, i + 2);
    deep_range_one(g, b, i);
    deep_range_one(g, b, i + 1);
    deep_splice(g, b, i, i + 2, mid);
    assert(mid =~= seq![b[i + 1]].push(broken_loop(b[i], l)));
    deep_push(g, seq![b[i + 1]], broken_loop(b[i], l));
    deep_one(g, b[i + 1]);
}

/// A loop that ends by `selector = true; goto L`, followed by `if not selector`, where `::L::`
/// is gone: the jumps become `break`.
pub struct BoolGuardBreak<'a> {
    /// The whole tree.
    pub root: &'a Vec<Stmt>,
}

impl<'a> LabelRule for BoolGuardBreak<'a> {
    type M = Gotos;

    open spec fn at_label(&self, b: Block, i: int, l: Text) -> Option<Block> {
        if i + 1 >= b.len() || !(b[i] is Loop) {
            None
        } else {
            match b[i + 1] {
                StmtV::If { cond, .. } => match negand(cond) {
                    Some(ExprV::Var(selector)) => if labels(block(self.root@), l) > 0 || jumps_from_loop(b[i]->Loop_body, l)
                        || !found_by_bool(b[i]->Loop_body, l, selector, true) {
                        None
                    } else {
                        Some(spec_splice(b, i, i + 1, only(broken_loop(b[i], l))))
                    },
                    _ => None,
                },
                _ => None,
            }
        }
    }

    proof fn shrinks_at_label(&self, b: Block, i: int, l: Text) {
        if i + 1 < b.len() && b[i] is Loop {
            let g = any_goto();
            broken_loop_fewer(b[i], l);
            deep_range_one(g, b, i);
            deep_splice(g, b, i, i + 1, only(broken_loop(b[i], l)));
            deep_one(g, broken_loop(b[i], l));
        }
    }

    fn try_at_label(&self, b: &Vec<Stmt>, i: usize, l: &str) -> (r: Option<Vec<Stmt>>) {
        let n: usize = b.len();
        if n - i < 2 {
            return None;
        }
        let body = match loop_body(&b[i]) {
            Some(body) => body,
            None => {
                return None;
            },
        };
        match &b[i + 1] {
            Stmt::If { cond, .. } => match negated_var(cond) {
                Some(selector) => {
                    if has_label(self.root, l) || has_goto_in_nested_loop(body, l) || !all_gotos_preceded_by_bool_assign(
                        body,
                        l,
                        selector,
                        true,
                    ) {
                        return None;
                    }
                    Some(splice(b, i, i + 1, one(break_loop(&b[i], l))))
                },
                None => None,
            },
            _ => None,
        }
    }
}

/// Whether the last statement, or that of a branch of a last `if`, jumps to a label not in `ls`.
pub open spec fn tail_jumps_away(b: Block, ls: Seq<Text>) -> bool
    decreases b,
{
    b.len() > 0 && stmt_tail_jumps_away(b.last(), ls)
}

pub open spec fn stmt_tail_jumps_away(s: StmtV, ls: Seq<Text>) -> bool
    decreases s,
{
    match s {
        StmtV::Goto(l) => !ls.contains(l),
        StmtV::If { then_body, else_body, .. } => tail_jumps_away(then_body, ls) || tail_jumps_away(
            else_body,
            ls,
        ),
        _ => false,
    }
}

/// `b` without those last jumps.
pub open spec fn without_tail_jump(b: Block, ls: Seq<Text>) -> Block
    decreases b,
{
    if !tail_jumps_away(b, ls) {
        b
    } else {
        b.drop_last() + stmt_without_tail_jump(b.last(), ls)
    }
}

pub open spec fn stmt_without_tail_jump(s: StmtV, ls: Seq<Text>) -> Block
    decreases s,
{
    match s {
        StmtV::If { cond, then_body, else_body } => seq![
            StmtV::If {
                cond,
                then_body: without_tail_jump(then_body, ls),
                else_body: without_tail_jump(else_body, ls),
            },
        ],
        _ => Seq::empty(),
    }
}

proof fn without_tail_jump_fewer(b: Block, ls: Seq<Text>)
    ensures
        tail_jumps_away(b, ls) ==> deep(any_goto(), without_tail_jump(b, ls)) < deep(any_goto(), b),
    decreases b,
{
    if tail_jumps_away(b, ls) {
        let g = any_goto();
        let s = b.last();
        deep_concat(g, b.drop_last(), stmt_without_tail_jump(s, ls));
        match s {
            StmtV::If { cond, then_body, else_body } => {
                without_tail_jump_fewer(then_body, ls);
                without_tail_jump_fewer(else_body, ls);
                deep_one(
                    g,
                    StmtV::If {
                        cond,
                        then_body: without_tail_jump(then_body, ls),
                        else_body: without_tail_jump(else_body, ls),
                    },
                );
            },
            _ => {
                assert(deep(g, Seq::<StmtV>::empty()) == 0);
            },
        }
        assert(deep(g, b) == deep(g, b.drop_last()) + deep_stmt(g, s));
    }
}

fn ends_jumping_away(b: &[Stmt], ls: &NameSet) -> (r: bool)
    ensures
        r == tail_jumps_away(block(b@), ls@),
    decreases b@,
{
    if b.len() == 0 {
        return false;
    }
    let s = &b[b.len() - 1];
    assert(block(b@).last() == s@);
    match s {
        Stmt::Goto(l) => !ls.contains(l),
        Stmt::If { then_body, else_body, .. } => ends_jumping_away(then_body, ls) || ends_jumping_away(
            else_body,
            ls,
        ),
        _ => false,
    }
}

fn remove_tail_missing_goto(b: &[Stmt], ls: &NameSet) -> (r: Vec<Stmt>)
    ensures
        block(r@) == without_tail_jump(block(b@), ls@),
    decreases b@,
{
    if !ends_jumping_away(b, ls) {
        return clone_block(b);
    }
    let n: usize = b.len();
    let s = &b[n - 1];
    assert(block(b@).last() == s@);
    let front = copy_range(b, 0, n - 1);
    assert(block(front@) =~= block(b@).drop_last());
    let back = match s {
        Stmt::If { cond, then_body, else_body } => one(
            Stmt::If {
                cond: cond.clone(),
                then_body: remove_tail_missing_goto(then_body, ls),
                else_body: remove_tail_missing_goto(else_body, ls),
            },
        ),
        _ => crate::ast::none(),
    };
    concat(front, back)
}

/// A jump to a missing label at the end of a loop's body only starts the next round.
pub struct TrailingLoopGoto<'a> {
    /// The whole tree.
    pub root: &'a Vec<Stmt>,
}

impl<'a> Rule for TrailingLoopGoto<'a> {
    type M = Gotos;

    open spec fn at(&self, b: Block, i: int) -> Option<Block> {
        match b[i] {
            StmtV::Loop { head, body } => if tail_jumps_away(body, label_names(block(self.root@))) {
                Some(
                    spec_splice(
                        b,
                        i,
                        i + 1,
                        only(StmtV::Loop { head, body: without_tail_jump(body, label_names(block(self.root@))) }),
                    ),
                )
            } else {
                None
            },
            _ => None,
        }
    }

    proof fn shrinks_at(&self, b: Block, i: int) {
        if let StmtV::Loop { head, body } = b[i] {
            let g = any_goto();
            let s = StmtV::Loop { head, body: without_tail_jump(body, label_names(block(self.root@))) };
            without_tail_jump_fewer(body, label_names(block(self.root@)));
            deep_range_one(g, b, i);
            deep_splice(g, b, i, i + 1, only(s));
            deep_one(g, s);
        }
    }

    fn try_at(&self, b: &Vec<Stmt>, i: usize) -> (r: Option<Vec<Stmt>>) {
        match loop_body(&b[i]) {
            Some(body) => {
                let ls = label_names_in_block(self.root);
                if !ends_jumping_away(body, &ls) {
                    return None;
                }
                let inner = remove_tail_missing_goto(body, &ls);
                Some(splice(b, i, i + 1, one(with_loop_body(&b[i], inner))))
            },
            None => None,
        }
    }
}

/// The four ways to take a jump out of a loop whose outcome a flag records.
pub type BoolExits<'a> = Either<
    Either<
        Either<Scan<PerLabel<BoolSelector>>, Scan<PerLabel<BoolAssignBreak<'a>>>>,
        Scan<PerLabel<BoolGuardBreak<'a>>>,
    >,
    Scan<TrailingLoopGoto<'a>>,
>;

/// The four ways, in the order in which they are tried, where `root` is the whole tree.
pub open spec fn bool_exits<'a>(root: &'a Vec<Stmt>) -> BoolExits<'a> {
    Either(
        Either(
            Either(Scan(PerLabel(BoolSelector)), Scan(PerLabel(BoolAssignBreak { root }))),
            Scan(PerLabel(BoolGuardBreak { root })),
        ),
        Scan(TrailingLoopGoto { root }),
    )
}

/// `b`, where jumps out of loops whose outcome a flag records are taken out.
pub open spec fn bool_exits_recovered(b: Block) -> Block {
    everywhere(bool_exits(&tree_of(b)), b)
}

/// Recovers loops that jump to the code after them once a flag is set.
pub fn recover_loop_bool_selector_gotos(root: &mut Vec<Stmt>)
    ensures
        block(final(root)@) == bool_exits_recovered(block(old(root)@)),
{
    let ghost other = tree_of(block(root@));
    let p: BoolExits = Either(
        Either(
            Either(Scan(PerLabel(BoolSelector)), Scan(PerLabel(BoolAssignBreak { root }))),
            Scan(PerLabel(BoolGuardBreak { root })),
        ),
        Scan(TrailingLoopGoto { root }),
    );
    proof {
        tree_of_model(*root);
        let q = bool_exits(&other);
        per_label_same(p.0.0.1.0.0, q.0.0.1.0.0);
        scan_same(p.0.0.1.0, q.0.0.1.0);
        per_label_same(p.0.1.0.0, q.0.1.0.0);
        scan_same(p.0.1.0, q.0.1.0);
        scan_same(p.1.0, q.1.0);
        assert forall|c: Block| #[trigger] p.step(c) == q.step(c) by {
            assert(p.0.0.1.step(c) == q.0.0.1.step(c));
            assert(p.0.1.step(c) == q.0.1.step(c));
            assert(p.1.step(c) == q.1.step(c));
        }
        everywhere_same(p, q, block(root@));
    }
    let out = rewrite_everywhere(&p, root);
    *root = out;
}

} // verus!
