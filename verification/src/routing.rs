//! Moving what follows a branch into the branch.
use vstd::prelude::*;

use crate::ast::{block, clone_block, clone_exprs, concat, one, opt_block, range, Block, Expr, ExprV, Stmt, StmtV};
use crate::conditions::{names_unread, reads_none};
use crate::jumps::{block_ends_terminated, terminated};
use crate::paths::{paths, paths_concat, paths_one, paths_positive, stmt_paths, stmt_paths_positive};
use crate::query::{goto_to, gotos, has_goto, GotoTo};
use crate::text::{texts, Text};
use crate::weight::{deep, deep_at, deep_concat, deep_stmt, occurs_in_stmt};

verus! {

/// `second` after `first`, where control gets there.
pub open spec fn appended(first: Block, second: Block) -> Block {
    if terminated(first) {
        first
    } else {
        first + second
    }
}

/// `second` after `first`, where control gets there.
pub fn append_blocks(first: &[Stmt], second: &[Stmt]) -> (r: Vec<Stmt>)
    ensures
        block(r@) == appended(block(first@), block(second@)),
{
    if block_ends_terminated(first) {
        clone_block(first)
    } else {
        concat(clone_block(first), clone_block(second))
    }
}

pub proof fn appended_paths(first: Block, second: Block)
    ensures
        paths(appended(first, second)) <= paths(first) * paths(second),
{
    paths_concat(first, second);
    paths_positive(second);
    let x = paths(first);
    let y = paths(second);
    assert(x <= x * y) by (nonlinear_arith)
        requires
            y >= 1,
    ;
}

/// The statements after the first.
pub open spec fn tail_of(b: Block) -> Block {
    b.subrange(1, b.len() as int)
}

/// `b` followed by `cont`, where a jump to `l` skips `cont`. `None` where a loop would have to be
/// left.
pub open spec fn absorbed(b: Block, l: Text, cont: Block) -> Option<Block>
    decreases b,
{
    if b.len() == 0 {
        Some(cont)
    } else if deep_stmt(goto_to(l), b[0]) == 0 {
        match absorbed(b.subrange(1, b.len() as int), l, cont) {
            Some(rest) => Some(seq![b[0]] + rest),
            None => None,
        }
    } else {
        match b[0] {
            StmtV::Goto(_) => Some(Seq::empty()),
            StmtV::If { cond, then_body, else_body } => {
                let next = appended(tail_of(b), cont);
                match (absorbed(then_body, l, next), absorbed(else_body, l, next)) {
                    (Some(t), Some(e)) => Some(seq![StmtV::If { cond, then_body: t, else_body: e }]),
                    _ => None,
                }
            },
            _ => None,
        }
    }
}

/// Splitting off the first statement.
pub proof fn paths_first(b: Block)
    requires
        b.len() > 0,
    ensures
        paths(b) == stmt_paths(b[0]) * paths(tail_of(b)),
{
    assert(b =~= seq![b[0]] + tail_of(b));
    paths_concat(seq![b[0]], tail_of(b));
    paths_one(b[0]);
}

pub proof fn deep_first(w: spec_fn(StmtV) -> nat, b: Block)
    requires
        b.len() > 0,
    ensures
        deep(w, b) == deep_stmt(w, b[0]) + deep(w, tail_of(b)),
{
    deep_at(w, b, 0);
    assert(b.subrange(0, 0) =~= Seq::<StmtV>::empty());
}

/// Absorbing what follows makes the measure smaller, if there is a jump to take out.
pub proof fn absorbed_paths(b: Block, l: Text, cont: Block)
    ensures
        absorbed(b, l, cont) matches Some(o) ==> {
            &&& paths(o) <= paths(b) * paths(cont)
            &&& (gotos(b, l) > 0 ==> paths(o) < paths(b) * paths(cont))
        },
    decreases b,
{
    let c = paths(cont);
    paths_positive(cont);
    if b.len() == 0 {
        assert(1 * c == c) by (nonlinear_arith);
    } else {
        let rest = tail_of(b);
        let x = stmt_paths(b[0]);
        let r = paths(rest);
        paths_first(b);
        deep_first(goto_to(l), b);
        paths_positive(rest);
        stmt_paths_positive(b[0]);
        if deep_stmt(goto_to(l), b[0]) == 0 {
            absorbed_paths(b.subrange(1, b.len() as int), l, cont);
            if let Some(o) = absorbed(rest, l, cont) {
                paths_concat(seq![b[0]], o);
                paths_one(b[0]);
                let y = paths(o);
                assert(x * y <= (x * r) * c) by (nonlinear_arith)
                    requires
                        y <= r * c,
                ;
                if gotos(rest, l) > 0 {
                    assert(x * y < (x * r) * c) by (nonlinear_arith)
                        requires
                            y < r * c,
                            x >= 1,
                    ;
                }
            }
        } else {
            match b[0] {
                StmtV::If { cond, then_body, else_body } => {
                    let next = appended(rest, cont);
                    absorbed_paths(then_body, l, next);
                    absorbed_paths(else_body, l, next);
                    appended_paths(rest, cont);
                    if let (Some(t), Some(e)) = (absorbed(then_body, l, next), absorbed(else_body, l, next)) {
                        let s = StmtV::If { cond, then_body: t, else_body: e };
                        paths_one(s);
                        paths_positive(next);
                        if_paths(paths(then_body), paths(else_body), paths(next), r, c, paths(t), paths(e));
                        assert(gotos(then_body, l) > 0 || gotos(else_body, l) > 0);
                    }
                },
                _ => {
                    assert(1 < (x * r) * c) by (nonlinear_arith)
                        requires
                            x >= 2,
                            r >= 1,
                            c >= 1,
                    ;
                },
            }
        }
    }
}

proof fn if_paths(a: nat, b: nat, n: nat, r: nat, c: nat, t: nat, e: nat)
    requires
        n <= r * c,
        n >= 1,
        r >= 1,
        c >= 1,
        t <= a * n,
        e <= b * n,
    ensures
        t + e + 1 <= ((a + b + 1) * r) * c,
        t < a * n || e < b * n ==> t + e + 1 < ((a + b + 1) * r) * c,
{
    let m = r * c;
    assert(((a + b + 1) * r) * c == a * m + b * m + m) by (nonlinear_arith)
        requires
            m == r * c,
    ;
    assert(a * n <= a * m && b * n <= b * m) by (nonlinear_arith)
        requires
            n <= m,
    ;
    assert(m >= 1) by (nonlinear_arith)
        requires
            m == r * c,
            r >= 1,
            c >= 1,
    ;
}

/// `b` followed by `cont`, where a jump to `l` skips `cont`.
pub fn absorb_join_in_block(b: &[Stmt], l: &str, cont: &[Stmt]) -> (r: Option<Vec<Stmt>>)
    ensures
        opt_block(r) == absorbed(block(b@), l@, block(cont@)),
    decreases b@,
{
    let n: usize = b.len();
    if n == 0 {
        return Some(clone_block(cont));
    }
    let first = &b[0];
    assert(block(b@)[0] == first@);
    let rest = range(b, 1, n);
    if !occurs_in_stmt(&GotoTo { label: l }, first) {
        return match absorb_join_in_block(rest, l, cont) {
            Some(o) => Some(concat(one(first.clone()), o)),
            None => None,
        };
    }
    match first {
        Stmt::Goto(_) => Some(crate::ast::none()),
        Stmt::If { cond, then_body, else_body } => {
            let next = append_blocks(rest, cont);
            match (absorb_join_in_block(then_body, l, &next), absorb_join_in_block(else_body, l, &next)) {
                (Some(t), Some(e)) => Some(
                    one(Stmt::If { cond: cond.clone(), then_body: t, else_body: e }),
                ),
                _ => None,
            }
        },
        _ => None,
    }
}

/// The `if` statement `s` followed by `cont`, where a jump to `l` skips `cont`.
pub open spec fn absorbed_stmt(s: StmtV, l: Text, cont: Block) -> Option<StmtV> {
    match s {
        StmtV::If { cond, then_body, else_body } => match (
            absorbed(then_body, l, cont),
            absorbed(else_body, l, cont),
        ) {
            (Some(t), Some(e)) => Some(StmtV::If { cond, then_body: t, else_body: e }),
            _ => None,
        },
        _ => None,
    }
}

pub proof fn absorbed_stmt_paths(s: StmtV, l: Text, cont: Block)
    requires
        deep_stmt(goto_to(l), s) > 0,
    ensures
        absorbed_stmt(s, l, cont) matches Some(o) ==> stmt_paths(o) < stmt_paths(s) * paths(cont),
{
    if let StmtV::If { cond, then_body, else_body } = s {
        absorbed_paths(then_body, l, cont);
        absorbed_paths(else_body, l, cont);
        paths_positive(cont);
        assert(gotos(then_body, l) > 0 || gotos(else_body, l) > 0);
        if let (Some(t), Some(e)) = (absorbed(then_body, l, cont), absorbed(else_body, l, cont)) {
            let c = paths(cont);
            let x = paths(then_body);
            let y = paths(else_body);
            assert((x + y + 1) * c == x * c + y * c + c) by (nonlinear_arith);
        }
    }
}

/// The `if` statement `s` followed by `cont`, where a jump to `l` skips `cont`.
pub fn absorb_join_in_stmt(s: &Stmt, l: &str, cont: &[Stmt]) -> (r: Option<Stmt>)
    ensures
        match r {
            Some(t) => absorbed_stmt(s@, l@, block(cont@)) == Some(t@),
            None => absorbed_stmt(s@, l@, block(cont@)) is None,
        },
{
    match s {
        Stmt::If { cond, then_body, else_body } => match (
            absorb_join_in_block(then_body, l, cont),
            absorb_join_in_block(else_body, l, cont),
        ) {
            (Some(t), Some(e)) => Some(Stmt::If { cond: cond.clone(), then_body: t, else_body: e }),
            _ => None,
        },
        _ => None,
    }
}

/// One branch on the way to [`routed`].
pub open spec fn routed_branch(b: Block, l: Text, target: Block, cont: Block) -> Option<Block>
    decreases b, 1nat,
{
    if gotos(b, l) > 0 {
        routed(b, l, target, cont)
    } else {
        Some(appended(b, cont))
    }
}

/// `b` followed by `cont`, where a jump to `l` runs `target` instead of what would follow.
pub open spec fn routed(b: Block, l: Text, target: Block, cont: Block) -> Option<Block>
    decreases b, 0nat,
{
    if b.len() == 0 {
        Some(cont)
    } else if deep_stmt(goto_to(l), b[0]) == 0 {
        match routed(b.subrange(1, b.len() as int), l, target, cont) {
            Some(rest) => Some(seq![b[0]] + rest),
            None => None,
        }
    } else {
        match b[0] {
            StmtV::Goto(_) => Some(target),
            StmtV::If { cond, then_body, else_body } => {
                let next = appended(tail_of(b), cont);
                match (routed_branch(then_body, l, target, next), routed_branch(else_body, l, target, next)) {
                    (Some(t), Some(e)) => Some(seq![StmtV::If { cond, then_body: t, else_body: e }]),
                    _ => None,
                }
            },
            _ => None,
        }
    }
}

fn route_branch(b: &[Stmt], l: &str, target: &[Stmt], cont: &[Stmt]) -> (r: Option<Vec<Stmt>>)
    ensures
        opt_block(r) == routed_branch(block(b@), l@, block(target@), block(cont@)),
    decreases b@, 1nat,
{
    if has_goto(b, l) {
        route_gotos_to_target_body(b, l, target, cont)
    } else {
        Some(append_blocks(b, cont))
    }
}

/// `b` followed by `cont`, where a jump to `l` runs `target` instead of what would follow.
pub fn route_gotos_to_target_body(b: &[Stmt], l: &str, target: &[Stmt], cont: &[Stmt]) -> (r: Option<
    Vec<Stmt>,
>)
    ensures
        opt_block(r) == routed(block(b@), l@, block(target@), block(cont@)),
    decreases b@, 0nat,
{
    let n: usize = b.len();
    if n == 0 {
        return Some(clone_block(cont));
    }
    let first = &b[0];
    assert(block(b@)[0] == first@);
    let rest = range(b, 1, n);
    if !occurs_in_stmt(&GotoTo { label: l }, first) {
        return match route_gotos_to_target_body(rest, l, target, cont) {
            Some(o) => Some(concat(one(first.clone()), o)),
            None => None,
        };
    }
    match first {
        Stmt::Goto(_) => Some(clone_block(target)),
        Stmt::If { cond, then_body, else_body } => {
            let next = append_blocks(rest, cont);
            match (route_branch(then_body, l, target, &next), route_branch(else_body, l, target, &next)) {
                (Some(t), Some(e)) => Some(
                    one(Stmt::If { cond: cond.clone(), then_body: t, else_body: e }),
                ),
                _ => None,
            }
        },
        _ => None,
    }
}

/// Counts every statement once.
pub open spec fn each() -> spec_fn(StmtV) -> nat {
    |s: StmtV| 1
}

pub proof fn appended_size(first: Block, second: Block)
    ensures
        deep(each(), appended(first, second)) <= deep(each(), first) + deep(each(), second),
{
    deep_concat(each(), first, second);
}

/// One branch on the way to [`routed_deep`].
pub open spec fn routed_path(b: Block, l: Text, target: Block) -> Option<Block>
    decreases deep(each(), b), 1nat,
{
    if gotos(b, l) > 0 {
        proof {
            assert(deep(each(), Seq::<StmtV>::empty()) == 0);
        }
        routed_deep(b, l, target, Seq::empty())
    } else {
        Some(b)
    }
}

/// As [`routed`], where jumps are also looked for in what follows.
pub open spec fn routed_deep(b: Block, l: Text, target: Block, cont: Block) -> Option<Block>
    decreases deep(each(), b) + deep(each(), cont), 0nat,
{
    if b.len() == 0 {
        Some(cont)
    } else if deep_stmt(goto_to(l), b[0]) == 0 {
        proof {
            deep_first(each(), b);
        }
        match routed_deep(tail_of(b), l, target, cont) {
            Some(rest) => Some(seq![b[0]] + rest),
            None => None,
        }
    } else {
        match b[0] {
            StmtV::Goto(_) => Some(target),
            StmtV::If { cond, then_body, else_body } => {
                let next = appended(tail_of(b), cont);
                proof {
                    deep_first(each(), b);
                    appended_size(tail_of(b), cont);
                    appended_size(then_body, next);
                    appended_size(else_body, next);
                }
                match (
                    routed_path(appended(then_body, next), l, target),
                    routed_path(appended(else_body, next), l, target),
                ) {
                    (Some(t), Some(e)) => Some(seq![StmtV::If { cond, then_body: t, else_body: e }]),
                    _ => None,
                }
            },
            _ => None,
        }
    }
}

fn route_path(b: Vec<Stmt>, l: &str, target: &[Stmt]) -> (r: Option<Vec<Stmt>>)
    ensures
        opt_block(r) == routed_path(block(b@), l@, block(target@)),
    decreases deep(each(), block(b@)), 1nat,
{
    if has_goto(&b, l) {
        let nothing: Vec<Stmt> = crate::ast::none();
        assert(deep(each(), block(nothing@)) == 0);
        route_gotos_to_target_body_deep(&b, l, target, &nothing)
    } else {
        Some(b)
    }
}

/// As [`route_gotos_to_target_body`], where jumps are also looked for in what follows.
pub fn route_gotos_to_target_body_deep(b: &[Stmt], l: &str, target: &[Stmt], cont: &[Stmt]) -> (r: Option<
    Vec<Stmt>,
>)
    ensures
        opt_block(r) == routed_deep(block(b@), l@, block(target@), block(cont@)),
    decreases deep(each(), block(b@)) + deep(each(), block(cont@)), 0nat,
{
    let n: usize = b.len();
    if n == 0 {
        return Some(clone_block(cont));
    }
    let first = &b[0];
    assert(block(b@)[0] == first@);
    let rest = range(b, 1, n);
    proof {
        deep_first(each(), block(b@));
    }
    if !occurs_in_stmt(&GotoTo { label: l }, first) {
        return match route_gotos_to_target_body_deep(rest, l, target, cont) {
            Some(o) => Some(concat(one(first.clone()), o)),
            None => None,
        };
    }
    match first {
        Stmt::Goto(_) => Some(clone_block(target)),
        Stmt::If { cond, then_body, else_body } => {
            let next = append_blocks(rest, cont);
            let then_path = append_blocks(then_body, &next);
            let else_path = append_blocks(else_body, &next);
            proof {
                appended_size(block(rest@), block(cont@));
                appended_size(block(then_body@), block(next@));
                appended_size(block(else_body@), block(next@));
            }
            match (route_path(then_path, l, target), route_path(else_path, l, target)) {
                (Some(t), Some(e)) => Some(
                    one(Stmt::If { cond: cond.clone(), then_body: t, else_body: e }),
                ),
                _ => None,
            }
        },
        _ => None,
    }
}

/// `s`, as an assignment if it is a `local` and one of its names is read in `following`.
pub open spec fn widened_stmt(s: StmtV, following: Block) -> StmtV {
    match s {
        StmtV::Local { names, values } => if reads_none(names, following) {
            s
        } else {
            StmtV::Assign { targets: Seq::new(names.len(), |i: int| ExprV::Var(names[i])), values }
        },
        _ => s,
    }
}

/// `b` with the `local`s that are read in `following` turned into assignments.
pub open spec fn widened(b: Block, following: Block) -> Block {
    Seq::new(b.len(), |i: int| widened_stmt(b[i], following))
}

/// Widening changes no measure that `local`s and assignments share.
pub proof fn widened_paths(b: Block, following: Block)
    ensures
        paths(widened(b, following)) == paths(b),
    decreases b.len(),
{
    if b.len() > 0 {
        let w = widened(b, following);
        widened_paths(b.drop_last(), following);
        assert(w.drop_last() =~= widened(b.drop_last(), following));
        assert(w.last() == widened_stmt(b.last(), following));
        assert(stmt_paths(w.last()) == stmt_paths(b.last()));
        assert(paths(w) == paths(w.drop_last()) * stmt_paths(w.last()));
    }
}

pub proof fn widened_keeps(w: spec_fn(StmtV) -> nat, b: Block, following: Block)
    requires
        forall|s: StmtV| s is Local || s is Assign ==> #[trigger] w(s) == 0,
    ensures
        deep(w, widened(b, following)) == deep(w, b),
    decreases b.len(),
{
    if b.len() > 0 {
        let v = widened(b, following);
        widened_keeps(w, b.drop_last(), following);
        assert(v.drop_last() =~= widened(b.drop_last(), following));
        assert(v.last() == widened_stmt(b.last(), following));
        let s = b.last();
        let t = v.last();
        if s is Local {
            assert(w(s) == 0);
            assert(w(t) == 0);
        }
        assert(deep_stmt(w, t) == deep_stmt(w, s));
        assert(deep(w, v) == deep(w, v.drop_last()) + deep_stmt(w, t));
    }
}

/// A copy of `b` with the `local`s that are read in `following` turned into assignments.
pub fn widen_locals_read_after_join(b: &[Stmt], following: &[Stmt]) -> (r: Vec<Stmt>)
    ensures
        block(r@) == widened(block(b@), block(following@)),
{
    let mut out: Vec<Stmt> = Vec::new();
    let mut i: usize = 0;
    while i < b.len()
        invariant
            i <= b.len(),
            out.len() == i,
            forall|j: int| 0 <= j < i ==> (#[trigger] out@[j])@ == widened_stmt(b@[j]@, block(following@)),
        decreases b.len() - i,
    {
        let s = match &b[i] {
            Stmt::Local { names, values } => if names_unread(names, following) {
                b[i].clone()
            } else {
                Stmt::Assign { targets: vars_of(names), values: clone_exprs(values) }
            },
            _ => b[i].clone(),
        };
        out.push(s);
        i += 1;
    }
    assert(block(out@) =~= widened(block(b@), block(following@)));
    out
}

/// The names as expressions.
fn vars_of(names: &[String]) -> (r: Vec<Expr>)
    ensures
        crate::ast::exprs(r@) == Seq::new(texts(names@).len(), |i: int| ExprV::Var(texts(names@)[i])),
{
    let mut out: Vec<Expr> = Vec::new();
    let mut i: usize = 0;
    while i < names.len()
        invariant
            i <= names.len(),
            out.len() == i,
            forall|j: int| 0 <= j < i ==> (#[trigger] out@[j])@ == ExprV::Var(names@[j]@),
        decreases names.len() - i,
    {
        out.push(Expr::Var(names[i].clone()));
        i += 1;
    }
    assert(crate::ast::exprs(out@) =~= Seq::new(
        texts(names@).len(),
        |i: int| ExprV::Var(texts(names@)[i]),
    ));
    out
}

} // verus!
