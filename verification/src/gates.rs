//! Jumps into the branches of later `if` statements.
use vstd::prelude::*;

use crate::ast::{
    block, clone_block, concat, copy_range, if_then, is_label_of, loop_body, one, opt_block, range, spec_if,
    spec_splice, splice, Block, Expr, ExprV, Stmt, StmtV,
};
use crate::conditions::{binary, binary_expr, cond_goto, conditional_goto_expr, direct_local_scope_safe, scope_safe};
use crate::jumps::{block_ends_terminated, has_goto_in_nested_loop, jumps_from_loop, only, terminated};
use crate::labeled_bodies::{all_equal, begins_with, blocks, bodies_all_equal, led_by, rest_of};
use crate::paths::{
    paths, paths_concat, paths_one, paths_positive, paths_range, paths_range_one, paths_splice, stmt_paths,
    stmt_paths_positive, Paths,
};
use crate::query::{
    bit, goto_names_members, goto_to, gotos, gotos_only_at, gotos_only_in, has_goto, has_jumps, has_label, label_of,
    labels, one_if, opt_index, LabelOf, LabelOrGoto,
};
use crate::routing::{
    appended, appended_paths, deep_first, paths_first, route_gotos_to_target_body, routed, routed_branch, tail_of,
    widen_locals_read_after_join, widened, widened_paths,
};
use crate::rules::{everywhere, rewrite_everywhere, Either, LabelRule, Measure, PerLabel, Rule, Scan};
use crate::text::Text;
use crate::weight::{deep, deep_one, deep_stmt, occurs, occurs_in_stmt, Weigh};

verus! {

/// Weighs every label.
pub open spec fn any_label() -> spec_fn(StmtV) -> nat {
    |s: StmtV| one_if(s is Label)
}

/// Counts labels.
pub struct AnyLabel;

impl Weigh for AnyLabel {
    open spec fn weight(&self) -> spec_fn(StmtV) -> nat {
        any_label()
    }

    fn weigh(&self, s: &Stmt, cap: usize) -> (r: usize) {
        bit(matches!(s, Stmt::Label(_)), cap)
    }
}

/// A guarded jump is an `if`, so it counts at least three.
proof fn guard_paths(s: StmtV)
    requires
        cond_goto(s, None) is Some,
    ensures
        stmt_paths(s) >= 3,
{
    if let StmtV::If { then_body, else_body, .. } = s {
        paths_positive(then_body);
        paths_positive(else_body);
    }
}

/// `a or b`
pub open spec fn either_of(a: ExprV, b: ExprV) -> ExprV {
    binary("or"@, a, b)
}

// ---- the next statement ------------------------------------------------------------------------

/// `if c then goto L end; if d then ::L:: body end` becomes `if c or d then body end`.
pub struct IfGate;

impl Rule for IfGate {
    type M = Paths;

    open spec fn at(&self, b: Block, i: int) -> Option<Block> {
        if i + 1 >= b.len() {
            None
        } else {
            match (cond_goto(b[i], None), b[i + 1]) {
                (
                    Some((c, l)),
                    StmtV::If { cond, then_body, else_body },
                ) => if else_body.len() > 0 || !led_by(then_body, l) || deep(any_label(), rest_of(then_body)) > 0 {
                    None
                } else {
                    Some(spec_splice(b, i, i + 2, only(spec_if(either_of(c, cond), rest_of(then_body)))))
                },
                _ => None,
            }
        }
    }

    proof fn shrinks_at(&self, b: Block, i: int) {
        if i + 1 < b.len() {
            if let (Some((c, l)), StmtV::If { cond, then_body, else_body }) = (cond_goto(b[i], None), b[i + 1]) {
                if else_body.len() == 0 && led_by(then_body, l) {
                    let s = spec_if(either_of(c, cond), rest_of(then_body));
                    guard_paths(b[i]);
                    paths_first(then_body);
                    assert(tail_of(then_body) =~= rest_of(then_body));
                    assert(paths(else_body) == 1);
                    assert(paths(Seq::<StmtV>::empty()) == 1);
                    paths_one(s);
                    paths_range(b, i, i + 1, i + 2);
                    paths_range_one(b, i);
                    paths_range_one(b, i + 1);
                    let p = paths(rest_of(then_body));
                    let q = stmt_paths(b[i]);
                    paths_positive(rest_of(then_body));
                    assert(p + 2 < q * (2 * p + 2)) by (nonlinear_arith)
                        requires
                            q >= 3,
                            p >= 1,
                    ;
                    paths_splice(b, i, i + 2, only(s));
                }
            }
        }
    }

    fn try_at(&self, b: &Vec<Stmt>, i: usize) -> (r: Option<Vec<Stmt>>) {
        let n: usize = b.len();
        if n - i < 2 {
            return None;
        }
        match conditional_goto_expr(&b[i], None) {
            None => None,
            Some((c, l)) => match &b[i + 1] {
                Stmt::If { cond, then_body, else_body } => {
                    assert(block(else_body@).len() == else_body@.len());
                    if else_body.len() > 0 || !begins_with(then_body, &l) {
                        return None;
                    }
                    assert(block(then_body@).len() == then_body@.len());
                    let rest = range(then_body, 1, then_body.len());
                    if occurs(&AnyLabel, rest) {
                        return None;
                    }
                    let body = clone_block(rest);
                    Some(splice(b, i, i + 2, one(if_then(binary_expr("or", c, cond.clone()), body))))
                },
                _ => None,
            },
        }
    }
}

/// `b` without the labels `l`, with `c` added to the conditions on the way to them if `route`
/// holds. `None` where the label cannot be reached that way.
pub open spec fn forced(b: Block, l: Text, c: ExprV, route: bool) -> Option<Block>
    decreases b,
{
    if b.len() == 0 {
        Some(Seq::empty())
    } else {
        match (forced(b.drop_last(), l, c, route), forced_stmt(b.last(), l, c, route)) {
            (Some(x), Some(y)) => Some(x + y),
            _ => None,
        }
    }
}

pub open spec fn forced_stmt(s: StmtV, l: Text, c: ExprV, route: bool) -> Option<Block>
    decreases s,
{
    match s {
        StmtV::Label(m) => if m == l {
            Some(Seq::empty())
        } else {
            Some(seq![s])
        },
        StmtV::If { cond, then_body, else_body } => {
            let here = route && labels(then_body, l) > 0;
            if route && labels(else_body, l) > 0 && !here {
                None
            } else {
                match (forced(then_body, l, c, here), forced(else_body, l, c, false)) {
                    (Some(t), Some(e)) => Some(
                        seq![
                            StmtV::If {
                                cond: if here {
                                    either_of(c, cond)
                                } else {
                                    cond
                                },
                                then_body: t,
                                else_body: e,
                            },
                        ],
                    ),
                    _ => None,
                }
            }
        },
        StmtV::Loop { body, .. } => if labels(body, l) > 0 {
            None
        } else {
            Some(seq![s])
        },
        _ => Some(seq![s]),
    }
}

proof fn forced_paths(b: Block, l: Text, c: ExprV, route: bool)
    ensures
        forced(b, l, c, route) matches Some(o) ==> paths(o) <= paths(b),
    decreases b,
{
    if b.len() > 0 {
        forced_paths(b.drop_last(), l, c, route);
        forced_stmt_paths(b.last(), l, c, route);
        if let (Some(x), Some(y)) = (forced(b.drop_last(), l, c, route), forced_stmt(b.last(), l, c, route)) {
            paths_concat(x, y);
            let p = paths(b.drop_last());
            let q = stmt_paths(b.last());
            let u = paths(x);
            let v = paths(y);
            assert(u * v <= p * q) by (nonlinear_arith)
                requires
                    u <= p,
                    v <= q,
            ;
        }
    }
}

proof fn forced_stmt_paths(s: StmtV, l: Text, c: ExprV, route: bool)
    ensures
        forced_stmt(s, l, c, route) matches Some(o) ==> paths(o) <= stmt_paths(s),
    decreases s,
{
    paths_one(s);
    assert(paths(Seq::<StmtV>::empty()) == 1);
    if let StmtV::If { cond, then_body, else_body } = s {
        let here = route && labels(then_body, l) > 0;
        forced_paths(then_body, l, c, here);
        forced_paths(else_body, l, c, false);
        if let (Some(t), Some(e)) = (forced(then_body, l, c, here), forced(else_body, l, c, false)) {
            paths_one(
                StmtV::If {
                    cond: if here {
                        either_of(c, cond)
                    } else {
                        cond
                    },
                    then_body: t,
                    else_body: e,
                },
            );
        }
    }
}

fn force_entry_into_labeled_block(b: &[Stmt], l: &str, c: &Expr, route: bool) -> (r: Option<Vec<Stmt>>)
    ensures
        opt_block(r) == forced(block(b@), l@, c@, route),
    decreases b@,
{
    let n: usize = b.len();
    if n == 0 {
        return Some(crate::ast::none());
    }
    assert(block(b@).last() == b@[n - 1]@);
    assert(block(b@.subrange(0, n - 1)) =~= block(b@).drop_last());
    let front = match force_entry_into_labeled_block(range(b, 0, n - 1), l, c, route) {
        Some(f) => f,
        None => {
            return None;
        },
    };
    match force_entry_into_stmt(&b[n - 1], l, c, route) {
        Some(back) => Some(concat(front, back)),
        None => None,
    }
}

fn force_entry_into_stmt(s: &Stmt, l: &str, c: &Expr, route: bool) -> (r: Option<Vec<Stmt>>)
    ensures
        opt_block(r) == forced_stmt(s@, l@, c@, route),
    decreases s,
{
    if is_label_of(s, l) {
        return Some(crate::ast::none());
    }
    if let Stmt::If { cond, then_body, else_body } = s {
        let here = route && has_label(then_body, l);
        if route && !here && has_label(else_body, l) {
            return None;
        }
        match (
            force_entry_into_labeled_block(then_body, l, c, here),
            force_entry_into_labeled_block(else_body, l, c, false),
        ) {
            (Some(t), Some(e)) => {
                let d = if here {
                    binary_expr("or", c.clone(), cond.clone())
                } else {
                    cond.clone()
                };
                Some(one(Stmt::If { cond: d, then_body: t, else_body: e }))
            },
            _ => None,
        }
    } else {
        match loop_body(s) {
            Some(body) => if has_label(body, l) {
                None
            } else {
                Some(one(s.clone()))
            },
            None => Some(one(s.clone())),
        }
    }
}

/// The `if` statement `s` entered at the label `l` in its first branch where `c` holds.
pub open spec fn forced_if(s: StmtV, l: Text, c: ExprV) -> Option<StmtV> {
    match s {
        StmtV::If { cond, then_body, else_body } => if labels(then_body, l) == 0 {
            None
        } else {
            match (forced(then_body, l, c, true), forced(else_body, l, c, false)) {
                (Some(t), Some(e)) => Some(
                    StmtV::If { cond: either_of(c, cond), then_body: t, else_body: e },
                ),
                _ => None,
            }
        },
        _ => None,
    }
}

fn force_entry_into_labeled_if(s: &Stmt, l: &str, c: &Expr) -> (r: Option<Stmt>)
    ensures
        match r {
            Some(t) => forced_if(s@, l@, c@) == Some(t@),
            None => forced_if(s@, l@, c@) is None,
        },
{
    match s {
        Stmt::If { cond, then_body, else_body } => {
            if !has_label(then_body, l) {
                return None;
            }
            match (
                force_entry_into_labeled_block(then_body, l, c, true),
                force_entry_into_labeled_block(else_body, l, c, false),
            ) {
                (Some(t), Some(e)) => Some(
                    Stmt::If { cond: binary_expr("or", c.clone(), cond.clone()), then_body: t, else_body: e },
                ),
                _ => None,
            }
        },
        _ => None,
    }
}

/// A guarded jump into a nest of branches of the next `if`: the guard joins the conditions on the
/// way.
pub struct IfChain;

impl Rule for IfChain {
    type M = Paths;

    open spec fn at(&self, b: Block, i: int) -> Option<Block> {
        if i + 1 >= b.len() {
            None
        } else {
            match cond_goto(b[i], None) {
                None => None,
                Some((c, l)) => match forced_if(b[i + 1], l, c) {
                    None => None,
                    Some(s) => if jumps_from_loop(only(b[i]), l) || has_jumps(only(s)) {
                        None
                    } else {
                        Some(spec_splice(b, i, i + 2, only(s)))
                    },
                },
            }
        }
    }

    proof fn shrinks_at(&self, b: Block, i: int) {
        if i + 1 < b.len() {
            if let Some((c, l)) = cond_goto(b[i], None) {
                if let Some(s) = forced_if(b[i + 1], l, c) {
                    if let StmtV::If { cond, then_body, else_body } = b[i + 1] {
                        forced_paths(then_body, l, c, true);
                        forced_paths(else_body, l, c, false);
                        guard_paths(b[i]);
                        paths_one(s);
                        paths_range(b, i, i + 1, i + 2);
                        paths_range_one(b, i);
                        paths_range_one(b, i + 1);
                        stmt_paths_positive(b[i + 1]);
                        let p = stmt_paths(b[i]);
                        let q = stmt_paths(b[i + 1]);
                        assert(q < p * q) by (nonlinear_arith)
                            requires
                                p >= 3,
                                q >= 2,
                        ;
                        paths_splice(b, i, i + 2, only(s));
                    }
                }
            }
        }
    }

    fn try_at(&self, b: &Vec<Stmt>, i: usize) -> (r: Option<Vec<Stmt>>) {
        let n: usize = b.len();
        if n - i < 2 {
            return None;
        }
        match conditional_goto_expr(&b[i], None) {
            None => None,
            Some((c, l)) => {
                let here = range(b, i, i + 1);
                assert(block(here@) =~= only(block(b@)[i as int]));
                match force_entry_into_labeled_if(&b[i + 1], &l, &c) {
                    None => None,
                    Some(s) => {
                        let mid = one(s);
                        if has_goto_in_nested_loop(here, &l) || occurs(&LabelOrGoto, &mid) {
                            None
                        } else {
                            Some(splice(b, i, i + 2, mid))
                        }
                    },
                }
            },
        }
    }
}

// ---- a later chain of labelled branches ----------------------------------------------------------

/// The branches of an `if`/`elseif` chain that begin with the label `l`. `None` where the label
/// stands elsewhere in it.
pub open spec fn chain_bodies(s: StmtV, l: Text) -> Option<Seq<Block>>
    decreases s,
{
    match s {
        StmtV::If { then_body, else_body, .. } => if !led_by(then_body, l) && labels(then_body, l) > 0 {
            None
        } else {
            let own = if led_by(then_body, l) {
                seq![rest_of(then_body)]
            } else {
                Seq::empty()
            };
            if else_body.len() == 1 && else_body[0] is If {
                match chain_bodies(else_body[0], l) {
                    Some(more) => Some(own + more),
                    None => None,
                }
            } else if labels(else_body, l) > 0 {
                None
            } else {
                Some(own)
            }
        },
        _ => None,
    }
}

/// The chain without the leading labels `l` of its branches.
pub open spec fn chain_stripped(s: StmtV, l: Text) -> Option<StmtV>
    decreases s,
{
    match s {
        StmtV::If { cond, then_body, else_body } => if !led_by(then_body, l) && labels(then_body, l) > 0 {
            None
        } else {
            let t = if led_by(then_body, l) {
                rest_of(then_body)
            } else {
                then_body
            };
            if else_body.len() == 1 && else_body[0] is If {
                match chain_stripped(else_body[0], l) {
                    Some(e) => Some(StmtV::If { cond, then_body: t, else_body: seq![e] }),
                    None => None,
                }
            } else if labels(else_body, l) > 0 {
                None
            } else {
                Some(StmtV::If { cond, then_body: t, else_body })
            }
        },
        _ => None,
    }
}

/// The common body of the branches that begin with `l`, of which there are at least two, and the
/// chain without the labels.
pub open spec fn chain_split(s: StmtV, l: Text) -> Option<(Block, StmtV)> {
    match (chain_bodies(s, l), chain_stripped(s, l)) {
        (Some(bs), Some(t)) => if bs.len() < 2 || bs[0].len() == 0 || has_jumps(bs[0]) || !all_equal(bs) {
            None
        } else {
            Some((bs[0], t))
        },
        _ => None,
    }
}

proof fn led_paths(body: Block, l: Text)
    requires
        led_by(body, l),
    ensures
        paths(rest_of(body)) < paths(body),
{
    paths_first(body);
    assert(tail_of(body) =~= rest_of(body));
    paths_positive(rest_of(body));
    let p = paths(rest_of(body));
    assert(stmt_paths(body[0]) == 2);
    assert(p < 2 * p);
}

proof fn chain_stripped_paths(s: StmtV, l: Text)
    ensures
        chain_stripped(s, l) matches Some(t) ==> stmt_paths(t) <= stmt_paths(s),
    decreases s,
{
    if let StmtV::If { cond, then_body, else_body } = s {
        if led_by(then_body, l) {
            led_paths(then_body, l);
        }
        if else_body.len() == 1 && else_body[0] is If {
            chain_stripped_paths(else_body[0], l);
            if let Some(e) = chain_stripped(else_body[0], l) {
                paths_one(e);
                paths_one(else_body[0]);
                assert(else_body =~= seq![else_body[0]]);
            }
        }
    }
}

proof fn chain_bodies_paths(s: StmtV, l: Text, k: int)
    ensures
        chain_bodies(s, l) matches Some(bs) ==> (0 <= k < bs.len() ==> paths(bs[k]) < stmt_paths(s)),
    decreases s,
{
    if let StmtV::If { cond, then_body, else_body } = s {
        if led_by(then_body, l) {
            led_paths(then_body, l);
        }
        let m = if led_by(then_body, l) {
            1int
        } else {
            0
        };
        if else_body.len() == 1 && else_body[0] is If {
            chain_bodies_paths(else_body[0], l, k - m);
            paths_one(else_body[0]);
            assert(else_body =~= seq![else_body[0]]);
        }
    }
}

/// `Some` of the last statement, where `b` is one `if`.
fn as_single_if(b: &Vec<Stmt>) -> (r: Option<&Stmt>)
    ensures
        match r {
            Some(s) => block(b@).len() == 1 && s@ is If && block(b@)[0] == s@ && b@[0] == *s,
            None => !(block(b@).len() == 1 && block(b@)[0] is If),
        },
        r matches Some(s) ==> decreases_to!(b@ => s),
{
    assert(block(b@).len() == b@.len());
    if b.len() == 1 {
        assert(block(b@)[0] == b@[0]@);
        if matches!(b[0], Stmt::If { .. }) {
            let s = &b[0];
            assert(decreases_to!(b@ => b@[0]));
            return Some(s);
        }
    }
    None
}

fn collect_chain_bodies(s: &Stmt, l: &str) -> (r: Option<Vec<Vec<Stmt>>>)
    ensures
        match r {
            Some(bs) => chain_bodies(s@, l@) == Some(blocks(bs@)),
            None => chain_bodies(s@, l@) is None,
        },
    decreases s,
{
    match s {
        Stmt::If { then_body, else_body, .. } => {
            let led = begins_with(then_body, l);
            if !led && has_label(then_body, l) {
                return None;
            }
            let mut out: Vec<Vec<Stmt>> = Vec::new();
            let ghost own = if led {
                seq![rest_of(block(then_body@))]
            } else {
                Seq::<Block>::empty()
            };
            if led {
                assert(block(then_body@).len() == then_body@.len());
                out.push(copy_range(then_body, 1, then_body.len()));
            }
            assert(blocks(out@) =~= own);
            match as_single_if(else_body) {
                Some(next) => match collect_chain_bodies(next, l) {
                    Some(mut more) => {
                        let ghost o = out@;
                        let ghost m = more@;
                        out.append(&mut more);
                        assert(blocks(out@) =~= blocks(o) + blocks(m));
                        Some(out)
                    },
                    None => None,
                },
                None => if has_label(else_body, l) {
                    None
                } else {
                    Some(out)
                },
            }
        },
        _ => None,
    }
}

fn strip_chain(s: &Stmt, l: &str) -> (r: Option<Stmt>)
    ensures
        match r {
            Some(t) => chain_stripped(s@, l@) == Some(t@),
            None => chain_stripped(s@, l@) is None,
        },
    decreases s,
{
    match s {
        Stmt::If { cond, then_body, else_body } => {
            let led = begins_with(then_body, l);
            if !led && has_label(then_body, l) {
                return None;
            }
            let t = if led {
                assert(block(then_body@).len() == then_body@.len());
                copy_range(then_body, 1, then_body.len())
            } else {
                clone_block(then_body)
            };
            match as_single_if(else_body) {
                Some(next) => match strip_chain(next, l) {
                    Some(e) => Some(Stmt::If { cond: cond.clone(), then_body: t, else_body: one(e) }),
                    None => None,
                },
                None => if has_label(else_body, l) {
                    None
                } else {
                    Some(Stmt::If { cond: cond.clone(), then_body: t, else_body: clone_block(else_body) })
                },
            }
        },
        _ => None,
    }
}

fn duplicate_labeled_if_chain_body_and_strip(s: &Stmt, l: &str) -> (r: Option<(Vec<Stmt>, Stmt)>)
    ensures
        match r {
            Some((x, t)) => chain_split(s@, l@) == Some((block(x@), t@)),
            None => chain_split(s@, l@) is None,
        },
{
    match (collect_chain_bodies(s, l), strip_chain(s, l)) {
        (Some(bs), Some(t)) => {
            if bs.len() < 2 {
                return None;
            }
            let first = &bs[0];
            assert(blocks(bs@)[0] == block(first@));
            assert(block(first@).len() == first@.len());
            if first.len() == 0 || occurs(&LabelOrGoto, first) || !bodies_all_equal(&bs) {
                None
            } else {
                Some((clone_block(first), t))
            }
        },
        _ => None,
    }
}

/// Whether the statements between a guarded jump and its target can be skipped together.
pub open spec fn skippable(prefix: Block) -> bool {
    0 < prefix.len() <= 32 && !has_jumps(prefix) && !terminated(prefix)
}

fn can_skip(prefix: &[Stmt]) -> (r: bool)
    ensures
        r == skippable(block(prefix@)),
{
    prefix.len() > 0 && prefix.len() <= 32 && !occurs(&LabelOrGoto, prefix) && !block_ends_terminated(prefix)
}

/// A guarded jump at `i` into the target at `t`: where the guard holds, `body` runs, else the
/// statements between and `plain`.
pub open spec fn entered(b: Block, i: int, t: int, c: ExprV, body: Block, plain: StmtV) -> Block {
    spec_splice(
        b,
        i,
        t + 1,
        only(StmtV::If { cond: c, then_body: body, else_body: b.subrange(i + 1, t).push(plain) }),
    )
}

proof fn entered_paths(b: Block, i: int, t: int, c: ExprV, body: Block, plain: StmtV)
    requires
        0 <= i,
        i + 1 < t < b.len(),
        cond_goto(b[i], None) is Some,
        paths(body) <= stmt_paths(b[t]),
        stmt_paths(plain) <= stmt_paths(b[t]),
    ensures
        paths(entered(b, i, t, c, body, plain)) < paths(b),
{
    let prefix = b.subrange(i + 1, t);
    let s = StmtV::If { cond: c, then_body: body, else_body: prefix.push(plain) };
    guard_paths(b[i]);
    assert(prefix.push(plain) =~= prefix + seq![plain]);
    paths_concat(prefix, seq![plain]);
    paths_one(plain);
    paths_one(s);
    paths_range(b, i, i + 1, t + 1);
    paths_range(b, i + 1, t, t + 1);
    paths_range_one(b, i);
    paths_range_one(b, t);
    paths_positive(prefix);
    stmt_paths_positive(b[t]);
    let g = stmt_paths(b[i]);
    let p = paths(prefix);
    let q = stmt_paths(b[t]);
    let x = paths(body);
    let y = stmt_paths(plain);
    let m = p * q;
    assert(p * y <= m) by (nonlinear_arith)
        requires
            y <= q,
            m == p * q,
    ;
    assert(q <= m) by (nonlinear_arith)
        requires
            p >= 1,
            m == p * q,
    ;
    assert(3 * m <= g * m) by (nonlinear_arith)
        requires
            g >= 3,
    ;
    paths_splice(b, i, t + 1, only(s));
}

fn enter(b: &Vec<Stmt>, i: usize, t: usize, c: Expr, body: Vec<Stmt>, plain: Stmt) -> (r: Vec<Stmt>)
    requires
        i < t < b.len(),
    ensures
        block(r@) == entered(block(b@), i as int, t as int, c@, block(body@), plain@),
{
    let mut e = copy_range(b, i + 1, t);
    let ghost o = e@;
    e.push(plain);
    assert(block(e@) =~= block(o).push(plain@));
    splice(b, i, t + 1, one(Stmt::If { cond: c, then_body: body, else_body: e }))
}

/// A guarded jump to a label that leads several equal branches of a later `if` chain.
pub struct LaterChain;

/// The rewriting for the chain at `t`.
pub open spec fn later_chain_at(b: Block, i: int, t: int, c: ExprV, l: Text) -> Option<Block> {
    let prefix = b.subrange(i + 1, t);
    if deep_stmt(label_of(l), b[t]) == 0 || !skippable(prefix) || !scope_safe(
        prefix,
        b.subrange(t + 1, b.len() as int),
    ) {
        None
    } else {
        match chain_split(b[t], l) {
            Some((body, plain)) => if has_jumps(only(plain)) {
                None
            } else {
                Some(entered(b, i, t, c, body, plain))
            },
            None => None,
        }
    }
}

/// The rewriting for the first chain from `t` on for which there is one.
pub open spec fn first_later_chain(b: Block, i: int, t: int, c: ExprV, l: Text) -> Option<Block>
    decreases b.len() - t,
{
    if t < 0 || t >= b.len() || t >= i + 48 {
        None
    } else {
        match later_chain_at(b, i, t, c, l) {
            Some(r) => Some(r),
            None => first_later_chain(b, i, t + 1, c, l),
        }
    }
}

proof fn first_later_chain_shrinks(b: Block, i: int, t: int, c: ExprV, l: Text)
    requires
        0 <= i,
        i + 1 < t,
        cond_goto(b[i], None) is Some,
    ensures
        first_later_chain(b, i, t, c, l) matches Some(r) ==> paths(r) < paths(b),
    decreases b.len() - t,
{
    if t < b.len() && t < i + 48 {
        first_later_chain_shrinks(b, i, t + 1, c, l);
        if let Some((body, plain)) = chain_split(b[t], l) {
            chain_bodies_paths(b[t], l, 0);
            chain_stripped_paths(b[t], l);
            entered_paths(b, i, t, c, body, plain);
        }
    }
}

fn try_later_chain_at(b: &Vec<Stmt>, i: usize, t: usize, c: &Expr, l: &str) -> (r: Option<Vec<Stmt>>)
    requires
        i + 1 < t < b.len(),
    ensures
        opt_block(r) == later_chain_at(block(b@), i as int, t as int, c@, l@),
{
    let n: usize = b.len();
    let prefix = range(b, i + 1, t);
    if !occurs_in_stmt(&LabelOf { label: l }, &b[t]) || !can_skip(prefix) || !direct_local_scope_safe(
        prefix,
        range(b, t + 1, n),
    ) {
        return None;
    }
    match duplicate_labeled_if_chain_body_and_strip(&b[t], l) {
        Some((body, plain)) => {
            let p = one(plain);
            if occurs(&LabelOrGoto, &p) {
                return None;
            }
            Some(enter(b, i, t, c.clone(), body, p[0].clone()))
        },
        None => None,
    }
}

impl Rule for LaterChain {
    type M = Paths;

    open spec fn at(&self, b: Block, i: int) -> Option<Block> {
        match cond_goto(b[i], None) {
            None => None,
            Some((c, l)) => if jumps_from_loop(only(b[i]), l) || gotos(b, l) != deep_stmt(goto_to(l), b[i]) {
                None
            } else {
                first_later_chain(b, i, i + 2, c, l)
            },
        }
    }

    proof fn shrinks_at(&self, b: Block, i: int) {
        if let Some((c, l)) = cond_goto(b[i], None) {
            first_later_chain_shrinks(b, i, i + 2, c, l);
        }
    }

    fn try_at(&self, b: &Vec<Stmt>, i: usize) -> (r: Option<Vec<Stmt>>) {
        let n: usize = b.len();
        if n - i < 3 {
            return None;
        }
        match conditional_goto_expr(&b[i], None) {
            None => None,
            Some((c, l)) => {
                let here = range(b, i, i + 1);
                assert(block(here@) =~= only(block(b@)[i as int]));
                if has_goto_in_nested_loop(here, &l) || !gotos_only_at(b, i, &l) {
                    return None;
                }
                let mut t: usize = i + 2;
                while t < n && t - i < 48
                    invariant
                        i + 1 < t <= n,
                        n == b.len(),
                        first_later_chain(block(b@), i as int, i + 2, c@, l@) == first_later_chain(
                            block(b@),
                            i as int,
                            t as int,
                            c@,
                            l@,
                        ),
                        self.at(block(b@), i as int) == first_later_chain(block(b@), i as int, i + 2, c@, l@),
                    decreases n - t,
                {
                    match try_later_chain_at(b, i, t, &c, &l) {
                        Some(r) => {
                            return Some(r);
                        },
                        None => {},
                    }
                    t += 1;
                }
                None
            },
        }
    }
}

// ---- a later label at the end of a branch --------------------------------------------------------

/// The first position from `k` on whose statement holds the label `l`.
pub open spec fn find_labelled(b: Block, k: int, l: Text) -> Option<int>
    decreases b.len() - k,
{
    if k < 0 || k >= b.len() {
        None
    } else if deep_stmt(label_of(l), b[k]) > 0 {
        Some(k)
    } else {
        find_labelled(b, k + 1, l)
    }
}

proof fn find_labelled_found(b: Block, k: int, l: Text)
    requires
        0 <= k,
    ensures
        find_labelled(b, k, l) matches Some(j) ==> k <= j < b.len(),
    decreases b.len() - k,
{
    if k < b.len() && deep_stmt(label_of(l), b[k]) == 0 {
        find_labelled_found(b, k + 1, l);
    }
}

fn position_of_labelled(b: &[Stmt], l: &str) -> (r: Option<usize>)
    ensures
        opt_index(r) == find_labelled(block(b@), 0, l@),
        r matches Some(k) ==> k < b.len(),
{
    let mut i: usize = 0;
    while i < b.len()
        invariant
            i <= b.len(),
            find_labelled(block(b@), 0, l@) == find_labelled(block(b@), i as int, l@),
        decreases b.len() - i,
    {
        if occurs_in_stmt(&LabelOf { label: l }, &b[i]) {
            return Some(i);
        }
        i += 1;
    }
    None
}

/// What runs after the label `l`, which stands in one branch of `s` such that nothing follows that
/// branch, and `s` without the label.
pub open spec fn split_stmt(s: StmtV, l: Text) -> Option<(Block, StmtV)>
    decreases s,
{
    match s {
        StmtV::If { cond, then_body, else_body } => if labels(then_body, l) > 0 {
            if labels(else_body, l) > 0 {
                None
            } else {
                match split_block(then_body, l) {
                    Some((target, t)) => Some((target, StmtV::If { cond, then_body: t, else_body })),
                    None => None,
                }
            }
        } else if labels(else_body, l) > 0 {
            match split_block(else_body, l) {
                Some((target, e)) => Some((target, StmtV::If { cond, then_body, else_body: e })),
                None => None,
            }
        } else {
            None
        },
        _ => None,
    }
}

pub open spec fn split_block(b: Block, l: Text) -> Option<(Block, Block)>
    decreases b,
{
    match find_labelled(b, 0, l) {
        None => None,
        Some(k) => if 0 <= k < b.len() {
            if b[k] == StmtV::Label(l) {
                Some((b.subrange(k + 1, b.len() as int), spec_splice(b, k, k + 1, Seq::empty())))
            } else if k + 1 != b.len() {
                None
            } else {
                match split_stmt(b[k], l) {
                    Some((target, s)) => Some((target, b.subrange(0, k).push(s))),
                    None => None,
                }
            }
        } else {
            None
        },
    }
}

proof fn split_stmt_paths(s: StmtV, l: Text)
    ensures
        split_stmt(s, l) matches Some((target, t)) ==> paths(target) <= stmt_paths(s) && stmt_paths(t) <= stmt_paths(
            s,
        ),
    decreases s,
{
    if let StmtV::If { cond, then_body, else_body } = s {
        split_block_paths(then_body, l);
        split_block_paths(else_body, l);
    }
}

proof fn split_block_paths(b: Block, l: Text)
    ensures
        split_block(b, l) matches Some((target, t)) ==> paths(target) <= paths(b) && paths(t) <= paths(b),
    decreases b,
{
    find_labelled_found(b, 0, l);
    if let Some(k) = find_labelled(b, 0, l) {
        if b[k] == StmtV::Label(l) {
            crate::paths::paths_subrange_le(b, 0, k + 1, b.len() as int);
            assert(b.subrange(0, b.len() as int) =~= b);
            paths_range_one(b, k);
            assert(paths(Seq::<StmtV>::empty()) == 1);
            paths_splice(b, k, k + 1, Seq::empty());
        } else if k + 1 == b.len() {
            split_stmt_paths(b[k], l);
            if let Some((target, s)) = split_stmt(b[k], l) {
                let x = b.subrange(0, k);
                assert(x.push(s) =~= x + seq![s]);
                paths_concat(x, seq![s]);
                paths_one(s);
                assert(b =~= x + seq![b[k]]);
                paths_concat(x, seq![b[k]]);
                paths_one(b[k]);
                paths_positive(x);
                let p = paths(x);
                let q = stmt_paths(b[k]);
                let y = stmt_paths(s);
                assert(p * y <= p * q && q <= p * q) by (nonlinear_arith)
                    requires
                        y <= q,
                        p >= 1,
                ;
            }
        }
    }
}

fn split_tail_label_continuation(s: &Stmt, l: &str) -> (r: Option<(Vec<Stmt>, Stmt)>)
    ensures
        match r {
            Some((x, t)) => split_stmt(s@, l@) == Some((block(x@), t@)),
            None => split_stmt(s@, l@) is None,
        },
    decreases s,
{
    match s {
        Stmt::If { cond, then_body, else_body } => {
            if has_label(then_body, l) {
                if has_label(else_body, l) {
                    return None;
                }
                match split_tail_label_continuation_block(then_body, l) {
                    Some((x, t)) => Some(
                        (x, Stmt::If { cond: cond.clone(), then_body: t, else_body: clone_block(else_body) }),
                    ),
                    None => None,
                }
            } else if has_label(else_body, l) {
                match split_tail_label_continuation_block(else_body, l) {
                    Some((x, e)) => Some(
                        (x, Stmt::If { cond: cond.clone(), then_body: clone_block(then_body), else_body: e }),
                    ),
                    None => None,
                }
            } else {
                None
            }
        },
        _ => None,
    }
}

fn split_tail_label_continuation_block(b: &[Stmt], l: &str) -> (r: Option<(Vec<Stmt>, Vec<Stmt>)>)
    ensures
        match r {
            Some((x, t)) => split_block(block(b@), l@) == Some((block(x@), block(t@))),
            None => split_block(block(b@), l@) is None,
        },
    decreases b@,
{
    let n: usize = b.len();
    match position_of_labelled(b, l) {
        None => None,
        Some(k) => {
            assert(block(b@)[k as int] == b@[k as int]@);
            if is_label_of(&b[k], l) {
                let x = copy_range(b, k + 1, n);
                Some((x, splice(b, k, k + 1, crate::ast::none())))
            } else if k + 1 != n {
                None
            } else {
                match split_tail_label_continuation(&b[k], l) {
                    Some((x, s)) => {
                        let mut t = copy_range(b, 0, k);
                        let ghost o = t@;
                        t.push(s);
                        assert(block(t@) =~= block(o).push(s@));
                        Some((x, t))
                    },
                    None => None,
                }
            }
        },
    }
}

/// Whether the jumps to `l` from `i` to `t` are all at `i`, and any other jump to `l` has another
/// label to go to.
pub open spec fn region_closed(b: Block, i: int, t: int, l: Text) -> bool {
    gotos(b.subrange(i, t + 1), l) == deep_stmt(goto_to(l), b[i]) && (gotos(b, l) == gotos(
        b.subrange(i, t + 1),
        l,
    ) || labels(b.subrange(0, i), l) + labels(b.subrange(t + 1, b.len() as int), l) > 0)
}

fn is_region_closed(b: &Vec<Stmt>, i: usize, t: usize, l: &str) -> (r: bool)
    requires
        i < t < b.len(),
    ensures
        r == region_closed(block(b@), i as int, t as int, l@),
{
    let n: usize = b.len();
    proof {
        crate::weight::deep_range(goto_to(l@), block(b@), i as int, i + 1, t + 1);
        crate::weight::deep_range_one(goto_to(l@), block(b@), i as int);
    }
    !has_goto(range(b, i + 1, t + 1), l) && (gotos_only_in(b, i, t + 1, l) || has_label(range(b, 0, i), l)
        || has_label(range(b, t + 1, n), l))
}

/// A guarded jump to a label at the end of a branch of a later `if`.
pub struct LaterGate;

/// The rewriting for the `if` at `t`.
pub open spec fn later_gate_at(b: Block, i: int, t: int, c: ExprV, l: Text) -> Option<Block> {
    if deep_stmt(label_of(l), b[t]) == 0 || !skippable(b.subrange(i + 1, t)) || !region_closed(b, i, t, l) {
        None
    } else {
        match split_stmt(b[t], l) {
            Some((body, plain)) => if body.len() == 0 || has_jumps(body) || has_jumps(only(plain)) {
                None
            } else {
                Some(entered(b, i, t, c, body, plain))
            },
            None => None,
        }
    }
}

/// The rewriting for the first `if` from `t` on for which there is one.
pub open spec fn first_later_gate(b: Block, i: int, t: int, c: ExprV, l: Text) -> Option<Block>
    decreases b.len() - t,
{
    if t < 0 || t >= b.len() || t >= i + 48 {
        None
    } else {
        match later_gate_at(b, i, t, c, l) {
            Some(r) => Some(r),
            None => first_later_gate(b, i, t + 1, c, l),
        }
    }
}

proof fn first_later_gate_shrinks(b: Block, i: int, t: int, c: ExprV, l: Text)
    requires
        0 <= i,
        i + 1 < t,
        cond_goto(b[i], None) is Some,
    ensures
        first_later_gate(b, i, t, c, l) matches Some(r) ==> paths(r) < paths(b),
    decreases b.len() - t,
{
    if t < b.len() && t < i + 48 {
        first_later_gate_shrinks(b, i, t + 1, c, l);
        split_stmt_paths(b[t], l);
        if let Some((body, plain)) = split_stmt(b[t], l) {
            entered_paths(b, i, t, c, body, plain);
        }
    }
}

fn try_later_gate_at(b: &Vec<Stmt>, i: usize, t: usize, c: &Expr, l: &str) -> (r: Option<Vec<Stmt>>)
    requires
        i + 1 < t < b.len(),
    ensures
        opt_block(r) == later_gate_at(block(b@), i as int, t as int, c@, l@),
{
    if !occurs_in_stmt(&LabelOf { label: l }, &b[t]) || !can_skip(range(b, i + 1, t)) || !is_region_closed(b, i, t, l) {
        return None;
    }
    match split_tail_label_continuation(&b[t], l) {
        Some((body, plain)) => {
            assert(block(body@).len() == body@.len());
            let p = one(plain);
            if body.len() == 0 || occurs(&LabelOrGoto, &body) || occurs(&LabelOrGoto, &p) {
                return None;
            }
            Some(enter(b, i, t, c.clone(), body, p[0].clone()))
        },
        None => None,
    }
}

impl Rule for LaterGate {
    type M = Paths;

    open spec fn at(&self, b: Block, i: int) -> Option<Block> {
        match cond_goto(b[i], None) {
            None => None,
            Some((c, l)) => if jumps_from_loop(only(b[i]), l) {
                None
            } else {
                first_later_gate(b, i, i + 2, c, l)
            },
        }
    }

    proof fn shrinks_at(&self, b: Block, i: int) {
        if let Some((c, l)) = cond_goto(b[i], None) {
            first_later_gate_shrinks(b, i, i + 2, c, l);
        }
    }

    fn try_at(&self, b: &Vec<Stmt>, i: usize) -> (r: Option<Vec<Stmt>>) {
        let n: usize = b.len();
        if n - i < 3 {
            return None;
        }
        match conditional_goto_expr(&b[i], None) {
            None => None,
            Some((c, l)) => {
                let here = range(b, i, i + 1);
                assert(block(here@) =~= only(block(b@)[i as int]));
                if has_goto_in_nested_loop(here, &l) {
                    return None;
                }
                let mut t: usize = i + 2;
                while t < n && t - i < 48
                    invariant
                        i + 1 < t <= n,
                        n == b.len(),
                        first_later_gate(block(b@), i as int, i + 2, c@, l@) == first_later_gate(
                            block(b@),
                            i as int,
                            t as int,
                            c@,
                            l@,
                        ),
                        self.at(block(b@), i as int) == first_later_gate(block(b@), i as int, i + 2, c@, l@),
                    decreases n - t,
                {
                    match try_later_gate_at(b, i, t, &c, &l) {
                        Some(r) => {
                            return Some(r);
                        },
                        None => {},
                    }
                    t += 1;
                }
                None
            },
        }
    }
}

// ---- nested jumps to a later label -----------------------------------------------------------------

/// What runs after the label `l` in `s`, and `s` without the label; nothing is left of the label
/// itself.
pub open spec fn later_target(s: StmtV, l: Text) -> Option<(Block, Block)> {
    if s == StmtV::Label(l) {
        Some((Seq::empty(), Seq::empty()))
    } else {
        match split_stmt(s, l) {
            Some((target, t)) => Some((target, seq![t])),
            None => None,
        }
    }
}

fn split_later_label_target(s: &Stmt, l: &str) -> (r: Option<(Vec<Stmt>, Vec<Stmt>)>)
    ensures
        match r {
            Some((x, t)) => later_target(s@, l@) == Some((block(x@), block(t@))),
            None => later_target(s@, l@) is None,
        },
{
    if is_label_of(s, l) {
        return Some((crate::ast::none(), crate::ast::none()));
    }
    match split_tail_label_continuation(s, l) {
        Some((x, t)) => Some((x, one(t))),
        None => None,
    }
}

/// Nested jumps to a label in a later statement: they run what follows the label, all other ways
/// run what stands between.
pub struct NestedLater;

/// The rewriting for the target at `t`.
pub open spec fn nested_later_at(b: Block, i: int, t: int, l: Text) -> Option<Block> {
    let between = b.subrange(i + 1, t);
    if deep_stmt(label_of(l), b[t]) == 0 || between.len() > 32 || gotos(between, l) > 0 || labels(between, l) > 0
        || terminated(between) || !region_closed(b, i, t, l) {
        None
    } else {
        match later_target(b[t], l) {
            None => None,
            Some((target, plain)) => nested_later_with(b, i, t, l, target, plain),
        }
    }
}

/// The rewriting where the target splits into `target` and `plain`.
pub open spec fn nested_later_with(b: Block, i: int, t: int, l: Text, target: Block, plain: Block) -> Option<Block> {
    let after = b.subrange(t + 1, b.len() as int);
    let cont = widened(b.subrange(i + 1, t) + plain, after);
    if gotos(target, l) > 0 || labels(target, l) > 0 || gotos(plain, l) > 0 || labels(plain, l) > 0 || !scope_safe(
        cont,
        after,
    ) {
        None
    } else {
        match routed(only(b[i]), l, target, cont) {
            Some(o) => if gotos(o, l) > 0 || labels(o, l) > 0 {
                None
            } else {
                Some(spec_splice(b, i, t + 1, o))
            },
            None => None,
        }
    }
}

/// The rewriting for the first target from `t` on for which there is one.
pub open spec fn first_nested_later(b: Block, i: int, t: int, l: Text) -> Option<Block>
    decreases b.len() - t,
{
    if t < 0 || t >= b.len() || t >= i + 48 {
        None
    } else {
        match nested_later_at(b, i, t, l) {
            Some(r) => Some(r),
            None => first_nested_later(b, i, t + 1, l),
        }
    }
}

/// Routing makes the measure smaller, if there is a jump to take out.
proof fn routed_paths(b: Block, l: Text, target: Block, cont: Block, m: nat)
    requires
        paths(target) <= m,
        paths(cont) <= m,
        m >= 1,
    ensures
        routed(b, l, target, cont) matches Some(o) ==> {
            &&& paths(o) <= paths(b) * m
            &&& (gotos(b, l) > 0 ==> paths(o) < paths(b) * m)
        },
    decreases b, 0nat,
{
    if b.len() == 0 {
        assert(1 * m == m) by (nonlinear_arith);
    } else {
        let rest = tail_of(b);
        let x = stmt_paths(b[0]);
        let r = paths(rest);
        paths_first(b);
        deep_first(goto_to(l), b);
        paths_positive(rest);
        stmt_paths_positive(b[0]);
        if deep_stmt(goto_to(l), b[0]) == 0 {
            routed_paths(b.subrange(1, b.len() as int), l, target, cont, m);
            if let Some(o) = routed(rest, l, target, cont) {
                paths_concat(seq![b[0]], o);
                paths_one(b[0]);
                let y = paths(o);
                assert(x * y <= (x * r) * m) by (nonlinear_arith)
                    requires
                        y <= r * m,
                ;
                if gotos(rest, l) > 0 {
                    assert(x * y < (x * r) * m) by (nonlinear_arith)
                        requires
                            y < r * m,
                            x >= 1,
                    ;
                }
            }
        } else {
            match b[0] {
                StmtV::If { cond, then_body, else_body } => {
                    let next = appended(rest, cont);
                    appended_paths(rest, cont);
                    paths_positive(next);
                    let k = r * m;
                    assert(paths(next) <= k && paths(target) <= k && k >= 1) by (nonlinear_arith)
                        requires
                            paths(next) <= r * paths(cont),
                            paths(cont) <= m,
                            paths(target) <= m,
                            r >= 1,
                            m >= 1,
                            k == r * m,
                    ;
                    routed_branch_paths(then_body, l, target, next, k);
                    routed_branch_paths(else_body, l, target, next, k);
                    if let (Some(t), Some(e)) = (
                        routed_branch(then_body, l, target, next),
                        routed_branch(else_body, l, target, next),
                    ) {
                        let s = StmtV::If { cond, then_body: t, else_body: e };
                        paths_one(s);
                        let a = paths(then_body);
                        let c = paths(else_body);
                        assert(gotos(then_body, l) > 0 || gotos(else_body, l) > 0);
                        assert(((a + c + 1) * r) * m == a * k + c * k + k) by (nonlinear_arith)
                            requires
                                k == r * m,
                        ;
                    }
                },
                _ => {
                    assert(m < (x * r) * m) by (nonlinear_arith)
                        requires
                            x >= 2,
                            r >= 1,
                            m >= 1,
                    ;
                },
            }
        }
    }
}

proof fn routed_branch_paths(b: Block, l: Text, target: Block, cont: Block, m: nat)
    requires
        paths(target) <= m,
        paths(cont) <= m,
        m >= 1,
    ensures
        routed_branch(b, l, target, cont) matches Some(o) ==> {
            &&& paths(o) <= paths(b) * m
            &&& (gotos(b, l) > 0 ==> paths(o) < paths(b) * m)
        },
    decreases b, 1nat,
{
    if gotos(b, l) > 0 {
        routed_paths(b, l, target, cont, m);
    } else {
        appended_paths(b, cont);
        let x = paths(b);
        let y = paths(cont);
        assert(x * y <= x * m) by (nonlinear_arith)
            requires
                y <= m,
        ;
    }
}

proof fn first_nested_later_shrinks(b: Block, i: int, t: int, l: Text)
    requires
        0 <= i < t,
        i < b.len(),
        deep_stmt(goto_to(l), b[i]) > 0,
    ensures
        first_nested_later(b, i, t, l) matches Some(r) ==> paths(r) < paths(b),
    decreases b.len() - t,
{
    if t < b.len() && t < i + 48 {
        first_nested_later_shrinks(b, i, t + 1, l);
        if let Some((target, plain)) = later_target(b[t], l) {
            let between = b.subrange(i + 1, t);
            let after = b.subrange(t + 1, b.len() as int);
            let cont = widened(between + plain, after);
            let p = paths(between);
            let q = stmt_paths(b[t]);
            let m = p * q;
            split_stmt_paths(b[t], l);
            stmt_paths_positive(b[t]);
            paths_positive(between);
            widened_paths(between + plain, after);
            paths_concat(between, plain);
            assert(paths(Seq::<StmtV>::empty()) == 1);
            if plain.len() > 0 {
                paths_one(plain[0]);
                assert(plain =~= seq![plain[0]]);
            }
            let y = paths(plain);
            let x = paths(target);
            assert(p * y <= m && x <= m && m >= 1) by (nonlinear_arith)
                requires
                    y <= q,
                    x <= q,
                    p >= 1,
                    q >= 2,
                    m == p * q,
            ;
            routed_paths(only(b[i]), l, target, cont, m);
            deep_one(goto_to(l), b[i]);
            paths_one(b[i]);
            if let Some(o) = routed(only(b[i]), l, target, cont) {
                paths_range(b, i, i + 1, t + 1);
                paths_range(b, i + 1, t, t + 1);
                paths_range_one(b, i);
                paths_range_one(b, t);
                paths_splice(b, i, t + 1, o);
            }
        }
    }
}

fn try_nested_later_at(b: &Vec<Stmt>, i: usize, t: usize, l: &str) -> (r: Option<Vec<Stmt>>)
    requires
        i < t < b.len(),
    ensures
        opt_block(r) == nested_later_at(block(b@), i as int, t as int, l@),
{
    let between = range(b, i + 1, t);
    if !occurs_in_stmt(&LabelOf { label: l }, &b[t]) || between.len() > 32 || has_goto(between, l) || has_label(
        between,
        l,
    ) || block_ends_terminated(between) || !is_region_closed(b, i, t, l) {
        return None;
    }
    match split_later_label_target(&b[t], l) {
        None => None,
        Some((target, plain)) => try_nested_later_with(b, i, t, l, target, plain),
    }
}

fn try_nested_later_with(b: &Vec<Stmt>, i: usize, t: usize, l: &str, target: Vec<Stmt>, plain: Vec<Stmt>) -> (r: Option<
    Vec<Stmt>,
>)
    requires
        i < t < b.len(),
    ensures
        opt_block(r) == nested_later_with(block(b@), i as int, t as int, l@, block(target@), block(plain@)),
{
    let n: usize = b.len();
    if has_goto(&target, l) || has_label(&target, l) || has_goto(&plain, l) || has_label(&plain, l) {
        return None;
    }
    let after = range(b, t + 1, n);
    let all = concat(copy_range(b, i + 1, t), plain);
    let cont = widen_locals_read_after_join(&all, after);
    if !direct_local_scope_safe(&cont, after) {
        return None;
    }
    let here = range(b, i, i + 1);
    assert(block(here@) =~= only(block(b@)[i as int]));
    match route_gotos_to_target_body(here, l, &target, &cont) {
        Some(o) => if has_goto(&o, l) || has_label(&o, l) {
            None
        } else {
            Some(splice(b, i, t + 1, o))
        },
        None => None,
    }
}

impl LabelRule for NestedLater {
    type M = Paths;

    open spec fn at_label(&self, b: Block, i: int, l: Text) -> Option<Block> {
        if jumps_from_loop(only(b[i]), l) {
            None
        } else {
            first_nested_later(b, i, i + 1, l)
        }
    }

    proof fn shrinks_at_label(&self, b: Block, i: int, l: Text) {
        goto_names_members(b[i], l);
        first_nested_later_shrinks(b, i, i + 1, l);
    }

    fn try_at_label(&self, b: &Vec<Stmt>, i: usize, l: &str) -> (r: Option<Vec<Stmt>>) {
        let n: usize = b.len();
        let here = range(b, i, i + 1);
        assert(block(here@) =~= only(block(b@)[i as int]));
        if has_goto_in_nested_loop(here, l) {
            return None;
        }
        let mut t: usize = i + 1;
        while t < n && t - i < 48
            invariant
                i < t <= n,
                n == b.len(),
                first_nested_later(block(b@), i as int, i + 1, l@) == first_nested_later(
                    block(b@),
                    i as int,
                    t as int,
                    l@,
                ),
                self.at_label(block(b@), i as int, l@) == first_nested_later(block(b@), i as int, i + 1, l@),
            decreases n - t,
        {
            match try_nested_later_at(b, i, t, l) {
                Some(r) => {
                    return Some(r);
                },
                None => {},
            }
            t += 1;
        }
        None
    }
}

/// The five ways to take out a jump into a branch.
pub type Gates = Either<
    Either<Either<Either<Scan<IfGate>, Scan<LaterChain>>, Scan<LaterGate>>, Scan<IfChain>>,
    Scan<PerLabel<NestedLater>>,
>;

/// The five ways, in the order in which they are tried.
pub open spec fn gates() -> Gates {
    Either(
        Either(Either(Either(Scan(IfGate), Scan(LaterChain)), Scan(LaterGate)), Scan(IfChain)),
        Scan(PerLabel(NestedLater)),
    )
}

/// Recovers jumps into the branches of later `if` statements.
pub fn recover_goto_into_if_gates(root: &mut Vec<Stmt>)
    ensures
        block(final(root)@) == everywhere(gates(), block(old(root)@)),
{
    let p: Gates = Either(
        Either(Either(Either(Scan(IfGate), Scan(LaterChain)), Scan(LaterGate)), Scan(IfChain)),
        Scan(PerLabel(NestedLater)),
    );
    *root = rewrite_everywhere(&p, root);
}

} // verus!
