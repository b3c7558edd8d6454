//! Passes that go once through every block.
use vstd::prelude::*;

use crate::ast::{
    as_var, block, clone_block, concat, copy_range, expr_eq, exprs, exprs_eq, loop_body, one, one_expr, range,
    with_loop_body, Block, Expr, ExprV, LoopHead, Stmt, StmtV,
};
use crate::conditions::{binary, binary_expr, negate_condition, negated};
use crate::jumps::{only, sole_assign, sole_var_assign};
use crate::names::NameSet;
use crate::naming::{is_pure, pure};
use crate::query::{
    block_goto_names, expr_reads, expr_reads_var, exprs_reads, exprs_reads_up_to, goto_names_in_block, labels,
    reads_of, ReadsOf,
};
use crate::routing::{each, tail_of};
use crate::rules::{run_throughout, throughout, within, within_stmt, Pass};
use crate::text::{str_eq, Text};
use crate::weight::{deep, mark_all, occurs, Weigh};

verus! {

/// The block that begins with `s` and goes on with `rest`.
pub open spec fn before(s: StmtV, rest: Block) -> Block {
    seq![s] + rest
}

pub fn push_stmt(out: &mut Vec<Stmt>, s: Stmt)
    ensures
        block(final(out)@) == block(old(out)@).push(s@),
{
    let ghost o = out@;
    out.push(s);
    assert(block(out@) =~= block(o).push(s@));
}

// ---- counting ------------------------------------------------------------------------------------

struct Each;

impl Weigh for Each {
    open spec fn weight(&self) -> spec_fn(StmtV) -> nat {
        each()
    }

    fn weigh(&self, s: &Stmt, cap: usize) -> (r: usize) {
        if cap > 0 {
            1
        } else {
            0
        }
    }
}

/// The number of statements, nested ones included.
pub fn count_stmts(root: &[Stmt]) -> (r: usize)
    ensures
        r == deep(each(), block(root@)),
{
    let mut marks: Vec<bool> = Vec::new();
    mark_all(&Each, root, &mut marks);
    marks.len()
}

// ---- code that is never reached ----------------------------------------------------------------------

/// Whether control never gets past `s`.
pub open spec fn terminator(s: StmtV) -> bool {
    s is Return || s is Break || s is Continue || s is Goto
}

/// The first position from `i` on at which a label stands, or the length.
pub open spec fn label_from(b: Block, i: int) -> int
    decreases b.len() - i,
{
    if i < 0 || i >= b.len() || b[i] is Label {
        i
    } else {
        label_from(b, i + 1)
    }
}

pub proof fn label_from_bounds(b: Block, i: int)
    requires
        0 <= i <= b.len(),
    ensures
        i <= label_from(b, i) <= b.len(),
    decreases b.len() - i,
{
    if i < b.len() && !(b[i] is Label) {
        label_from_bounds(b, i + 1);
    }
}

/// `b` from `i` on, without the statements between a terminator and the next label.
pub open spec fn reachable(b: Block, i: int) -> Block
    decreases b.len() - i,
{
    if i < 0 || i >= b.len() {
        Seq::empty()
    } else if terminator(b[i]) {
        let k = label_from(b, i + 1);
        if i < k <= b.len() {
            before(b[i], reachable(b, k))
        } else {
            Seq::empty()
        }
    } else {
        before(b[i], reachable(b, i + 1))
    }
}

pub struct Reachable;

impl Pass for Reachable {
    open spec fn rewrite(&self, b: Block) -> Block {
        reachable(b, 0)
    }

    fn run(&self, b: Vec<Stmt>) -> (r: Vec<Stmt>) {
        let ghost v = block(b@);
        let mut out: Vec<Stmt> = Vec::new();
        let mut i: usize = 0;
        assert(block(out@) + reachable(v, 0) =~= reachable(v, 0));
        while i < b.len()
            invariant
                i <= b.len(),
                v == block(b@),
                reachable(v, 0) == block(out@) + reachable(v, i as int),
            decreases b.len() - i,
        {
            assert(v[i as int] == b@[i as int]@);
            let ghost o = block(out@);
            push_stmt(&mut out, b[i].clone());
            let mut k: usize = i + 1;
            if matches!(b[i], Stmt::Return(_) | Stmt::Break | Stmt::Continue | Stmt::Goto(_)) {
                while k < b.len() && !matches!(b[k], Stmt::Label(_))
                    invariant
                        i < k <= b.len(),
                        v == block(b@),
                        label_from(v, i + 1) == label_from(v, k as int),
                    decreases b.len() - k,
                {
                    k += 1;
                }
            }
            assert(o + before(v[i as int], reachable(v, k as int)) =~= block(out@) + reachable(v, k as int));
            i = k;
        }
        assert(block(out@) + Seq::<StmtV>::empty() =~= block(out@));
        out
    }
}

/// Drops the statements after a `return`, `break`, `continue` or `goto`, up to the next label.
pub fn drop_unreachable(root: &mut Vec<Stmt>)
    ensures
        block(final(root)@) == throughout(Reachable, block(old(root)@)),
{
    *root = run_throughout(&Reachable, root);
}

/// What is kept begins with what the block begins with.
pub proof fn reachable_keeps_first(b: Block)
    requires
        b.len() > 0,
    ensures
        reachable(b, 0).len() > 0,
        reachable(b, 0)[0] == b[0],
{
    label_from_bounds(b, 1);
}

/// After the pass, what follows a terminator in a block is a label.
pub proof fn reachable_after_terminator(b: Block, i: int, k: int)
    requires
        0 <= i <= b.len(),
        0 <= k,
        k + 1 < reachable(b, i).len(),
        terminator(reachable(b, i)[k]),
    ensures
        reachable(b, i)[k + 1] is Label,
    decreases b.len() - i,
{
    if i < b.len() {
        if terminator(b[i]) {
            let j = label_from(b, i + 1);
            label_from_bounds(b, i + 1);
            label_from_is_label(b, i + 1);
            let rest = reachable(b, j);
            if k == 0 {
                reachable_first(b, j);
            } else {
                reachable_after_terminator(b, j, k - 1);
            }
        } else {
            if k > 0 {
                reachable_after_terminator(b, i + 1, k - 1);
            }
        }
    }
}

proof fn label_from_is_label(b: Block, i: int)
    requires
        0 <= i <= b.len(),
    ensures
        label_from(b, i) < b.len() ==> b[label_from(b, i)] is Label,
    decreases b.len() - i,
{
    if i < b.len() && !(b[i] is Label) {
        label_from_is_label(b, i + 1);
    }
}

proof fn reachable_first(b: Block, i: int)
    requires
        0 <= i < b.len(),
    ensures
        reachable(b, i).len() > 0,
        reachable(b, i)[0] == b[i],
{
    label_from_bounds(b, i + 1);
}

/// Whether a terminator stands before the statement at `i`, and no label from there up to it.
pub open spec fn unreachable_at(b: Block, i: int) -> bool {
    exists|t: int| #[trigger] cut_off(b, t, i)
}

/// Whether the terminator at `t` cuts off the statement at `i`.
pub open spec fn cut_off(b: Block, t: int, i: int) -> bool {
    0 <= t < i && terminator(b[t]) && forall|k: int| t < k <= i ==> !(#[trigger] b[k] is Label)
}

/// Which statements of `b` are not cut off.
pub open spec fn alive(b: Block) -> Seq<bool> {
    Seq::new(b.len(), |i: int| !unreachable_at(b, i))
}

/// The statements of `b` from `i` on that are to keep.
pub open spec fn selected_from(b: Block, keep: Seq<bool>, i: int) -> Block
    decreases b.len() - i,
{
    if i < 0 || i >= b.len() {
        Seq::empty()
    } else if keep[i] {
        before(b[i], selected_from(b, keep, i + 1))
    } else {
        selected_from(b, keep, i + 1)
    }
}

/// The statements of `b` that are to keep.
pub open spec fn selected(b: Block, keep: Seq<bool>) -> Block {
    selected_from(b, keep, 0)
}

proof fn skipped_are_cut_off(b: Block, t: int, i: int)
    requires
        0 <= t < i <= b.len(),
        terminator(b[t]),
        forall|k: int| t < k < i ==> !(#[trigger] b[k] is Label),
    ensures
        selected_from(b, alive(b), i) == selected_from(b, alive(b), label_from(b, i)),
    decreases b.len() - i,
{
    if i < b.len() && !(b[i] is Label) {
        assert(cut_off(b, t, i));
        skipped_are_cut_off(b, t, i + 1);
    }
}

proof fn reachable_selected(b: Block, i: int)
    requires
        0 <= i <= b.len(),
        i < b.len() ==> !unreachable_at(b, i),
    ensures
        reachable(b, i) == selected_from(b, alive(b), i),
    decreases b.len() - i,
{
    if i < b.len() {
        if terminator(b[i]) {
            let k = label_from(b, i + 1);
            label_from_bounds(b, i + 1);
            label_from_is_label(b, i + 1);
            skipped_are_cut_off(b, i, i + 1);
            if k < b.len() {
                assert(b[k] is Label);
                assert forall|t: int| !#[trigger] cut_off(b, t, k) by {}
            }
            reachable_selected(b, k);
        } else {
            if i + 1 < b.len() {
                assert forall|t: int| !#[trigger] cut_off(b, t, i + 1) by {
                    if cut_off(b, t, i + 1) {
                        assert(t < i);
                        assert(cut_off(b, t, i));
                    }
                }
            }
            reachable_selected(b, i + 1);
        }
    }
}

proof fn within_alive(b: Block)
    ensures
        alive(within(Reachable, b)) == alive(b),
{
    let c = within(Reachable, b);
    assert forall|i: int| 0 <= i < b.len() implies alive(c)[i] == alive(b)[i] by {
        assert forall|t: int| #[trigger] cut_off(c, t, i) == cut_off(b, t, i) by {
            assert forall|k: int| 0 <= k <= i implies #[trigger] c[k] == within_stmt(Reachable, b[k]) by {}
            if cut_off(b, t, i) {
                assert forall|k: int| t < k <= i implies !(#[trigger] c[k] is Label) by {
                    assert(!(b[k] is Label));
                }
            }
            if cut_off(c, t, i) {
                assert forall|k: int| t < k <= i implies !(#[trigger] b[k] is Label) by {
                    assert(!(c[k] is Label));
                }
            }
        }
        if unreachable_at(c, i) {
            let t = choose|t: int| #[trigger] cut_off(c, t, i);
            assert(cut_off(b, t, i));
        }
        if unreachable_at(b, i) {
            let t = choose|t: int| #[trigger] cut_off(b, t, i);
            assert(cut_off(c, t, i));
        }
    }
    assert(alive(c) =~= alive(b));
}

/// Whether in `b`, and in every block inside it, what follows a terminator is a label.
pub open spec fn all_reachable(b: Block) -> bool
    decreases b, 1nat,
{
    forall|i: int| 0 <= i < b.len() ==> reachable_in(#[trigger] b[i]) && (i + 1 < b.len() && terminator(b[i]) ==> b[i
        + 1] is Label)
}

pub open spec fn reachable_in(s: StmtV) -> bool
    decreases s, 0nat,
{
    match s {
        StmtV::If { then_body, else_body, .. } => all_reachable(then_body) && all_reachable(else_body),
        StmtV::Loop { body, .. } => all_reachable(body),
        _ => true,
    }
}

proof fn selected_from_all_in(b: Block, keep: Seq<bool>, i: int)
    requires
        0 <= i,
        forall|k: int| 0 <= k < b.len() ==> #[trigger] reachable_in(b[k]),
    ensures
        forall|k: int|
            0 <= k < selected_from(b, keep, i).len() ==> #[trigger] reachable_in(selected_from(b, keep, i)[k]),
    decreases b.len() - i,
{
    if i < b.len() {
        selected_from_all_in(b, keep, i + 1);
        let rest = selected_from(b, keep, i + 1);
        if keep[i] {
            let c = selected_from(b, keep, i);
            assert forall|k: int| 0 <= k < c.len() implies #[trigger] reachable_in(c[k]) by {
                if k == 0 {
                    assert(reachable_in(b[i]));
                    assert(c[k] == b[i]);
                } else {
                    assert(reachable_in(rest[k - 1]));
                    assert(c[k] == rest[k - 1]);
                }
            }
        }
    }
}

/// In every block exactly the statements go that a terminator cuts off, and at no depth does
/// anything but a label follow a terminator.
pub proof fn drops_what_is_cut_off(b: Block)
    ensures
        throughout(Reachable, b) == selected(within(Reachable, b), alive(b)),
        all_reachable(throughout(Reachable, b)),
    decreases b, 1nat,
{
    let c = within(Reachable, b);
    if c.len() > 0 {
        assert forall|t: int| !#[trigger] cut_off(c, t, 0) by {}
    }
    reachable_selected(c, 0);
    within_alive(b);
    assert forall|k: int| 0 <= k < c.len() implies #[trigger] reachable_in(c[k]) by {
        drops_in_stmt(b[k]);
        assert(c[k] == within_stmt(Reachable, b[k]));
    }
    selected_from_all_in(c, alive(c), 0);
    let d = reachable(c, 0);
    assert forall|i: int| 0 <= i < d.len() implies reachable_in(#[trigger] d[i]) && (i + 1 < d.len() && terminator(d[i])
        ==> d[i + 1] is Label) by {
        assert(reachable_in(d[i]));
        if i + 1 < d.len() && terminator(d[i]) {
            reachable_after_terminator(c, 0, i);
        }
    }
}

proof fn drops_in_stmt(s: StmtV)
    ensures
        reachable_in(within_stmt(Reachable, s)),
    decreases s, 0nat,
{
    match s {
        StmtV::If { then_body, else_body, .. } => {
            drops_what_is_cut_off(then_body);
            drops_what_is_cut_off(else_body);
        },
        StmtV::Loop { body, .. } => {
            drops_what_is_cut_off(body);
        },
        _ => {},
    }
}

/// Drops a final bare `return` of the function.
pub fn drop_trailing_empty_return(root: &mut Vec<Stmt>)
    ensures
        block(final(root)@) == {
            let b = block(old(root)@);
            if b.len() > 0 && b.last() == crate::function_ends::bare_return() {
                b.drop_last()
            } else {
                b
            }
        },
{
    let n: usize = root.len();
    if n > 0 && crate::function_ends::is_empty_return(&root[n - 1]) {
        assert(block(root@).last() == root@[n - 1]@);
        let ghost o = root@;
        root.pop();
        assert(block(root@) =~= block(o).drop_last());
    } else if n > 0 {
        assert(block(root@).last() == root@[n - 1]@);
    }
}

// ---- jumps to the next statement ---------------------------------------------------------------------

/// The label that stands at `i`, comments aside.
pub open spec fn label_after_comments(b: Block, i: int) -> Option<Text>
    decreases b.len() - i,
{
    if i < 0 || i >= b.len() {
        None
    } else {
        match b[i] {
            StmtV::Comment(_) => label_after_comments(b, i + 1),
            StmtV::Label(l) => Some(l),
            _ => None,
        }
    }
}

fn next_label_after_comments(b: &Vec<Stmt>, from: usize) -> (r: Option<&String>)
    requires
        from <= b.len(),
    ensures
        match r {
            Some(l) => label_after_comments(block(b@), from as int) == Some(l@),
            None => label_after_comments(block(b@), from as int) is None,
        },
{
    let mut i: usize = from;
    while i < b.len()
        invariant
            from <= i <= b.len(),
            label_after_comments(block(b@), from as int) == label_after_comments(block(b@), i as int),
        decreases b.len() - i,
    {
        match &b[i] {
            Stmt::Comment(_) => {},
            Stmt::Label(l) => {
                return Some(l);
            },
            _ => {
                return None;
            },
        }
        i += 1;
    }
    None
}

/// `b` from `i` on, without the jumps to a label that comes next.
pub open spec fn without_redundant(b: Block, i: int) -> Block
    decreases b.len() - i,
{
    if i < 0 || i >= b.len() {
        Seq::empty()
    } else if b[i] is Goto && label_after_comments(b, i + 1) == Some(b[i]->Goto_0) {
        without_redundant(b, i + 1)
    } else {
        before(b[i], without_redundant(b, i + 1))
    }
}

pub struct RedundantGotos;

impl Pass for RedundantGotos {
    open spec fn rewrite(&self, b: Block) -> Block {
        without_redundant(b, 0)
    }

    fn run(&self, b: Vec<Stmt>) -> (r: Vec<Stmt>) {
        let ghost v = block(b@);
        let mut out: Vec<Stmt> = Vec::new();
        let mut i: usize = 0;
        assert(block(out@) + without_redundant(v, 0) =~= without_redundant(v, 0));
        while i < b.len()
            invariant
                i <= b.len(),
                v == block(b@),
                without_redundant(v, 0) == block(out@) + without_redundant(v, i as int),
            decreases b.len() - i,
        {
            assert(v[i as int] == b@[i as int]@);
            let redundant = match &b[i] {
                Stmt::Goto(l) => match next_label_after_comments(&b, i + 1) {
                    Some(m) => str_eq(l, m),
                    None => false,
                },
                _ => false,
            };
            if !redundant {
                let ghost o = block(out@);
                push_stmt(&mut out, b[i].clone());
                assert(o + before(v[i as int], without_redundant(v, i + 1)) =~= block(out@) + without_redundant(
                    v,
                    i + 1,
                ));
            }
            i += 1;
        }
        assert(block(out@) + Seq::<StmtV>::empty() =~= block(out@));
        out
    }
}

/// Removes jumps to a label that comes next anyway.
pub fn remove_redundant_gotos(root: &mut Vec<Stmt>)
    ensures
        block(final(root)@) == throughout(RedundantGotos, block(old(root)@)),
{
    *root = run_throughout(&RedundantGotos, root);
}

/// `body` without a final jump to `l`.
pub open spec fn without_final_goto(body: Block, l: Text) -> Block {
    if crate::back_loops::ends_with_goto(body, l) {
        body.drop_last()
    } else {
        body
    }
}

/// What is left of `s`, which the label `l` follows: its branches need not jump there, and an `if`
/// that does nothing is only its condition.
pub open spec fn before_label(s: StmtV, l: Text) -> Block {
    match s {
        StmtV::If { cond, then_body, else_body } => {
            let t = without_final_goto(then_body, l);
            let e = without_final_goto(else_body, l);
            if t.len() > 0 || e.len() > 0 {
                seq![StmtV::If { cond, then_body: t, else_body: e }]
            } else if pure(cond) {
                Seq::empty()
            } else {
                seq![StmtV::Call(cond)]
            }
        },
        _ => seq![s],
    }
}

/// `b` from `i` on, where branches do not jump to the label after their `if`.
pub open spec fn without_sibling_gotos(b: Block, i: int) -> Block
    decreases b.len() - i,
{
    if i < 0 || i >= b.len() {
        Seq::empty()
    } else {
        match label_after_comments(b, i + 1) {
            Some(l) => before_label(b[i], l) + without_sibling_gotos(b, i + 1),
            None => before(b[i], without_sibling_gotos(b, i + 1)),
        }
    }
}

fn drop_final_goto(body: &Vec<Stmt>, l: &str) -> (r: Vec<Stmt>)
    ensures
        block(r@) == without_final_goto(block(body@), l@),
{
    let n: usize = body.len();
    assert(block(body@).len() == n);
    if n > 0 {
        assert(block(body@).last() == body@[n - 1]@);
        if crate::ast::is_goto_to(&body[n - 1], l) {
            let r = copy_range(body, 0, n - 1);
            assert(block(r@) =~= block(body@).drop_last());
            return r;
        }
    }
    clone_block(body)
}

fn reduce_before_label(s: &Stmt, l: &str) -> (r: Vec<Stmt>)
    ensures
        block(r@) == before_label(s@, l@),
{
    match s {
        Stmt::If { cond, then_body, else_body } => {
            let t = drop_final_goto(then_body, l);
            let e = drop_final_goto(else_body, l);
            assert(block(t@).len() == t@.len() && block(e@).len() == e@.len());
            if t.len() > 0 || e.len() > 0 {
                one(Stmt::If { cond: cond.clone(), then_body: t, else_body: e })
            } else if is_pure(cond) {
                crate::ast::none()
            } else {
                one(Stmt::Call(cond.clone()))
            }
        },
        _ => one(s.clone()),
    }
}

pub struct SiblingGotos;

impl Pass for SiblingGotos {
    open spec fn rewrite(&self, b: Block) -> Block {
        without_sibling_gotos(b, 0)
    }

    fn run(&self, b: Vec<Stmt>) -> (r: Vec<Stmt>) {
        let ghost v = block(b@);
        let mut out: Vec<Stmt> = Vec::new();
        let mut i: usize = 0;
        assert(block(out@) + without_sibling_gotos(v, 0) =~= without_sibling_gotos(v, 0));
        while i < b.len()
            invariant
                i <= b.len(),
                v == block(b@),
                without_sibling_gotos(v, 0) == block(out@) + without_sibling_gotos(v, i as int),
            decreases b.len() - i,
        {
            assert(v[i as int] == b@[i as int]@);
            let part = match next_label_after_comments(&b, i + 1) {
                Some(l) => reduce_before_label(&b[i], l),
                None => one(b[i].clone()),
            };
            let ghost o = block(out@);
            let ghost p = block(part@);
            out = concat(out, part);
            assert(o + (p + without_sibling_gotos(v, i + 1)) =~= block(out@) + without_sibling_gotos(v, i + 1));
            i += 1;
        }
        assert(block(out@) + Seq::<StmtV>::empty() =~= block(out@));
        out
    }
}

/// Removes jumps at the end of a branch to the label after its `if`.
pub fn remove_trailing_sibling_gotos(root: &mut Vec<Stmt>)
    ensures
        block(final(root)@) == throughout(SiblingGotos, block(old(root)@)),
{
    *root = run_throughout(&SiblingGotos, root);
}

// ---- labels that nothing jumps to ----------------------------------------------------------------------

/// `b` without the labels that are not among `keep`.
pub open spec fn labels_kept(b: Block, keep: Seq<Text>) -> Block
    decreases b,
{
    if b.len() == 0 {
        Seq::empty()
    } else {
        labels_kept(b.drop_last(), keep) + labels_kept_stmt(b.last(), keep)
    }
}

pub open spec fn labels_kept_stmt(s: StmtV, keep: Seq<Text>) -> Block
    decreases s,
{
    match s {
        StmtV::Label(l) => if keep.contains(l) {
            seq![s]
        } else {
            Seq::empty()
        },
        StmtV::If { cond, then_body, else_body } => seq![
            StmtV::If {
                cond,
                then_body: labels_kept(then_body, keep),
                else_body: labels_kept(else_body, keep),
            },
        ],
        StmtV::Loop { head, body } => seq![StmtV::Loop { head, body: labels_kept(body, keep) }],
        _ => seq![s],
    }
}

/// A copy of `b` without the labels that are not among `keep`.
pub fn keep_labels(b: &[Stmt], keep: &NameSet) -> (r: Vec<Stmt>)
    ensures
        block(r@) == labels_kept(block(b@), keep@),
    decreases b@,
{
    let ghost v = block(b@);
    let mut out: Vec<Stmt> = Vec::new();
    let mut i: usize = 0;
    assert(block(out@) =~= labels_kept(v.take(0), keep@));
    while i < b.len()
        invariant
            i <= b.len(),
            v == block(b@),
            block(out@) == labels_kept(v.take(i as int), keep@),
        decreases b.len() - i,
    {
        proof {
            let t = v.take(i + 1);
            assert(t.drop_last() =~= v.take(i as int));
            assert(t.last() == v[i as int]);
        }
        let part = keep_labels_in(&b[i], keep);
        out = concat(out, part);
        i += 1;
    }
    assert(v.take(i as int) =~= v);
    out
}

fn keep_labels_in(s: &Stmt, keep: &NameSet) -> (r: Vec<Stmt>)
    ensures
        block(r@) == labels_kept_stmt(s@, keep@),
    decreases s,
{
    match s {
        Stmt::Label(l) => if keep.contains(l) {
            one(s.clone())
        } else {
            crate::ast::none()
        },
        Stmt::If { cond, then_body, else_body } => one(
            Stmt::If {
                cond: cond.clone(),
                then_body: keep_labels(then_body, keep),
                else_body: keep_labels(else_body, keep),
            },
        ),
        _ => match loop_body(s) {
            Some(body) => {
                let b = keep_labels(body, keep);
                one(with_loop_body(s, b))
            },
            None => one(s.clone()),
        },
    }
}

/// Removes the labels that nothing jumps to.
pub fn remove_unused_labels(root: &mut Vec<Stmt>)
    ensures
        block(final(root)@) == labels_kept(block(old(root)@), block_goto_names(block(old(root)@))),
{
    let keep = goto_names_in_block(root);
    *root = keep_labels(root, &keep);
}

/// A label stays where it is kept, and goes where it is not.
pub proof fn labels_kept_labels(b: Block, keep: Seq<Text>, l: Text)
    ensures
        labels(labels_kept(b, keep), l) == if keep.contains(l) {
            labels(b, l)
        } else {
            0
        },
    decreases b,
{
    if b.len() > 0 {
        let s = b.last();
        let w = crate::query::label_of(l);
        labels_kept_labels(b.drop_last(), keep, l);
        crate::weight::deep_concat(w, labels_kept(b.drop_last(), keep), labels_kept_stmt(s, keep));
        match s {
            StmtV::If { cond, then_body, else_body } => {
                labels_kept_labels(then_body, keep, l);
                labels_kept_labels(else_body, keep, l);
                crate::weight::deep_one(
                    w,
                    StmtV::If {
                        cond,
                        then_body: labels_kept(then_body, keep),
                        else_body: labels_kept(else_body, keep),
                    },
                );
            },
            StmtV::Loop { head, body } => {
                labels_kept_labels(body, keep, l);
                crate::weight::deep_one(w, StmtV::Loop { head, body: labels_kept(body, keep) });
            },
            _ => {
                crate::weight::deep_one(w, s);
            },
        }
        assert(crate::weight::deep(w, Seq::<StmtV>::empty()) == 0);
        assert(labels(b, l) == labels(b.drop_last(), l) + crate::weight::deep_stmt(w, s));
    }
}

// ---- conditions of loops -------------------------------------------------------------------------------

/// The condition under which `s` only leaves the loop.
pub open spec fn break_guard(s: StmtV) -> Option<ExprV> {
    match s {
        StmtV::If { cond, then_body, else_body } => if else_body.len() == 0 && then_body == only(StmtV::Break) {
            Some(cond)
        } else {
            None
        },
        _ => None,
    }
}

/// `while cond do body end` with the guards that `body` begins with moved into the condition.
pub open spec fn guards_merged(cond: ExprV, body: Block) -> StmtV
    decreases body.len(),
{
    if body.len() > 0 && break_guard(body[0]) is Some {
        guards_merged(binary("and"@, cond, negated(break_guard(body[0])->Some_0)), tail_of(body))
    } else {
        crate::back_loops::spec_while(cond, body)
    }
}

fn as_break_guard(s: &Stmt) -> (r: Option<&Expr>)
    ensures
        match r {
            Some(c) => break_guard(s@) == Some(c@),
            None => break_guard(s@) is None,
        },
{
    match s {
        Stmt::If { cond, then_body, else_body } => {
            assert(block(else_body@).len() == else_body@.len());
            assert(block(then_body@).len() == then_body@.len());
            if else_body.len() == 0 && then_body.len() == 1 {
                assert(block(then_body@)[0] == then_body@[0]@);
                if matches!(then_body[0], Stmt::Break) {
                    assert(block(then_body@) =~= only(StmtV::Break));
                    return Some(cond);
                }
            }
            None
        },
        _ => None,
    }
}

fn merge_guards(cond: &Expr, body: &Vec<Stmt>) -> (r: Stmt)
    ensures
        r@ == guards_merged(cond@, block(body@)),
{
    let ghost v = block(body@);
    let n: usize = body.len();
    let mut c = cond.clone();
    let mut k: usize = 0;
    assert(v.subrange(0, n as int) =~= v);
    while k < n
        invariant
            k <= n,
            n == body.len(),
            v == block(body@),
            guards_merged(cond@, v) == guards_merged(c@, v.subrange(k as int, n as int)),
        decreases n - k,
    {
        assert(v[k as int] == body@[k as int]@);
        assert(v.subrange(k as int, n as int)[0] == v[k as int]);
        assert(tail_of(v.subrange(k as int, n as int)) =~= v.subrange(k + 1, n as int));
        match as_break_guard(&body[k]) {
            Some(d) => {
                let e = negate_condition(d);
                c = binary_expr("and", c, e);
            },
            None => {
                return Stmt::While { cond: c, body: copy_range(body, k, n) };
            },
        }
        k += 1;
    }
    Stmt::While { cond: c, body: copy_range(body, k, n) }
}

pub struct BreakGuards;

/// `s` with its leading guards merged, if it is a `while`.
pub open spec fn with_guards_merged(s: StmtV) -> StmtV {
    match s {
        StmtV::Loop { head: LoopHead::While(c), body } => guards_merged(c, body),
        _ => s,
    }
}

impl Pass for BreakGuards {
    open spec fn rewrite(&self, b: Block) -> Block {
        Seq::new(b.len(), |i: int| with_guards_merged(b[i]))
    }

    fn run(&self, b: Vec<Stmt>) -> (r: Vec<Stmt>) {
        let mut out: Vec<Stmt> = Vec::new();
        let mut i: usize = 0;
        while i < b.len()
            invariant
                i <= b.len(),
                out.len() == i,
                forall|j: int| 0 <= j < i ==> (#[trigger] out@[j])@ == with_guards_merged(b@[j]@),
            decreases b.len() - i,
        {
            let s = match &b[i] {
                Stmt::While { cond, body } => merge_guards(cond, body),
                other => other.clone(),
            };
            out.push(s);
            i += 1;
        }
        assert(block(out@) =~= self.rewrite(block(b@)));
        out
    }
}

/// Moves guards at the beginning of a `while` body that leave the loop into its condition.
pub fn merge_leading_while_break_guards(root: &mut Vec<Stmt>)
    ensures
        block(final(root)@) == throughout(BreakGuards, block(old(root)@)),
{
    *root = run_throughout(&BreakGuards, root);
}

// ---- values carried round a loop -----------------------------------------------------------------------

/// The variable and the call, where `s` is `if f(x, ..) ~= nil then continue end`.
pub open spec fn carried_call(s: StmtV) -> Option<(Text, ExprV)> {
    match s {
        StmtV::If { cond, then_body, else_body } => if else_body.len() > 0 || then_body != only(StmtV::Continue) {
            None
        } else {
            match cond {
                ExprV::Binary(op, a, b) => if op == "~="@ && *b == ExprV::Nil {
                    match first_argument(*a) {
                        Some(n) => Some((n, *a)),
                        None => None,
                    }
                } else {
                    None
                },
                _ => None,
            }
        },
        _ => None,
    }
}

/// The bare name that is the first argument of the call `e`.
pub open spec fn first_argument(e: ExprV) -> Option<Text> {
    match e {
        ExprV::Call(_, args) => first_name(args),
        ExprV::MethodCall(_, _, args) => first_name(args),
        _ => None,
    }
}

/// The name, where the first expression is a bare name.
pub open spec fn first_name(es: Seq<ExprV>) -> Option<Text> {
    if es.len() > 0 {
        match es[0] {
            ExprV::Var(n) => Some(n),
            _ => None,
        }
    } else {
        None
    }
}

fn first_var(es: &Vec<Expr>) -> (r: Option<&String>)
    ensures
        match r {
            Some(n) => first_name(exprs(es@)) == Some(n@),
            None => first_name(exprs(es@)) is None,
        },
{
    assert(exprs(es@).len() == es@.len());
    if es.len() > 0 {
        assert(exprs(es@)[0] == es@[0]@);
        as_var(&es[0])
    } else {
        None
    }
}

fn first_argument_of(e: &Expr) -> (r: Option<&String>)
    ensures
        match r {
            Some(n) => first_argument(e@) == Some(n@),
            None => first_argument(e@) is None,
        },
{
    match e {
        Expr::Call(_, args) => first_var(args),
        Expr::MethodCall(_, _, args) => first_var(args),
        _ => None,
    }
}

fn loop_carried_call_continue(s: &Stmt) -> (r: Option<(&String, &Expr)>)
    ensures
        match r {
            Some((n, e)) => carried_call(s@) == Some((n@, e@)),
            None => carried_call(s@) is None,
        },
{
    match s {
        Stmt::If { cond, then_body, else_body } => {
            assert(block(else_body@).len() == else_body@.len());
            assert(block(then_body@).len() == then_body@.len());
            if else_body.len() > 0 || then_body.len() != 1 {
                return None;
            }
            assert(block(then_body@)[0] == then_body@[0]@);
            if !matches!(then_body[0], Stmt::Continue) {
                return None;
            }
            assert(block(then_body@) =~= only(StmtV::Continue));
            match cond {
                Expr::Binary(op, a, b) => if str_eq(op, "~=") && expr_eq(b, &Expr::Nil) {
                    match first_argument_of(a) {
                        Some(n) => Some((n, &**a)),
                        None => None,
                    }
                } else {
                    None
                },
                _ => None,
            }
        },
        _ => None,
    }
}

/// `return nil`
pub open spec fn return_nil() -> StmtV {
    StmtV::Return(seq![ExprV::Nil])
}

/// `n = e`
pub open spec fn assign(n: Text, e: ExprV) -> StmtV {
    StmtV::Assign { targets: seq![ExprV::Var(n)], values: seq![e] }
}

/// `n = e`
pub fn make_assign(n: String, e: Expr) -> (r: Stmt)
    ensures
        r@ == assign(n@, e@),
{
    Stmt::Assign { targets: one_expr(Expr::Var(n)), values: one_expr(e) }
}

/// `if f(x) ~= nil then continue end; return nil` as `x = f(x); if x == nil then return nil end`.
pub open spec fn carried(s: StmtV, next: StmtV) -> Option<Block> {
    match carried_call(s) {
        Some((n, e)) => if next == return_nil() {
            Some(
                seq![
                    assign(n, e),
                    crate::ast::spec_if(binary("=="@, ExprV::Var(n), ExprV::Nil), only(return_nil())),
                ],
            )
        } else {
            None
        },
        None => None,
    }
}

/// `b` from `i` on, with every such pair of statements rewritten.
pub open spec fn calls_carried(b: Block, i: int) -> Block
    decreases b.len() - i,
{
    if i < 0 || i >= b.len() {
        Seq::empty()
    } else if i + 1 < b.len() && carried(b[i], b[i + 1]) is Some {
        carried(b[i], b[i + 1])->Some_0 + calls_carried(b, i + 2)
    } else {
        before(b[i], calls_carried(b, i + 1))
    }
}

fn carry(s: &Stmt, next: &Stmt) -> (r: Option<Vec<Stmt>>)
    ensures
        crate::ast::opt_block(r) == carried(s@, next@),
{
    match loop_carried_call_continue(s) {
        Some((n, e)) => {
            if !is_return_nil(next) {
                return None;
            }
            let mut out = one(make_assign(n.clone(), e.clone()));
            let c = binary_expr("==", Expr::Var(n.clone()), Expr::Nil);
            let ret = Stmt::Return(one_expr(Expr::Nil));
            push_stmt(&mut out, crate::ast::if_then(c, one(ret)));
            assert(block(out@) =~= seq![
                assign(n@, e@),
                crate::ast::spec_if(binary("=="@, ExprV::Var(n@), ExprV::Nil), only(return_nil())),
            ]);
            Some(out)
        },
        None => None,
    }
}

fn is_return_nil(s: &Stmt) -> (r: bool)
    ensures
        r == (s@ == return_nil()),
{
    match s {
        Stmt::Return(vs) => {
            assert(exprs(vs@).len() == vs@.len());
            if vs.len() == 1 {
                assert(exprs(vs@)[0] == vs@[0]@);
                let r = matches!(vs[0], Expr::Nil);
                if r {
                    assert(exprs(vs@) =~= seq![ExprV::Nil]);
                }
                r
            } else {
                false
            }
        },
        _ => false,
    }
}

pub struct CarriedCalls;

impl Pass for CarriedCalls {
    open spec fn rewrite(&self, b: Block) -> Block {
        calls_carried(b, 0)
    }

    fn run(&self, b: Vec<Stmt>) -> (r: Vec<Stmt>) {
        let ghost v = block(b@);
        let mut out: Vec<Stmt> = Vec::new();
        let mut i: usize = 0;
        assert(block(out@) + calls_carried(v, 0) =~= calls_carried(v, 0));
        while i < b.len()
            invariant
                i <= b.len(),
                v == block(b@),
                calls_carried(v, 0) == block(out@) + calls_carried(v, i as int),
            decreases b.len() - i,
        {
            assert(v[i as int] == b@[i as int]@);
            let ghost o = block(out@);
            if i + 1 < b.len() {
                assert(v[i + 1] == b@[i + 1]@);
                if let Some(part) = carry(&b[i], &b[i + 1]) {
                    let ghost p = block(part@);
                    out = concat(out, part);
                    assert(o + (p + calls_carried(v, i + 2)) =~= block(out@) + calls_carried(v, i + 2));
                    i += 2;
                    continue;
                }
            }
            push_stmt(&mut out, b[i].clone());
            assert(o + before(v[i as int], calls_carried(v, i + 1)) =~= block(out@) + calls_carried(v, i + 1));
            i += 1;
        }
        assert(block(out@) + Seq::<StmtV>::empty() =~= block(out@));
        out
    }
}

/// Recovers a variable that a loop passes through a callback.
pub fn recover_loop_carried_call_updates(root: &mut Vec<Stmt>)
    ensures
        block(final(root)@) == throughout(CarriedCalls, block(old(root)@)),
{
    *root = run_throughout(&CarriedCalls, root);
}

// ---- until conditions ------------------------------------------------------------------------------------

/// The bare name that the comparison `cond` tests, and what it makes of the value `e` in its
/// place, with that value on the right.
pub open spec fn temp_condition(cond: ExprV, e: ExprV) -> Option<(Text, ExprV)> {
    match cond {
        ExprV::Binary(op, a, b) => if op == "<="@ {
            match (*a, *b) {
                (ExprV::Var(n), other) => Some((n, binary(">="@, other, e))),
                (other, ExprV::Var(n)) => Some((n, binary("<="@, other, e))),
                _ => None,
            }
        } else if op == ">="@ {
            match (*a, *b) {
                (ExprV::Var(n), other) => Some((n, binary("<="@, other, e))),
                (other, ExprV::Var(n)) => Some((n, binary(">="@, other, e))),
                _ => None,
            }
        } else {
            None
        },
        _ => None,
    }
}

fn repeat_temp_condition(cond: &Expr, e: &Expr) -> (r: Option<(String, Expr)>)
    ensures
        match r {
            Some((n, c)) => temp_condition(cond@, e@) == Some((n@, c@)),
            None => temp_condition(cond@, e@) is None,
        },
{
    match cond {
        Expr::Binary(op, a, b) => {
            let le = str_eq(op, "<=");
            let ge = !le && str_eq(op, ">=");
            if !le && !ge {
                return None;
            }
            match as_var(a) {
                Some(n) => {
                    let other = (**b).clone();
                    let c = if le {
                        binary_expr(">=", other, e.clone())
                    } else {
                        binary_expr("<=", other, e.clone())
                    };
                    Some((n.clone(), c))
                },
                None => match as_var(b) {
                    Some(n) => {
                        let other = (**a).clone();
                        let c = if le {
                            binary_expr("<=", other, e.clone())
                        } else {
                            binary_expr(">=", other, e.clone())
                        };
                        Some((n.clone(), c))
                    },
                    None => None,
                },
            }
        },
        _ => None,
    }
}

/// Whether `protected`, if it is there, allows that the assignment of `e` to `n` goes, which ends
/// the body of a `repeat` loop before `return vs`: `rest` is the body before it, and `c` the new
/// condition. The name is not protected, nothing else in the loop or the `return` reads it, and no
/// call changes its place.
pub open spec fn may_go(
    protected: Option<&NameSet>,
    n: Text,
    e: ExprV,
    c: ExprV,
    rest: Block,
    vs: Seq<ExprV>,
) -> bool {
    match protected {
        Some(p) => !p@.contains(n) && deep(reads_of(n), rest) == 0 && expr_reads(c, n) == 0 && exprs_reads(vs, n) == 0
            && (pure(e) || (c matches ExprV::Binary(_, a, _) && pure(*a))),
        None => true,
    }
}

fn can_go(protected: Option<&NameSet>, n: &str, e: &Expr, c: &Expr, rest: &[Stmt], vs: &Vec<Expr>) -> (r: bool)
    ensures
        r == may_go(protected, n@, e@, c@, block(rest@), exprs(vs@)),
{
    match protected {
        Some(p) => {
            if p.contains(n) || occurs(&ReadsOf { name: n }, rest) || expr_reads_var(c, n) || exprs_reads_up_to(vs, n, 1)
                == 1 {
                return false;
            }
            is_pure(e) || match c {
                Expr::Binary(_, a, _) => is_pure(a),
                _ => false,
            }
        },
        None => true,
    }
}

/// The loop `repeat body until cond` before `return vs`: a last assignment to what the condition
/// tests moves into the condition, and so does a guard before it that returns the same.
pub open spec fn until_inlined(
    body: Block,
    cond: ExprV,
    vs: Seq<ExprV>,
    protected: Option<&NameSet>,
) -> Option<StmtV> {
    if body.len() == 0 {
        None
    } else {
        match sole_assign(body.last()) {
            None => None,
            Some((n, e)) => match temp_condition(cond, e) {
                None => None,
                Some((m, c)) => if m != n || !may_go(protected, n, e, c, body.drop_last(), vs) {
                    None
                } else {
                    let rest = body.drop_last();
                    if rest.len() > 0 && crate::back_loops::returns_values(rest.last(), vs) {
                        let d = crate::back_loops::return_guard(rest.last())->Some_0.0;
                        Some(
                            StmtV::Loop {
                                head: LoopHead::Repeat(binary("or"@, d, c)),
                                body: rest.drop_last(),
                            },
                        )
                    } else {
                        Some(StmtV::Loop { head: LoopHead::Repeat(c), body: rest })
                    }
                },
            },
        }
    }
}

fn inline_until(body: &Vec<Stmt>, cond: &Expr, vs: &Vec<Expr>, protected: Option<&NameSet>) -> (r: Option<Stmt>)
    ensures
        match r {
            Some(s) => until_inlined(block(body@), cond@, exprs(vs@), protected) == Some(s@),
            None => until_inlined(block(body@), cond@, exprs(vs@), protected) is None,
        },
{
    let n: usize = body.len();
    let ghost v = block(body@);
    assert(v.len() == n);
    if n == 0 {
        return None;
    }
    assert(v.last() == body@[n - 1]@);
    match sole_var_assign(&body[n - 1]) {
        None => None,
        Some((name, e)) => match repeat_temp_condition(cond, e) {
            None => None,
            Some((m, c)) => {
                if !str_eq(&m, name) {
                    return None;
                }
                let ghost rest = v.drop_last();
                assert(rest =~= v.subrange(0, n - 1));
                if !can_go(protected, name, e, &c, range(body, 0, n - 1), vs) {
                    return None;
                }
                if n >= 2 {
                    assert(rest.last() == v[n - 2]);
                    assert(v[n - 2] == body@[n - 2]@);
                    assert(rest.drop_last() =~= v.subrange(0, n - 2));
                    if let Some((d, ws)) = crate::back_loops::as_return_guard(&body[n - 2]) {
                        if exprs_eq(ws, vs) {
                            return Some(
                                Stmt::Repeat {
                                    body: copy_range(body, 0, n - 2),
                                    cond: binary_expr("or", d.clone(), c),
                                },
                            );
                        }
                    }
                }
                Some(Stmt::Repeat { body: copy_range(body, 0, n - 1), cond: c })
            },
        },
    }
}

/// The statement at `i`, with its `until` condition inlined where it can be.
pub open spec fn until_at(b: Block, i: int, protected: Option<&NameSet>) -> StmtV {
    if i + 1 < b.len() {
        match (b[i], b[i + 1]) {
            (StmtV::Loop { head: LoopHead::Repeat(c), body }, StmtV::Return(vs)) => match until_inlined(
                body,
                c,
                vs,
                protected,
            ) {
                Some(s) => s,
                None => b[i],
            },
            _ => b[i],
        }
    } else {
        b[i]
    }
}

/// Takes the last assignment of a `repeat` body into its condition; `protected`, where it is there,
/// says which assignments stay.
pub struct RepeatGuards<'a> {
    pub protected: Option<&'a NameSet>,
}

impl<'a> Pass for RepeatGuards<'a> {
    open spec fn rewrite(&self, b: Block) -> Block {
        Seq::new(b.len(), |i: int| until_at(b, i, self.protected))
    }

    fn run(&self, b: Vec<Stmt>) -> (r: Vec<Stmt>) {
        let ghost v = block(b@);
        let mut out: Vec<Stmt> = Vec::new();
        let mut i: usize = 0;
        while i < b.len()
            invariant
                i <= b.len(),
                v == block(b@),
                out.len() == i,
                forall|j: int| 0 <= j < i ==> (#[trigger] out@[j])@ == until_at(v, j, self.protected),
            decreases b.len() - i,
        {
            assert(v[i as int] == b@[i as int]@);
            let mut s = b[i].clone();
            if i + 1 < b.len() {
                assert(v[i + 1] == b@[i + 1]@);
                if let (Stmt::Repeat { body, cond }, Stmt::Return(vs)) = (&b[i], &b[i + 1]) {
                    if let Some(t) = inline_until(body, cond, vs, self.protected) {
                        s = t;
                    }
                }
            }
            out.push(s);
            i += 1;
        }
        assert(block(out@) =~= self.rewrite(v));
        out
    }
}

/// Moves the last assignment of a `repeat` body, and a guard before it, into its condition.
pub fn simplify_repeat_return_guards(root: &mut Vec<Stmt>)
    ensures
        block(final(root)@) == throughout(RepeatGuards { protected: None }, block(old(root)@)),
{
    *root = run_throughout(&RepeatGuards { protected: None }, root);
}

/// Moves the last assignment of a `repeat` body, and a guard before it, into its condition, where
/// nothing else needs what it assigns. Assignments to `protected` names stay.
pub fn simplify_unseen_repeat_guards(root: &mut Vec<Stmt>, protected: &NameSet)
    ensures
        block(final(root)@) == throughout(RepeatGuards { protected: Some(protected) }, block(old(root)@)),
{
    *root = run_throughout(&RepeatGuards { protected: Some(protected) }, root);
}

} // verus!
