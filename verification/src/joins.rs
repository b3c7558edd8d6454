//! Jumps to where branches come together again.
use vstd::prelude::*;

use crate::ast::{
    block, clone_block, concat, copy_range, if_then, one, range, repeat_once, spec_if, spec_once, spec_splice, splice,
    Block, Stmt, StmtV,
};
use crate::conditions::{
    cond_goto, cond_goto_jumps, conditional_goto_expr, direct_local_scope_safe, negate_condition, negated, scope_safe,
};
use crate::jumps::{
    has_goto_in_nested_loop, jumps_from_loop, no_jumps_no_gotos, only, replace_gotos, replace_gotos_fewer, with_breaks,
};
use crate::labeled_bodies::rest_of;
use crate::names::NameSet;
use crate::paths::{
    paths, paths_concat, paths_one, paths_positive, paths_range, paths_range_one, paths_splice, paths_subrange_le,
    stmt_paths, Paths,
};
use crate::query::{
    any_goto, find_label, find_label_found, goto_names, goto_names_in_stmt, goto_names_members, goto_to, gotos,
    gotos_only_in, has_goto, has_jumps, has_label, label_names, label_names_in_block, label_or_goto,
    label_or_other_goto, labels, one_goto, position_of_label, range_has_jumps, GotoTo, LabelOrGoto, LabelOrOtherGoto,
};
use crate::routing::{
    absorb_join_in_stmt, absorbed_stmt, absorbed_stmt_paths, route_gotos_to_target_body,
    route_gotos_to_target_body_deep, routed, routed_deep, widen_locals_read_after_join, widened, widened_paths,
};
use crate::rules::{
    everywhere, everywhere_same, first_from, rewrite_everywhere, scan_same, tree_of, tree_of_model, Either, Gotos,
    Measure, Rule, Scan, Step,
};
use crate::text::Text;
use crate::weight::{
    deep, deep_le, deep_member, deep_one, deep_range, deep_range_one, deep_splice, deep_stmt, occurs, occurs_in_stmt,
};

verus! {

// ---- joins with their label --------------------------------------------------------------------

/// The label that a branch of `s` ends by jumping to, and whether it is the first branch.
pub open spec fn trailing_goto(s: StmtV) -> Option<(Text, bool)> {
    match s {
        StmtV::If { then_body, else_body, .. } => if then_body.len() > 0 && then_body.last() is Goto {
            Some((then_body.last()->Goto_0, true))
        } else if else_body.len() > 0 && else_body.last() is Goto {
            Some((else_body.last()->Goto_0, false))
        } else {
            None
        },
        _ => None,
    }
}

fn last_goto(b: &Vec<Stmt>) -> (r: Option<&String>)
    ensures
        match r {
            Some(l) => block(b@).len() > 0 && block(b@).last() == StmtV::Goto(l@),
            None => block(b@).len() == 0 || !(block(b@).last() is Goto),
        },
{
    let n: usize = b.len();
    if n == 0 {
        return None;
    }
    assert(block(b@).last() == b@[n - 1]@);
    match &b[n - 1] {
        Stmt::Goto(l) => Some(l),
        _ => None,
    }
}

fn trailing_branch_goto(s: &Stmt) -> (r: Option<(&String, bool)>)
    ensures
        match r {
            Some((l, first)) => trailing_goto(s@) == Some((l@, first)),
            None => trailing_goto(s@) is None,
        },
{
    match s {
        Stmt::If { then_body, else_body, .. } => match last_goto(then_body) {
            Some(l) => Some((l, true)),
            None => match last_goto(else_body) {
                Some(l) => Some((l, false)),
                None => None,
            },
        },
        _ => None,
    }
}

/// The statement at `i` with everything up to the label that its one jump goes to moved into the
/// branches that do not jump: the label, its position and the new statement. `root` is the whole
/// tree.
pub open spec fn nested_join(root: Block, b: Block, i: int) -> Option<(Text, int, StmtV)> {
    let ls = goto_names(b[i]);
    if !(b[i] is If) || ls.len() != 1 {
        None
    } else {
        let l = ls[0];
        match find_label(b, i + 1, l) {
            None => None,
            Some(k) => {
                let between = b.subrange(i + 1, k);
                let rest = b.subrange(k + 1, b.len() as int);
                let cont = widened(between, rest);
                if gotos(root, l) != 1 || jumps_from_loop(only(b[i]), l) || has_jumps(between) || !scope_safe(cont, rest) {
                    None
                } else {
                    match absorbed_stmt(b[i], l, cont) {
                        Some(s) => Some((l, k, s)),
                        None => None,
                    }
                }
            },
        }
    }
}

/// Both branches come together at a label that nothing else jumps to: what one branch jumps over
/// belongs to the other.
pub struct IfJoin<'a> {
    /// The whole tree.
    pub root: &'a Vec<Stmt>,
}

impl<'a> IfJoin<'a> {
    /// The rewriting where a branch ends with the jump.
    pub open spec fn trailing(root: Block, b: Block, i: int) -> Option<Block> {
        match trailing_goto(b[i]) {
            None => None,
            Some((l, first)) => match find_label(b, i + 1, l) {
                None => None,
                Some(k) => {
                    let between = b.subrange(i + 1, k);
                    let rest = b.subrange(k + 1, b.len() as int);
                    let fallback = widened(between, rest);
                    if gotos(root, l) != 1 || k == i + 1 || has_jumps(between) || !scope_safe(fallback, rest) {
                        None
                    } else {
                        Some(spec_splice(b, i, k + 1, only(joined(b[i], first, fallback))))
                    }
                },
            },
        }
    }
}

/// The `if` statement without the last jump of one branch, and with `fallback` at the end of the
/// other.
pub open spec fn joined(s: StmtV, first: bool, fallback: Block) -> StmtV {
    match s {
        StmtV::If { cond, then_body, else_body } => if first {
            StmtV::If { cond, then_body: then_body.drop_last(), else_body: else_body + fallback }
        } else {
            StmtV::If { cond, then_body: then_body + fallback, else_body: else_body.drop_last() }
        },
        _ => s,
    }
}

fn join_branches(s: &Stmt, first: bool, fallback: Vec<Stmt>) -> (r: Stmt)
    requires
        trailing_goto(s@) matches Some((_, f)) && f == first,
    ensures
        r@ == joined(s@, first, block(fallback@)),
{
    match s {
        Stmt::If { cond, then_body, else_body } => if first {
            let t = copy_range(then_body, 0, then_body.len() - 1);
            assert(block(t@) =~= block(then_body@).drop_last());
            Stmt::If { cond: cond.clone(), then_body: t, else_body: concat(clone_block(else_body), fallback) }
        } else {
            let e = copy_range(else_body, 0, else_body.len() - 1);
            assert(block(e@) =~= block(else_body@).drop_last());
            Stmt::If { cond: cond.clone(), then_body: concat(clone_block(then_body), fallback), else_body: e }
        },
        _ => s.clone(),
    }
}

proof fn joined_paths(s: StmtV, first: bool, fallback: Block)
    requires
        trailing_goto(s) matches Some((_, f)) && f == first,
    ensures
        stmt_paths(joined(s, first, fallback)) < stmt_paths(s) * paths(fallback),
{
    if let StmtV::If { cond, then_body, else_body } = s {
        let f = paths(fallback);
        let x = paths(then_body);
        let y = paths(else_body);
        paths_positive(fallback);
        if first {
            let t = paths(then_body.drop_last());
            paths_concat(else_body, fallback);
            paths_positive(then_body.drop_last());
            assert(stmt_paths(then_body.last()) == 2);
            assert(x == t * 2);
            assert(t + y * f + 1 < (t * 2 + y + 1) * f) by (nonlinear_arith)
                requires
                    f >= 1,
                    t >= 1,
            ;
        } else {
            let t = paths(else_body.drop_last());
            paths_concat(then_body, fallback);
            paths_positive(else_body.drop_last());
            assert(stmt_paths(else_body.last()) == 2);
            assert(y == t * 2);
            assert(x * f + t + 1 < (x + t * 2 + 1) * f) by (nonlinear_arith)
                requires
                    f >= 1,
                    t >= 1,
            ;
        }
    }
}

impl<'a> Rule for IfJoin<'a> {
    type M = Paths;

    open spec fn at(&self, b: Block, i: int) -> Option<Block> {
        match nested_join(block(self.root@), b, i) {
            Some((l, k, s)) => Some(
                spec_splice(
                    b,
                    i,
                    if deep_stmt(goto_to(l), s) == 0 {
                        k + 1
                    } else {
                        k
                    },
                    only(s),
                ),
            ),
            None => IfJoin::trailing(block(self.root@), b, i),
        }
    }

    proof fn shrinks_at(&self, b: Block, i: int) {
        if let Some((l, k, s)) = nested_join(block(self.root@), b, i) {
            find_label_found(b, i + 1, l);
            let between = b.subrange(i + 1, k);
            let rest = b.subrange(k + 1, b.len() as int);
            let cont = widened(between, rest);
            assert(goto_names(b[i]).contains(goto_names(b[i])[0]));
            goto_names_members(b[i], l);
            widened_paths(between, rest);
            absorbed_stmt_paths(b[i], l, cont);
            paths_one(s);
            paths_range(b, i, i + 1, k);
            paths_range_one(b, i);
            paths_subrange_le(b, i, k, k + 1);
            paths_splice(b, i, k, only(s));
            paths_splice(b, i, k + 1, only(s));
        } else if let Some((l, first)) = trailing_goto(b[i]) {
            find_label_found(b, i + 1, l);
            if let Some(k) = find_label(b, i + 1, l) {
                let between = b.subrange(i + 1, k);
                let rest = b.subrange(k + 1, b.len() as int);
                let fallback = widened(between, rest);
                widened_paths(between, rest);
                joined_paths(b[i], first, fallback);
                paths_one(joined(b[i], first, fallback));
                paths_range(b, i, i + 1, k);
                paths_range_one(b, i);
                paths_subrange_le(b, i, k, k + 1);
                paths_splice(b, i, k, only(joined(b[i], first, fallback)));
                paths_splice(b, i, k + 1, only(joined(b[i], first, fallback)));
            }
        }
    }

    fn try_at(&self, b: &Vec<Stmt>, i: usize) -> (r: Option<Vec<Stmt>>) {
        match recover_nested_if_join(self.root, b, i) {
            Some((l, k, s)) => {
                let end: usize = if occurs_in_stmt(&GotoTo { label: &l }, &s) {
                    k
                } else {
                    k + 1
                };
                Some(splice(b, i, end, one(s)))
            },
            None => try_trailing_join(self.root, b, i),
        }
    }
}

fn recover_nested_if_join(root: &Vec<Stmt>, b: &Vec<Stmt>, i: usize) -> (r: Option<(String, usize, Stmt)>)
    requires
        i < b.len(),
    ensures
        match r {
            Some((l, k, s)) => nested_join(block(root@), block(b@), i as int) == Some((l@, k as int, s@)) && i < k < b.len(),
            None => nested_join(block(root@), block(b@), i as int) is None,
        },
{
    let n: usize = b.len();
    if !matches!(b[i], Stmt::If { .. }) {
        return None;
    }
    let ls = goto_names_in_stmt(&b[i]);
    if ls.len() != 1 {
        return None;
    }
    let l = ls.get(0);
    let here = range(b, i, i + 1);
    assert(block(here@) =~= only(block(b@)[i as int]));
    match position_of_label(b, i + 1, l) {
        None => None,
        Some(k) => {
            let rest = range(b, k + 1, n);
            if !one_goto(root, l) || has_goto_in_nested_loop(here, l) || range_has_jumps(b, i + 1, k) {
                return None;
            }
            let cont = widen_locals_read_after_join(range(b, i + 1, k), rest);
            if !direct_local_scope_safe(&cont, rest) {
                return None;
            }
            match absorb_join_in_stmt(&b[i], l, &cont) {
                Some(s) => Some((l.clone(), k, s)),
                None => None,
            }
        },
    }
}

fn try_trailing_join(root: &Vec<Stmt>, b: &Vec<Stmt>, i: usize) -> (r: Option<Vec<Stmt>>)
    requires
        i < b.len(),
    ensures
        crate::ast::opt_block(r) == IfJoin::trailing(block(root@), block(b@), i as int),
{
    let n: usize = b.len();
    match trailing_branch_goto(&b[i]) {
        None => None,
        Some((l, first)) => match position_of_label(b, i + 1, l) {
            None => None,
            Some(k) => {
                if !one_goto(root, l) || k == i + 1 || range_has_jumps(b, i + 1, k) {
                    return None;
                }
                let rest = range(b, k + 1, n);
                let fallback = widen_locals_read_after_join(range(b, i + 1, k), rest);
                if !direct_local_scope_safe(&fallback, rest) {
                    return None;
                }
                Some(splice(b, i, k + 1, one(join_branches(&b[i], first, fallback))))
            },
        },
    }
}

/// `b`, where branches that jump forward to a label come together there.
pub open spec fn if_joins_recovered(b: Block) -> Block {
    everywhere(Scan(IfJoin { root: &tree_of(b) }), b)
}

/// Recovers branches that jump forward to a common continuation.
pub fn recover_if_join_gotos(root: &mut Vec<Stmt>)
    ensures
        block(final(root)@) == if_joins_recovered(block(old(root)@)),
{
    let ghost other = tree_of(block(root@));
    let p = Scan(IfJoin { root });
    proof {
        tree_of_model(*root);
        let q = Scan(IfJoin { root: &other });
        scan_same(p.0, q.0);
        everywhere_same(p, q, block(root@));
    }
    let out = rewrite_everywhere(&p, root);
    *root = out;
}

// ---- joins whose label is gone -----------------------------------------------------------------

/// The number of statements at the top level.
pub struct Length;

impl Measure for Length {
    open spec fn of(b: Block) -> nat {
        b.len()
    }
}

/// Whether `s` runs straight on or leaves.
pub open spec fn straight(s: StmtV) -> bool {
    s is Assign || s is Call || s is Return || s is Break || s is Continue
}

/// Whether `b` is short and runs straight through.
pub open spec fn short_straight(b: Block) -> bool {
    0 < b.len() <= 8 && forall|i: int| 0 <= i < b.len() ==> straight(#[trigger] b[i])
}

fn is_short_straight_line_tail(b: &[Stmt]) -> (r: bool)
    ensures
        r == short_straight(block(b@)),
{
    if b.len() == 0 || b.len() > 8 {
        return false;
    }
    let ghost v = block(b@);
    let mut i: usize = 0;
    while i < b.len()
        invariant
            i <= b.len(),
            v == block(b@),
            forall|j: int| 0 <= j < i ==> straight(#[trigger] v[j]),
        decreases b.len() - i,
    {
        assert(v[i as int] == b@[i as int]@);
        if !matches!(b[i], Stmt::Assign { .. } | Stmt::Call(_) | Stmt::Return(_) | Stmt::Break | Stmt::Continue) {
            return false;
        }
        i += 1;
    }
    true
}

/// A branch that jumps to a label that stands nowhere skips the short rest of its block.
pub struct OrphanJoin<'a> {
    pub labels: &'a NameSet,
}

/// The rewriting at `i`, where `ls` are the labels that stand somewhere.
pub open spec fn orphan_join_at(ls: Seq<Text>, b: Block, i: int) -> Option<Block> {
    let names = goto_names(b[i]);
    let rest = b.subrange(i + 1, b.len() as int);
    if names.len() != 1 || ls.contains(names[0]) || jumps_from_loop(only(b[i]), names[0]) || !short_straight(
        rest,
    ) {
        None
    } else {
        match absorbed_stmt(b[i], names[0], rest) {
            Some(s) => Some(spec_splice(b, i, b.len() as int, only(s))),
            None => None,
        }
    }
}

impl<'a> Rule for OrphanJoin<'a> {
    type M = Length;

    open spec fn at(&self, b: Block, i: int) -> Option<Block> {
        orphan_join_at(self.labels@, b, i)
    }

    proof fn shrinks_at(&self, b: Block, i: int) {
    }

    fn try_at(&self, b: &Vec<Stmt>, i: usize) -> (r: Option<Vec<Stmt>>) {
        let n: usize = b.len();
        let names = goto_names_in_stmt(&b[i]);
        if names.len() != 1 {
            return None;
        }
        let l = names.get(0);
        let here = range(b, i, i + 1);
        assert(block(here@) =~= only(block(b@)[i as int]));
        let rest = range(b, i + 1, n);
        if self.labels.contains(l) || has_goto_in_nested_loop(here, l) || !is_short_straight_line_tail(rest) {
            return None;
        }
        match absorb_join_in_stmt(&b[i], l, rest) {
            Some(s) => Some(splice(b, i, n, one(s))),
            None => None,
        }
    }
}

/// A guard that jumps to a label that stands nowhere skips the short rest of its block.
pub struct OrphanSkip<'a> {
    pub labels: &'a NameSet,
}

/// The rewriting at `i`, where `ls` are the labels that stand somewhere.
pub open spec fn orphan_skip_at(ls: Seq<Text>, b: Block, i: int) -> Option<Block> {
    match cond_goto(b[i], None) {
        None => None,
        Some((c, l)) => {
            let tail = b.subrange(i + 1, b.len() as int);
            if ls.contains(l) || jumps_from_loop(only(b[i]), l) || !short_straight(tail) {
                None
            } else {
                Some(spec_splice(b, i, b.len() as int, only(spec_if(negated(c), tail))))
            }
        },
    }
}

impl<'a> Rule for OrphanSkip<'a> {
    type M = Length;

    open spec fn at(&self, b: Block, i: int) -> Option<Block> {
        orphan_skip_at(self.labels@, b, i)
    }

    proof fn shrinks_at(&self, b: Block, i: int) {
    }

    fn try_at(&self, b: &Vec<Stmt>, i: usize) -> (r: Option<Vec<Stmt>>) {
        let n: usize = b.len();
        match conditional_goto_expr(&b[i], None) {
            None => None,
            Some((c, l)) => {
                let here = range(b, i, i + 1);
                assert(block(here@) =~= only(block(b@)[i as int]));
                if self.labels.contains(&l) || has_goto_in_nested_loop(here, &l) || !is_short_straight_line_tail(
                    range(b, i + 1, n),
                ) {
                    return None;
                }
                let tail = copy_range(b, i + 1, n);
                Some(splice(b, i, n, one(if_then(negate_condition(&c), tail))))
            },
        }
    }
}

/// Both rewritings, for the labels `labels`.
pub open spec fn orphan_exits<'a>(labels: &'a NameSet) -> Either<Scan<OrphanSkip<'a>>, Scan<OrphanJoin<'a>>> {
    Either(Scan(OrphanSkip { labels }), Scan(OrphanJoin { labels }))
}

proof fn orphan_skip_same(p: NameSet, q: NameSet, b: Block, i: int)
    requires
        p@ == q@,
    ensures
        first_from(OrphanSkip { labels: &p }, b, i) == first_from(OrphanSkip { labels: &q }, b, i),
        first_from(OrphanJoin { labels: &p }, b, i) == first_from(OrphanJoin { labels: &q }, b, i),
    decreases b.len() - i,
{
    if 0 <= i < b.len() {
        orphan_skip_same(p, q, b, i + 1);
    }
}

/// What the rewriting gives depends on the names in the set alone.
pub proof fn orphan_exits_same(p: NameSet, q: NameSet, b: Block)
    requires
        p@ == q@,
    ensures
        everywhere(orphan_exits(&p), b) == everywhere(orphan_exits(&q), b),
{
    let x = orphan_exits(&p);
    let y = orphan_exits(&q);
    assert forall|c: Block| #[trigger] x.step(c) == y.step(c) by {
        orphan_skip_same(p, q, c, 0);
    }
    everywhere_same(x, y, b);
}

/// `b`, where a jump to a label that stands nowhere in `b` becomes a branch around the rest of its
/// block, if that rest is short.
pub open spec fn orphans_joined(b: Block) -> Block {
    everywhere(orphan_exits(&choose|ls: NameSet| #[trigger] ls@ == label_names(b)), b)
}

/// Turns jumps to labels that stand nowhere into branches around the rests of their blocks, where
/// these are short.
pub fn recover_orphan_if_join_gotos(root: &mut Vec<Stmt>)
    ensures
        block(final(root)@) == orphans_joined(block(old(root)@)),
{
    let ls = label_names_in_block(root);
    let p = Either(Scan(OrphanSkip { labels: &ls }), Scan(OrphanJoin { labels: &ls }));
    assert(p == orphan_exits(&ls));
    proof {
        let b = block(root@);
        let other = choose|ls: NameSet| #[trigger] ls@ == label_names(b);
        orphan_exits_same(ls, other, b);
    }
    *root = rewrite_everywhere(&p, root);
}

// ---- branches that begin with a label ------------------------------------------------------------

/// Whether `s` is an `if` whose second branch begins with a label.
pub open spec fn else_labelled(s: StmtV) -> bool {
    s matches StmtV::If { else_body, .. } && else_body.len() > 0 && else_body[0] is Label
}

/// The number of `if`s at the top level whose second branch begins with a label.
pub struct ElseLabels;

impl Measure for ElseLabels {
    open spec fn of(b: Block) -> nat {
        else_labels(b)
    }
}

pub open spec fn else_labels(b: Block) -> nat
    decreases b.len(),
{
    if b.len() == 0 {
        0
    } else {
        else_labels(b.drop_last()) + if else_labelled(b.last()) {
            1nat
        } else {
            0
        }
    }
}

proof fn else_labels_concat(a: Block, b: Block)
    ensures
        else_labels(a + b) == else_labels(a) + else_labels(b),
    decreases b.len(),
{
    if b.len() == 0 {
        assert(a + b =~= a);
    } else {
        else_labels_concat(a, b.drop_last());
        assert((a + b).drop_last() =~= a + b.drop_last());
    }
}

proof fn else_labels_one(s: StmtV)
    ensures
        else_labels(seq![s]) == if else_labelled(s) {
            1nat
        } else {
            0
        },
{
    assert(seq![s].drop_last() =~= Seq::<StmtV>::empty());
    assert(else_labels(Seq::<StmtV>::empty()) == 0);
}

/// The first branch jumps to the label that leads the second: it runs the second branch instead.
pub struct ElseLabel;

impl Rule for ElseLabel {
    type M = ElseLabels;

    open spec fn at(&self, b: Block, i: int) -> Option<Block> {
        match b[i] {
            StmtV::If { cond, then_body, else_body } => if else_body.len() == 0 || !(else_body[0] is Label) {
                None
            } else {
                let l = else_body[0]->Label_0;
                let target = rest_of(else_body);
                if gotos(then_body, l) == 0 || gotos(else_body, l) > 0 || jumps_from_loop(then_body, l)
                    || has_jumps(target) {
                    None
                } else {
                    match routed(then_body, l, target, Seq::empty()) {
                        Some(t) => Some(
                            spec_splice(
                                b,
                                i,
                                i + 1,
                                only(StmtV::If { cond, then_body: t, else_body: target }),
                            ),
                        ),
                        None => None,
                    }
                }
            },
            _ => None,
        }
    }

    proof fn shrinks_at(&self, b: Block, i: int) {
        if let StmtV::If { cond, then_body, else_body } = b[i] {
            if else_body.len() > 0 && else_body[0] is Label {
                let target = rest_of(else_body);
                let l = else_body[0]->Label_0;
                if let Some(t) = routed(then_body, l, target, Seq::empty()) {
                    let s = StmtV::If { cond, then_body: t, else_body: target };
                    if !has_jumps(target) {
                        if target.len() > 0 {
                            deep_member(label_or_goto(), target, 0);
                        }
                        let x = b.subrange(0, i);
                        let y = b.subrange(i + 1, b.len() as int);
                        assert(b =~= x + seq![b[i]] + y);
                        else_labels_concat(x + seq![b[i]], y);
                        else_labels_concat(x, seq![b[i]]);
                        else_labels_concat(x + only(s), y);
                        else_labels_concat(x, only(s));
                        else_labels_one(b[i]);
                        else_labels_one(s);
                    }
                }
            }
        }
    }

    fn try_at(&self, b: &Vec<Stmt>, i: usize) -> (r: Option<Vec<Stmt>>) {
        match &b[i] {
            Stmt::If { cond, then_body, else_body } => {
                let n: usize = else_body.len();
                assert(block(else_body@).len() == n);
                if n == 0 {
                    return None;
                }
                assert(block(else_body@)[0] == else_body@[0]@);
                match &else_body[0] {
                    Stmt::Label(l) => {
                        let target = range(else_body, 1, n);
                        if !has_goto(then_body, l) || has_goto(else_body, l) || has_goto_in_nested_loop(then_body, l)
                            || occurs(&LabelOrGoto, target) {
                            return None;
                        }
                        let nothing: Vec<Stmt> = crate::ast::none();
                        match route_gotos_to_target_body(then_body, l, target, &nothing) {
                            Some(t) => {
                                let s = Stmt::If {
                                    cond: cond.clone(),
                                    then_body: t,
                                    else_body: clone_block(target),
                                };
                                Some(splice(b, i, i + 1, one(s)))
                            },
                            None => None,
                        }
                    },
                    _ => None,
                }
            },
            _ => None,
        }
    }
}

/// Recovers first branches that jump into the second.
pub fn recover_else_label_gotos(root: &mut Vec<Stmt>)
    ensures
        block(final(root)@) == everywhere(Scan(ElseLabel), block(old(root)@)),
{
    *root = rewrite_everywhere(&Scan(ElseLabel), root);
}

/// Statements that jump into the second branch of a later `if`: they run that branch and skip the
/// `if`.
pub struct LaterElse;

/// The rewriting of the statements from `i` to `t`, where `t` is that `if`.
pub open spec fn later_else(b: Block, i: int, t: int) -> Option<Block> {
    match b[t] {
        StmtV::If { cond, then_body, else_body } => if else_body.len() == 0 || !(else_body[0] is Label) {
            None
        } else {
            let l = else_body[0]->Label_0;
            let leading = b.subrange(i, t);
            let after = b.subrange(t + 1, b.len() as int);
            let target = rest_of(else_body);
            let plain = StmtV::If { cond, then_body, else_body: target };
            if gotos(leading, l) == 0 || deep(label_or_other_goto(l), leading) > 0 || jumps_from_loop(leading, l)
                || gotos(b, l) != gotos(leading, l) || labels(b.subrange(0, i), l) > 0 || labels(after, l) > 0
                || !scope_safe(leading, after) || target.len() == 0 || has_jumps(target) || has_jumps(only(plain)) {
                None
            } else {
                match routed_deep(leading, l, target, only(plain)) {
                    Some(o) => if o.len() == 0 || has_jumps(o) {
                        None
                    } else {
                        Some(spec_splice(b, i, t + 1, o))
                    },
                    None => None,
                }
            }
        },
        _ => None,
    }
}

/// The rewriting for the first `if` from `t` on for which there is one.
pub open spec fn first_later_else(b: Block, i: int, t: int) -> Option<Block>
    decreases b.len() - t,
{
    if t < 0 || t >= b.len() || t >= i + 48 {
        None
    } else {
        match later_else(b, i, t) {
            Some(c) => Some(c),
            None => first_later_else(b, i, t + 1),
        }
    }
}

proof fn first_later_else_shrinks(b: Block, i: int, t: int)
    requires
        0 <= i < t,
    ensures
        first_later_else(b, i, t) matches Some(c) ==> deep(any_goto(), c) < deep(any_goto(), b),
    decreases b.len() - t,
{
    if t < b.len() && t < i + 48 {
        first_later_else_shrinks(b, i, t + 1);
        if let Some(c) = later_else(b, i, t) {
            if let StmtV::If { cond, then_body, else_body } = b[t] {
                let l = else_body[0]->Label_0;
                let leading = b.subrange(i, t);
                let target = rest_of(else_body);
                let plain = StmtV::If { cond, then_body, else_body: target };
                if let Some(o) = routed_deep(leading, l, target, only(plain)) {
                    let g = any_goto();
                    no_jumps_no_gotos(o);
                    deep_le(goto_to(l), g, leading);
                    deep_range(g, b, i, t, t + 1);
                    deep_splice(g, b, i, t + 1, o);
                }
            }
        }
    }
}

impl Rule for LaterElse {
    type M = Gotos;

    open spec fn at(&self, b: Block, i: int) -> Option<Block> {
        first_later_else(b, i, i + 1)
    }

    proof fn shrinks_at(&self, b: Block, i: int) {
        first_later_else_shrinks(b, i, i + 1);
    }

    fn try_at(&self, b: &Vec<Stmt>, i: usize) -> (r: Option<Vec<Stmt>>) {
        let n: usize = b.len();
        let mut t: usize = i + 1;
        while t < n && t - i < 48
            invariant
                i < t <= n,
                n == b.len(),
                first_later_else(block(b@), i as int, i + 1) == first_later_else(block(b@), i as int, t as int),
            decreases n - t,
        {
            match try_later_else(b, i, t) {
                Some(c) => {
                    return Some(c);
                },
                None => {},
            }
            t += 1;
        }
        None
    }
}

fn try_later_else(b: &Vec<Stmt>, i: usize, t: usize) -> (r: Option<Vec<Stmt>>)
    requires
        i < t < b.len(),
    ensures
        crate::ast::opt_block(r) == later_else(block(b@), i as int, t as int),
{
    let n: usize = b.len();
    match &b[t] {
        Stmt::If { cond, then_body, else_body } => {
            let m: usize = else_body.len();
            assert(block(else_body@).len() == m);
            if m == 0 {
                return None;
            }
            assert(block(else_body@)[0] == else_body@[0]@);
            match &else_body[0] {
                Stmt::Label(l) => {
                    let leading = range(b, i, t);
                    let after = range(b, t + 1, n);
                    let target = range(else_body, 1, m);
                    if m == 1 || !has_goto(leading, l) || occurs(&LabelOrOtherGoto { allowed: l }, leading)
                        || has_goto_in_nested_loop(leading, l) || !gotos_only_in(b, i, t, l) || has_label(
                        range(b, 0, i),
                        l,
                    ) || has_label(after, l) || !direct_local_scope_safe(leading, after) || occurs(
                        &LabelOrGoto,
                        target,
                    ) {
                        return None;
                    }
                    let plain = one(
                        Stmt::If {
                            cond: cond.clone(),
                            then_body: clone_block(then_body),
                            else_body: clone_block(target),
                        },
                    );
                    if occurs(&LabelOrGoto, &plain) {
                        return None;
                    }
                    match route_gotos_to_target_body_deep(leading, l, target, &plain) {
                        Some(o) => if o.len() == 0 || occurs(&LabelOrGoto, &o) {
                            None
                        } else {
                            Some(splice(b, i, t + 1, o))
                        },
                        None => None,
                    }
                },
                _ => None,
            }
        },
        _ => None,
    }
}

/// Recovers jumps into the second branch of a later `if`.
pub fn recover_gotos_to_later_else_label(root: &mut Vec<Stmt>)
    ensures
        block(final(root)@) == everywhere(Scan(LaterElse), block(old(root)@)),
{
    *root = rewrite_everywhere(&Scan(LaterElse), root);
}

// ---- branches that jump to the label right after them --------------------------------------------

/// Whether the jumps to `l` in `body` can become `break`s out of it.
pub open spec fn wrappable(body: Block, l: Text) -> bool {
    gotos(body, l) > 0 && labels(body, l) == 0 && !jumps_from_loop(body, l)
}

/// `body` as a block that its jumps to `l` leave, where it has any.
pub open spec fn wrapped(body: Block, l: Text) -> Block {
    if wrappable(body, l) {
        only(spec_once(replace_gotos(body, l, only(StmtV::Break))))
    } else {
        body
    }
}

proof fn wrapped_fewer(body: Block, l: Text)
    ensures
        deep(any_goto(), wrapped(body, l)) <= deep(any_goto(), body),
        wrappable(body, l) ==> deep(any_goto(), wrapped(body, l)) < deep(any_goto(), body),
{
    let g = any_goto();
    let new = replace_gotos(body, l, only(StmtV::Break));
    deep_one(g, StmtV::Break);
    replace_gotos_fewer(body, l, only(StmtV::Break));
    deep_one(g, spec_once(new));
}

fn can_wrap(body: &[Stmt], l: &str) -> (r: bool)
    ensures
        r == wrappable(block(body@), l@),
{
    has_goto(body, l) && !has_label(body, l) && !has_goto_in_nested_loop(body, l)
}

fn wrap_gotos_to_label_in_repeat_break(body: &[Stmt], l: &str) -> (r: Vec<Stmt>)
    ensures
        block(r@) == wrapped(block(body@), l@),
{
    if can_wrap(body, l) {
        let inner = with_breaks(body, l);
        one(repeat_once(inner))
    } else {
        clone_block(body)
    }
}

/// A branch that jumps to the label right after the `if` becomes a block that `break` leaves.
pub struct FollowingLabel;

impl Rule for FollowingLabel {
    type M = Gotos;

    open spec fn at(&self, b: Block, i: int) -> Option<Block> {
        if i + 1 >= b.len() {
            None
        } else {
            match (b[i], b[i + 1]) {
                (StmtV::If { cond, then_body, else_body }, StmtV::Label(l)) => if gotos(b.subrange(0, i), l) > 0 || (
                !wrappable(then_body, l) && !wrappable(else_body, l)) {
                    None
                } else {
                    Some(
                        spec_splice(
                            b,
                            i,
                            i + 2,
                            only(
                                StmtV::If {
                                    cond,
                                    then_body: wrapped(then_body, l),
                                    else_body: wrapped(else_body, l),
                                },
                            ),
                        ),
                    )
                },
                _ => None,
            }
        }
    }

    proof fn shrinks_at(&self, b: Block, i: int) {
        if i + 1 < b.len() {
            if let (StmtV::If { cond, then_body, else_body }, StmtV::Label(l)) = (b[i], b[i + 1]) {
                let g = any_goto();
                let s = StmtV::If {
                    cond,
                    then_body: wrapped(then_body, l),
                    else_body: wrapped(else_body, l),
                };
                wrapped_fewer(then_body, l);
                wrapped_fewer(else_body, l);
                deep_range(g, b, i, i + 1, i + 2);
                deep_range_one(g, b, i);
                deep_splice(g, b, i, i + 2, only(s));
                deep_one(g, s);
            }
        }
    }

    fn try_at(&self, b: &Vec<Stmt>, i: usize) -> (r: Option<Vec<Stmt>>) {
        let n: usize = b.len();
        if n - i < 2 {
            return None;
        }
        match (&b[i], &b[i + 1]) {
            (Stmt::If { cond, then_body, else_body }, Stmt::Label(l)) => {
                if has_goto(range(b, 0, i), l) || (!can_wrap(then_body, l) && !can_wrap(else_body, l)) {
                    return None;
                }
                let s = Stmt::If {
                    cond: cond.clone(),
                    then_body: wrap_gotos_to_label_in_repeat_break(then_body, l),
                    else_body: wrap_gotos_to_label_in_repeat_break(else_body, l),
                };
                Some(splice(b, i, i + 2, one(s)))
            },
            _ => None,
        }
    }
}

/// Recovers branches that jump to the label right after them.
pub fn recover_branch_gotos_to_following_label(root: &mut Vec<Stmt>)
    ensures
        block(final(root)@) == everywhere(Scan(FollowingLabel), block(old(root)@)),
{
    *root = rewrite_everywhere(&Scan(FollowingLabel), root);
}

// ---- if / else -----------------------------------------------------------------------------------

/// `if c then goto ELSE end; A; goto END; ::ELSE::; B; ::END::` becomes
/// `if not c then A else B end`.
pub struct IfElse;

impl Rule for IfElse {
    type M = Gotos;

    open spec fn at(&self, b: Block, i: int) -> Option<Block> {
        match cond_goto(b[i], None) {
            None => None,
            Some((c, l)) => match find_label(b, 0, l) {
                None => None,
                Some(e) => if e <= i + 1 || !(b[e - 1] is Goto) {
                    None
                } else {
                    match find_label(b, 0, b[e - 1]->Goto_0) {
                        None => None,
                        Some(k) => if k <= e {
                            None
                        } else {
                            Some(
                                spec_splice(
                                    b,
                                    i,
                                    k + 1,
                                    only(
                                        StmtV::If {
                                            cond: negated(c),
                                            then_body: b.subrange(i + 1, e - 1),
                                            else_body: b.subrange(e + 1, k),
                                        },
                                    ),
                                ),
                            )
                        },
                    }
                },
            },
        }
    }

    proof fn shrinks_at(&self, b: Block, i: int) {
        cond_goto_jumps(b[i], None);
        if let Some((c, l)) = cond_goto(b[i], None) {
            find_label_found(b, 0, l);
            if let Some(e) = find_label(b, 0, l) {
                if e > i + 1 && b[e - 1] is Goto {
                    find_label_found(b, 0, b[e - 1]->Goto_0);
                    if let Some(k) = find_label(b, 0, b[e - 1]->Goto_0) {
                        if k > e {
                            let g = any_goto();
                            let s = StmtV::If {
                                cond: negated(c),
                                then_body: b.subrange(i + 1, e - 1),
                                else_body: b.subrange(e + 1, k),
                            };
                            deep_range(g, b, i, i + 1, k + 1);
                            deep_range(g, b, i + 1, e - 1, k + 1);
                            deep_range(g, b, e - 1, e + 1, k + 1);
                            deep_range(g, b, e + 1, k, k + 1);
                            deep_range_one(g, b, i);
                            deep_splice(g, b, i, k + 1, only(s));
                            deep_one(g, s);
                        }
                    }
                }
            }
        }
    }

    fn try_at(&self, b: &Vec<Stmt>, i: usize) -> (r: Option<Vec<Stmt>>) {
        match conditional_goto_expr(&b[i], None) {
            None => None,
            Some((c, l)) => match position_of_label(b, 0, &l) {
                None => None,
                Some(e) => {
                    if e <= i + 1 {
                        return None;
                    }
                    match &b[e - 1] {
                        Stmt::Goto(m) => match position_of_label(b, 0, m) {
                            None => None,
                            Some(k) => {
                                if k <= e {
                                    return None;
                                }
                                let s = Stmt::If {
                                    cond: negate_condition(&c),
                                    then_body: copy_range(b, i + 1, e - 1),
                                    else_body: copy_range(b, e + 1, k),
                                };
                                Some(splice(b, i, k + 1, one(s)))
                            },
                        },
                        _ => None,
                    }
                },
            },
        }
    }
}

/// Recovers two-way branches written with jumps.
pub fn recover_if_else_gotos(root: &mut Vec<Stmt>)
    ensures
        block(final(root)@) == everywhere(Scan(IfElse), block(old(root)@)),
{
    *root = rewrite_everywhere(&Scan(IfElse), root);
}

} // verus!
