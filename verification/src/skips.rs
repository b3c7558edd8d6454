//! Jumps that skip a stretch of statements.
use vstd::prelude::*;

use crate::ast::{
    block, clone_block, copy_range, if_then, none, one, range, repeat_once, spec_if, spec_once, spec_splice, splice,
    Block, Stmt, StmtV,
};
use crate::conditions::{
    cond_goto, cond_goto_jumps, conditional_goto_expr, negate_condition, negated, range_scope_safe, scope_safe,
};
use crate::dead_stores::effect_of;
use crate::jumps::{has_goto_in_nested_loop, jumps_from_loop, only, replace_gotos, replace_gotos_fewer, with_breaks};
use crate::naming::is_pure;
use crate::query::{
    any_goto, break_or_continue, find_label, find_label_found, goto_to, gotos, gotos_only_at, gotos_only_in, has_jumps,
    has_label, label_or_other_goto, labels, one_goto, position_of_label, range_has_jumps, BreakOrContinue, GotoTo,
    LabelOrOtherGoto,
};
use crate::rules::{
    everywhere, everywhere_same, outward, outward_same, per_missing_same, rewrite_everywhere, rewrite_outward,
    scan_same, tree_of, tree_of_model, Gotos, LabelRule, Measure, NameRule, PerLabel, PerMissing, Rule, Scan,
};
use crate::text::Text;
use crate::weight::{
    deep, deep_at, deep_member, deep_one, deep_range, deep_range_one, deep_splice, deep_stmt, occurs, occurs_in_stmt,
};

verus! {

/// `if c then goto L end; skipped; ::L::` becomes `if not c then skipped end`; where nothing is
/// skipped, only what `c` calls stays.
pub struct IfSkip;

impl Rule for IfSkip {
    type M = Gotos;

    open spec fn at(&self, b: Block, i: int) -> Option<Block> {
        match cond_goto(b[i], None) {
            None => None,
            Some((c, l)) => match find_label(b, i + 1, l) {
                None => None,
                Some(k) => {
                    let skipped = b.subrange(i + 1, k);
                    if gotos(b, l) != 1 || has_jumps(skipped) || !scope_safe(
                        skipped,
                        b.subrange(k + 1, b.len() as int),
                    ) {
                        None
                    } else if k == i + 1 {
                        Some(spec_splice(b, i, k + 1, effect_of(c)))
                    } else {
                        Some(spec_splice(b, i, k + 1, only(spec_if(negated(c), skipped))))
                    }
                },
            },
        }
    }

    proof fn shrinks_at(&self, b: Block, i: int) {
        cond_goto_jumps(b[i], None);
        if let Some((c, l)) = cond_goto(b[i], None) {
            find_label_found(b, i + 1, l);
            if let Some(k) = find_label(b, i + 1, l) {
                let skipped = b.subrange(i + 1, k);
                let g = any_goto();
                deep_range(g, b, i, i + 1, k + 1);
                deep_range(g, b, i + 1, k, k + 1);
                deep_range_one(g, b, i);
                deep_splice(g, b, i, k + 1, effect_of(c));
                deep_one(g, StmtV::Call(c));
                deep_splice(g, b, i, k + 1, only(spec_if(negated(c), skipped)));
                deep_one(g, spec_if(negated(c), skipped));
            }
        }
    }

    fn try_at(&self, b: &Vec<Stmt>, i: usize) -> (r: Option<Vec<Stmt>>) {
        match conditional_goto_expr(&b[i], None) {
            None => None,
            Some((c, l)) => match position_of_label(b, i + 1, &l) {
                None => None,
                Some(k) => {
                    if !one_goto(b, &l) || range_has_jumps(b, i + 1, k) || !range_scope_safe(b, i + 1, k, k + 1) {
                        return None;
                    }
                    if k == i + 1 {
                        if is_pure(&c) {
                            Some(splice(b, i, k + 1, none()))
                        } else {
                            Some(splice(b, i, k + 1, one(Stmt::Call(c))))
                        }
                    } else {
                        let body = copy_range(b, i + 1, k);
                        Some(splice(b, i, k + 1, one(if_then(negate_condition(&c), body))))
                    }
                },
            },
        }
    }
}

/// Recovers guarded forward jumps over label-free code as `if` statements.
pub fn recover_if_skip_gotos(root: &mut Vec<Stmt>)
    ensures
        block(final(root)@) == everywhere(Scan(IfSkip), block(old(root)@)),
{
    *root = rewrite_everywhere(&Scan(IfSkip), root);
}

/// `if c then goto L end; accepted; continue; ::L::; rest` becomes
/// `if not c then accepted else rest end`.
pub struct GuardElse;

impl LabelRule for GuardElse {
    type M = Gotos;

    open spec fn at_label(&self, b: Block, i: int, l: Text) -> Option<Block> {
        match (cond_goto(b[i], Some(l)), find_label(b, i + 1, l)) {
            (Some((c, _)), Some(k)) => {
                let accepted = b.subrange(i + 1, k - 1);
                let rest = b.subrange(k + 1, b.len() as int);
                if gotos(b, l) != deep_stmt(goto_to(l), b[i]) || k == i + 1 || b[k - 1] != StmtV::Continue
                    || has_jumps(accepted) || !scope_safe(accepted, rest) {
                    None
                } else {
                    Some(
                        b.subrange(0, i).push(
                            StmtV::If { cond: negated(c), then_body: accepted, else_body: rest },
                        ),
                    )
                }
            },
            _ => None,
        }
    }

    proof fn shrinks_at_label(&self, b: Block, i: int, l: Text) {
        cond_goto_jumps(b[i], Some(l));
        find_label_found(b, i + 1, l);
        if let (Some((c, m)), Some(k)) = (cond_goto(b[i], Some(l)), find_label(b, i + 1, l)) {
            if k > i + 1 {
                let accepted = b.subrange(i + 1, k - 1);
                let rest = b.subrange(k + 1, b.len() as int);
                let g = any_goto();
                let s = StmtV::If { cond: negated(c), then_body: accepted, else_body: rest };
                deep_at(g, b, i);
                deep_range(g, b, i + 1, k - 1, b.len() as int);
                deep_range(g, b, k - 1, k + 1, b.len() as int);
                crate::weight::deep_push(g, b.subrange(0, i), s);
            }
        }
    }

    fn try_at_label(&self, b: &Vec<Stmt>, i: usize, l: &str) -> (r: Option<Vec<Stmt>>) {
        match conditional_goto_expr(&b[i], Some(l)) {
            None => None,
            Some((c, _)) => match position_of_label(b, i + 1, l) {
                None => None,
                Some(k) => {
                    if k == i + 1 || !matches!(b[k - 1], Stmt::Continue) || !gotos_only_at(b, i, l)
                        || range_has_jumps(b, i + 1, k - 1) || !range_scope_safe(b, i + 1, k - 1, k + 1) {
                        return None;
                    }
                    let mut out = copy_range(b, 0, i);
                    let ghost o = out@;
                    out.push(
                        Stmt::If {
                            cond: negate_condition(&c),
                            then_body: copy_range(b, i + 1, k - 1),
                            else_body: copy_range(b, k + 1, b.len()),
                        },
                    );
                    assert(block(out@) =~= block(o).push(out@.last()@));
                    Some(out)
                },
            },
        }
    }
}

/// Recovers loop-body guards whose failing path jumps to a trailing fallback block.
pub fn recover_guard_else_gotos(root: &mut Vec<Stmt>)
    ensures
        block(final(root)@) == everywhere(Scan(PerLabel(GuardElse)), block(old(root)@)),
{
    *root = rewrite_everywhere(&Scan(PerLabel(GuardElse)), root);
}

/// The first position from `i` on, before `end`, whose statement jumps to `l`.
pub open spec fn find_goto(b: Block, i: int, end: int, l: Text) -> Option<int>
    decreases end - i,
{
    if i < 0 || i >= end {
        None
    } else if deep_stmt(goto_to(l), b[i]) > 0 {
        Some(i)
    } else {
        find_goto(b, i + 1, end, l)
    }
}

pub proof fn find_goto_found(b: Block, i: int, end: int, l: Text)
    requires
        0 <= i <= end <= b.len(),
    ensures
        match find_goto(b, i, end, l) {
            Some(k) => i <= k < end && deep_stmt(goto_to(l), b[k]) > 0 && forall|j: int|
                i <= j < k ==> deep_stmt(goto_to(l), #[trigger] b[j]) == 0,
            None => forall|j: int| i <= j < end ==> deep_stmt(goto_to(l), #[trigger] b[j]) == 0,
        },
    decreases end - i,
{
    if i < end && deep_stmt(goto_to(l), b[i]) == 0 {
        find_goto_found(b, i + 1, end, l);
    }
}

/// The first position from `from` on, before `end`, whose statement jumps to the label.
pub fn position_of_goto(b: &[Stmt], from: usize, end: usize, l: &str) -> (r: Option<usize>)
    requires
        from <= end <= b.len(),
    ensures
        crate::query::opt_index(r) == find_goto(block(b@), from as int, end as int, l@),
        r matches Some(k) ==> from <= k < end,
{
    let mut i: usize = from;
    while i < end
        invariant
            from <= i <= end <= b.len(),
            find_goto(block(b@), from as int, end as int, l@) == find_goto(block(b@), i as int, end as int, l@),
        decreases end - i,
    {
        if occurs_in_stmt(&GotoTo { label: l }, &b[i]) {
            return Some(i);
        }
        i += 1;
    }
    None
}

/// Whether the only jumps and labels in `region` are jumps to `l` out of no loop.
pub open spec fn jumps_only_to(region: Block, l: Text) -> bool {
    deep(label_or_other_goto(l), region) == 0 && !jumps_from_loop(region, l)
}

/// Whether the only jumps and labels in `region` are jumps to `l` out of no loop.
pub fn only_jumps_to(region: &[Stmt], l: &str) -> (r: bool)
    ensures
        r == jumps_only_to(block(region@), l@),
{
    !occurs(&LabelOrOtherGoto { allowed: l }, region) && !has_goto_in_nested_loop(region, l)
}

/// Statements that jump forward to `::L::` become `repeat .. until true` with `break`s.
pub struct ForwardSkip;

impl Rule for ForwardSkip {
    type M = Gotos;

    open spec fn at(&self, b: Block, i: int) -> Option<Block> {
        match b[i] {
            StmtV::Label(l) => if i < 2 {
                None
            } else {
                match find_goto(b, 0, i, l) {
                    None => None,
                    Some(f) => {
                        let region = b.subrange(f, i);
                        if gotos(b, l) != gotos(region, l) || i - f > 32 || !jumps_only_to(region, l) || deep(
                            break_or_continue(),
                            region,
                        ) > 0 {
                            None
                        } else {
                            Some(
                                spec_splice(
                                    b,
                                    f,
                                    i + 1,
                                    only(spec_once(replace_gotos(region, l, only(StmtV::Break)))),
                                ),
                            )
                        }
                    },
                }
            },
            _ => None,
        }
    }

    proof fn shrinks_at(&self, b: Block, i: int) {
        if let StmtV::Label(l) = b[i] {
            find_goto_found(b, 0, i, l);
            if let Some(f) = find_goto(b, 0, i, l) {
                let region = b.subrange(f, i);
                let g = any_goto();
                let new = replace_gotos(region, l, only(StmtV::Break));
                deep_one(g, StmtV::Break);
                replace_gotos_fewer(region, l, only(StmtV::Break));
                deep_member(goto_to(l), region, 0);
                deep_one(g, spec_once(new));
                deep_splice(g, b, f, i + 1, only(spec_once(new)));
                deep_range(g, b, f, i, i + 1);
            }
        }
    }

    fn try_at(&self, b: &Vec<Stmt>, i: usize) -> (r: Option<Vec<Stmt>>) {
        match &b[i] {
            Stmt::Label(l) => {
                if i < 2 {
                    return None;
                }
                match position_of_goto(b, 0, i, l) {
                    None => None,
                    Some(f) => {
                        let region = range(b, f, i);
                        if !gotos_only_in(b, f, i, l) || i - f > 32 || !only_jumps_to(region, l) || occurs(
                            &BreakOrContinue,
                            region,
                        ) {
                            return None;
                        }
                        let body = with_breaks(region, l);
                        Some(splice(b, f, i + 1, one(repeat_once(body))))
                    },
                }
            },
            _ => None,
        }
    }
}

/// Recovers forward jumps to a later label as a block that `break` leaves.
pub fn recover_forward_label_skip_gotos(root: &mut Vec<Stmt>)
    ensures
        block(final(root)@) == everywhere(Scan(ForwardSkip), block(old(root)@)),
{
    *root = rewrite_everywhere(&Scan(ForwardSkip), root);
}

/// Whether a `break` or `continue` in `b` belongs to a loop outside `b`.
pub open spec fn exits_loop(b: Block) -> bool
    decreases b,
{
    exists|i: int| 0 <= i < b.len() && stmt_exits_loop(#[trigger] b[i])
}

pub open spec fn stmt_exits_loop(s: StmtV) -> bool
    decreases s,
{
    match s {
        StmtV::Break => true,
        StmtV::Continue => true,
        StmtV::If { then_body, else_body, .. } => exits_loop(then_body) || exits_loop(else_body),
        _ => false,
    }
}

/// Whether a `break` or `continue` in `b` belongs to a loop outside `b`.
pub fn contains_direct_break_continue(b: &[Stmt]) -> (r: bool)
    ensures
        r == exits_loop(block(b@)),
    decreases b@,
{
    let ghost v = block(b@);
    let mut i: usize = 0;
    while i < b.len()
        invariant
            i <= b.len(),
            v == block(b@),
            forall|j: int| 0 <= j < i ==> !stmt_exits_loop(#[trigger] v[j]),
        decreases b.len() - i,
    {
        let hit = match &b[i] {
            Stmt::Break => true,
            Stmt::Continue => true,
            Stmt::If { then_body, else_body, .. } => contains_direct_break_continue(then_body)
                || contains_direct_break_continue(else_body),
            _ => false,
        };
        assert(v[i as int] == b@[i as int]@);
        assert(hit == stmt_exits_loop(v[i as int]));
        if hit {
            return true;
        }
        i += 1;
    }
    false
}

/// Everything from the first jump to a missing label on becomes `repeat .. until true` with
/// `break`s.
pub struct SkipToEnd;

impl NameRule for SkipToEnd {
    type M = Gotos;

    open spec fn for_label(&self, b: Block, l: Text) -> Option<Block> {
        match find_goto(b, 0, b.len() as int, l) {
            None => None,
            Some(f) => {
                let region = b.subrange(f, b.len() as int);
                if region.len() > 32 || !jumps_only_to(region, l) || exits_loop(region) {
                    None
                } else {
                    Some(
                        spec_splice(
                            b,
                            f,
                            b.len() as int,
                            only(spec_once(replace_gotos(region, l, only(StmtV::Break)))),
                        ),
                    )
                }
            },
        }
    }

    proof fn shrinks_for(&self, b: Block, l: Text) {
        find_goto_found(b, 0, b.len() as int, l);
        if let Some(f) = find_goto(b, 0, b.len() as int, l) {
            let region = b.subrange(f, b.len() as int);
            let g = any_goto();
            let new = replace_gotos(region, l, only(StmtV::Break));
            deep_one(g, StmtV::Break);
            replace_gotos_fewer(region, l, only(StmtV::Break));
            deep_member(goto_to(l), region, 0);
            deep_one(g, spec_once(new));
            deep_splice(g, b, f, b.len() as int, only(spec_once(new)));
        }
    }

    fn try_for(&self, b: &Vec<Stmt>, l: &str) -> (r: Option<Vec<Stmt>>) {
        let n: usize = b.len();
        match position_of_goto(b, 0, n, l) {
            None => None,
            Some(f) => {
                let region = range(b, f, n);
                if n - f > 32 || !only_jumps_to(region, l) || contains_direct_break_continue(region) {
                    return None;
                }
                let body = with_breaks(region, l);
                Some(splice(b, f, n, one(repeat_once(body))))
            },
        }
    }
}

/// `b`, where jumps to labels that stand nowhere in it leave the rest of their block, outer blocks
/// first.
pub open spec fn skips_to_end_recovered(b: Block) -> Block {
    outward(PerMissing(SkipToEnd, &tree_of(b)), b)
}

/// Recovers jumps to a label that no longer stands anywhere as exits to the end of the outermost
/// block that can be left so.
pub fn recover_missing_label_skip_to_block_end_gotos(root: &mut Vec<Stmt>)
    ensures
        block(final(root)@) == skips_to_end_recovered(block(old(root)@)),
{
    let ghost other = tree_of(block(root@));
    let p = PerMissing(SkipToEnd, root);
    proof {
        tree_of_model(*root);
        let q = PerMissing(SkipToEnd, &other);
        per_missing_same(p, q);
        outward_same(p, q, block(root@));
    }
    let out = rewrite_outward(&p, clone_block(root));
    *root = out;
}

/// `if c then goto L end; tail`, where `::L::` is gone, becomes `if not c then tail end`.
pub struct GuardSkipToEnd<'a> {
    /// The whole tree.
    pub root: &'a Vec<Stmt>,
}

impl<'a> Rule for GuardSkipToEnd<'a> {
    type M = Gotos;

    open spec fn at(&self, b: Block, i: int) -> Option<Block> {
        match cond_goto(b[i], None) {
            None => None,
            Some((c, l)) => {
                let tail = b.subrange(i + 1, b.len() as int);
                if labels(block(self.root@), l) > 0 || gotos(b, l) != deep_stmt(goto_to(l), b[i]) || tail.len() == 0
                    || tail.len() > 32 || has_jumps(tail) {
                    None
                } else {
                    Some(spec_splice(b, i, b.len() as int, only(spec_if(negated(c), tail))))
                }
            },
        }
    }

    proof fn shrinks_at(&self, b: Block, i: int) {
        cond_goto_jumps(b[i], None);
        if let Some((c, l)) = cond_goto(b[i], None) {
            let tail = b.subrange(i + 1, b.len() as int);
            let g = any_goto();
            deep_range(g, b, i, i + 1, b.len() as int);
            deep_range_one(g, b, i);
            deep_splice(g, b, i, b.len() as int, only(spec_if(negated(c), tail)));
            deep_one(g, spec_if(negated(c), tail));
        }
    }

    fn try_at(&self, b: &Vec<Stmt>, i: usize) -> (r: Option<Vec<Stmt>>) {
        let n: usize = b.len();
        match conditional_goto_expr(&b[i], None) {
            None => None,
            Some((c, l)) => {
                if has_label(self.root, &l) || !gotos_only_at(b, i, &l) || n - i == 1 || n - i > 33
                    || range_has_jumps(b, i + 1, n) {
                    return None;
                }
                let body = copy_range(b, i + 1, n);
                Some(splice(b, i, n, one(if_then(negate_condition(&c), body))))
            },
        }
    }
}

/// `b`, where guarded jumps to labels that stand nowhere in it become branches around the rest of
/// their block.
pub open spec fn guard_skips_recovered(b: Block) -> Block {
    everywhere(Scan(GuardSkipToEnd { root: &tree_of(b) }), b)
}

/// Recovers a guard that jumps to a label that no longer stands anywhere.
pub fn recover_missing_guard_skip_to_block_end_gotos(root: &mut Vec<Stmt>)
    ensures
        block(final(root)@) == guard_skips_recovered(block(old(root)@)),
{
    let ghost other = tree_of(block(root@));
    let p = Scan(GuardSkipToEnd { root });
    proof {
        tree_of_model(*root);
        let q = Scan(GuardSkipToEnd { root: &other });
        scan_same(p.0, q.0);
        everywhere_same(p, q, block(root@));
    }
    let out = rewrite_everywhere(&p, root);
    *root = out;
}

} // verus!
