//! Jumps whose label earlier passes have taken away.
use vstd::prelude::*;

use crate::ast::{
    block, clone_block, concat, if_then, one, range, spec_if, spec_splice, splice, Block, Expr, ExprV, Stmt, StmtV,
};
use crate::conditions::{
    cond_goto, cond_goto_jumps, conditional_goto_expr, direct_local_scope_safe, negate_condition, negated, or_all,
    or_chain, range_scope_safe, scope_safe,
};
use crate::flow::{
    direct_writes_in_block, effect_outside, is_nonlocal_effect_stmt, is_pure_assignment_to_any, join_name,
    orphan_join_assignment_var, pure_assignment_to, reads_any_first, reads_first, stmt_definitely_writes_any_var,
    stmt_reads_any_var_before_write, stmt_reads_var_before_write, writes_any_surely, writes_in,
};
use crate::jumps::{
    block_ends_terminated, has_goto_in_nested_loop, jumps_from_loop, no_jumps_no_gotos, only, replace_gotos,
    replace_gotos_fewer, terminated, with_gotos_replaced,
};
use crate::query::{
    any_goto, count_gotos, goto_names, goto_names_in_stmt, goto_names_members, goto_to, gotos, gotos_only_at,
    has_jumps, has_label, label_or_other_goto, labels, opt_index, GotoTo, LabelOrGoto, LabelOrOtherGoto,
};
use crate::routing::{
    absorb_join_in_stmt, absorbed_stmt, route_gotos_to_target_body, route_gotos_to_target_body_deep, routed,
    routed_deep, widen_locals_read_after_join, widened, widened_keeps,
};
use crate::rules::{
    everywhere, everywhere_same, per_label_same, per_missing_same, rewrite_everywhere, scan_back_same, scan_same,
    tree_of, tree_of_model, Either, Gotos, LabelRule, Measure, NameRule, PerLabel, PerMissing, Rule, Scan, ScanBack,
    Step,
};
use crate::skips::{find_goto, find_goto_found, position_of_goto};
use crate::text::Text;
use crate::weight::{
    deep, deep_concat, deep_member, deep_one, deep_range, deep_range_one, deep_splice, deep_split, deep_stmt,
    deep_stmt_le, occurs, occurs_in_range, occurs_in_stmt,
};

verus! {

// ---- copying a terminal continuation -----------------------------------------------------------

/// Whether everything from `t` on can be copied to the jumps to `l`, the first of which is at
/// `f`, and begins by reading `var`.
pub open spec fn copyable_tail(b: Block, f: int, t: int, var: Text) -> bool {
    let tail = b.subrange(t, b.len() as int);
    tail.len() <= 48 && !has_jumps(tail) && terminated(tail) && scope_safe(b.subrange(f + 1, t), tail)
        && reads_first(b[t], var)
}

/// The first position from `t` on from which everything can be copied.
pub open spec fn find_copyable(b: Block, f: int, t: int, var: Text) -> Option<int>
    decreases b.len() - t,
{
    if t < 0 || t >= b.len() {
        None
    } else if copyable_tail(b, f, t, var) {
        Some(t)
    } else {
        find_copyable(b, f, t + 1, var)
    }
}

proof fn find_copyable_found(b: Block, f: int, t: int, var: Text)
    requires
        0 <= t,
    ensures
        find_copyable(b, f, t, var) matches Some(k) ==> t <= k < b.len() && copyable_tail(b, f, k, var),
    decreases b.len() - t,
{
    if t < b.len() && !copyable_tail(b, f, t, var) {
        find_copyable_found(b, f, t + 1, var);
    }
}

fn position_of_copyable(b: &[Stmt], f: usize, var: &str) -> (r: Option<usize>)
    requires
        f < b.len(),
    ensures
        opt_index(r) == find_copyable(block(b@), f as int, f + 1, var@),
        r matches Some(t) ==> f < t < b.len(),
{
    let n: usize = b.len();
    let mut t: usize = f + 1;
    while t < n
        invariant
            f < t <= n,
            n == b.len(),
            find_copyable(block(b@), f as int, f + 1, var@) == find_copyable(block(b@), f as int, t as int, var@),
        decreases n - t,
    {
        let tail = range(b, t, n);
        if n - t <= 48 && !occurs(&LabelOrGoto, tail) && block_ends_terminated(tail) && range_scope_safe(b, f + 1, t, t)
            && stmt_reads_var_before_write(&b[t], var) {
            return Some(t);
        }
        t += 1;
    }
    None
}

/// Jumps to a missing label become copies of the terminal statements that read what was assigned
/// before the jump.
pub struct CopyTail;

impl NameRule for CopyTail {
    type M = Gotos;

    open spec fn for_label(&self, b: Block, l: Text) -> Option<Block> {
        match (join_name(b, l), find_goto(b, 0, b.len() as int, l)) {
            (Some(var), Some(f)) => match find_copyable(b, f, f + 1, var) {
                Some(t) => if jumps_from_loop(b, l) {
                    None
                } else {
                    let tail = b.subrange(t, b.len() as int);
                    Some(replace_gotos(b.subrange(0, t), l, tail) + tail)
                },
                None => None,
            },
            _ => None,
        }
    }

    proof fn shrinks_for(&self, b: Block, l: Text) {
        find_goto_found(b, 0, b.len() as int, l);
        if let (Some(var), Some(f)) = (join_name(b, l), find_goto(b, 0, b.len() as int, l)) {
            find_copyable_found(b, f, f + 1, var);
            if let Some(t) = find_copyable(b, f, f + 1, var) {
                let g = any_goto();
                let front = b.subrange(0, t);
                let tail = b.subrange(t, b.len() as int);
                no_jumps_no_gotos(tail);
                replace_gotos_fewer(front, l, tail);
                assert(front[f] == b[f]);
                deep_member(goto_to(l), front, f);
                deep_concat(g, replace_gotos(front, l, tail), tail);
                deep_split(g, b, t);
            }
        }
    }

    fn try_for(&self, b: &Vec<Stmt>, l: &str) -> (r: Option<Vec<Stmt>>) {
        let n: usize = b.len();
        if has_goto_in_nested_loop(b, l) {
            return None;
        }
        let var = match orphan_join_assignment_var(b, l) {
            Some(var) => var,
            None => {
                return None;
            },
        };
        let f: usize = match position_of_goto(b, 0, n, l) {
            Some(f) => f,
            None => {
                return None;
            },
        };
        match position_of_copyable(b, f, &var) {
            Some(t) => {
                let tail = range(b, t, n);
                let front = with_gotos_replaced(range(b, 0, t), l, tail);
                Some(concat(front, clone_block(tail)))
            },
            None => None,
        }
    }
}

/// `b`, where jumps to labels that stand nowhere in it become copies of a terminal continuation.
pub open spec fn continuations_copied(b: Block) -> Block {
    everywhere(PerMissing(CopyTail, &tree_of(b)), b)
}

/// Copies a terminal continuation to the jumps whose label is gone.
pub fn replace_orphan_gotos_with_terminal_continuation(root: &mut Vec<Stmt>)
    ensures
        block(final(root)@) == continuations_copied(block(old(root)@)),
{
    let ghost other = tree_of(block(root@));
    let p = PerMissing(CopyTail, root);
    proof {
        tree_of_model(*root);
        let q = PerMissing(CopyTail, &other);
        per_missing_same(p, q);
        everywhere_same(p, q, block(root@));
    }
    let out = rewrite_everywhere(&p, root);
    *root = out;
}

// ---- fallback blocks ---------------------------------------------------------------------------

/// The first position from `i` on whose statement reads `var` before writing it.
pub open spec fn find_reader(b: Block, i: int, var: Text) -> Option<int>
    decreases b.len() - i,
{
    if i < 0 || i >= b.len() {
        None
    } else if reads_first(b[i], var) {
        Some(i)
    } else {
        find_reader(b, i + 1, var)
    }
}

proof fn find_reader_found(b: Block, i: int, var: Text)
    requires
        0 <= i,
    ensures
        find_reader(b, i, var) matches Some(k) ==> i <= k < b.len(),
    decreases b.len() - i,
{
    if i < b.len() && !reads_first(b[i], var) {
        find_reader_found(b, i + 1, var);
    }
}

fn position_of_reader(b: &[Stmt], from: usize, var: &str) -> (r: Option<usize>)
    requires
        from <= b.len(),
    ensures
        opt_index(r) == find_reader(block(b@), from as int, var@),
        r matches Some(k) ==> from <= k < b.len(),
{
    let mut i: usize = from;
    while i < b.len()
        invariant
            from <= i <= b.len(),
            find_reader(block(b@), from as int, var@) == find_reader(block(b@), i as int, var@),
        decreases b.len() - i,
    {
        if stmt_reads_var_before_write(&b[i], var) {
            return Some(i);
        }
        i += 1;
    }
    None
}

/// What stands between a branch with jumps and the next reader of the joined value moves into
/// the branches that do not jump.
pub struct IfFallback<'a> {
    /// The whole tree.
    pub root: &'a Vec<Stmt>,
}

impl<'a> IfFallback<'a> {
    /// The rewriting for the one label that the statement at `i` jumps to.
    pub open spec fn with_label(&self, b: Block, i: int, l: Text) -> Option<Block> {
        match join_name(only(b[i]), l) {
            None => None,
            Some(var) => match find_reader(b, i + 1, var) {
                None => None,
                Some(t) => {
                    let between = b.subrange(i + 1, t);
                    let rest = b.subrange(t, b.len() as int);
                    let fallback = widened(between, rest);
                    if labels(block(self.root@), l) > 0 || jumps_from_loop(only(b[i]), l) || between.len() == 0
                        || between.len() > 64
                        || has_jumps(between) || terminated(between) || !scope_safe(fallback, rest) {
                        None
                    } else {
                        match absorbed_stmt(b[i], l, fallback) {
                            Some(s) => if has_jumps(only(s)) {
                                None
                            } else {
                                Some(spec_splice(b, i, t, only(s)))
                            },
                            None => None,
                        }
                    }
                },
            },
        }
    }
}

impl<'a> Rule for IfFallback<'a> {
    type M = Gotos;

    open spec fn at(&self, b: Block, i: int) -> Option<Block> {
        let ls = goto_names(b[i]);
        if ls.len() == 1 {
            self.with_label(b, i, ls[0])
        } else {
            None
        }
    }

    proof fn shrinks_at(&self, b: Block, i: int) {
        let ls = goto_names(b[i]);
        if ls.len() == 1 {
            let l = ls[0];
            assert(ls.contains(ls[0]));
            goto_names_members(b[i], l);
            goto_is_any(b[i], l);
            if let Some(var) = join_name(only(b[i]), l) {
                find_reader_found(b, i + 1, var);
                if let Some(t) = find_reader(b, i + 1, var) {
                    let fallback = widened(b.subrange(i + 1, t), b.subrange(t, b.len() as int));
                    if let Some(s) = absorbed_stmt(b[i], l, fallback) {
                        if !has_jumps(only(s)) {
                            no_jumps_no_gotos(only(s));
                            jumpless_splice(b, i, t, only(s));
                        }
                    }
                }
            }
        }
    }

    fn try_at(&self, b: &Vec<Stmt>, i: usize) -> (r: Option<Vec<Stmt>>) {
        let n: usize = b.len();
        let ls = goto_names_in_stmt(&b[i]);
        if ls.len() != 1 {
            return None;
        }
        let l = ls.get(0);
        let here = range(b, i, i + 1);
        assert(block(here@) =~= only(block(b@)[i as int]));
        let var = match orphan_join_assignment_var(here, l) {
            Some(var) => var,
            None => {
                return None;
            },
        };
        match position_of_reader(b, i + 1, &var) {
            None => None,
            Some(t) => {
                let between = range(b, i + 1, t);
                let rest = range(b, t, n);
                if has_label(self.root, l) || has_goto_in_nested_loop(here, l) || between.len() == 0 || between.len() > 64
                    || occurs(&LabelOrGoto, between) || block_ends_terminated(between) {
                    return None;
                }
                let fallback = widen_locals_read_after_join(between, rest);
                if !direct_local_scope_safe(&fallback, rest) {
                    return None;
                }
                match absorb_join_in_stmt(&b[i], l, &fallback) {
                    Some(s) => {
                        let mid = one(s);
                        if occurs(&LabelOrGoto, &mid) {
                            None
                        } else {
                            Some(splice(b, i, t, mid))
                        }
                    },
                    None => None,
                }
            },
        }
    }
}

/// A jump to a given label is a jump.
pub proof fn goto_is_any(s: StmtV, l: Text)
    ensures
        deep_stmt(goto_to(l), s) <= deep_stmt(any_goto(), s),
{
    deep_stmt_le(goto_to(l), any_goto(), s);
}

/// Replacing a stretch that begins with a jumping statement by statements that do not jump leaves
/// fewer jumps.
proof fn jumpless_splice(b: Block, lo: int, hi: int, mid: Block)
    requires
        0 <= lo < hi <= b.len(),
        deep_stmt(any_goto(), b[lo]) > 0,
        deep(any_goto(), mid) == 0,
    ensures
        deep(any_goto(), spec_splice(b, lo, hi, mid)) < deep(any_goto(), b),
{
    let g = any_goto();
    deep_splice(g, b, lo, hi, mid);
    deep_range(g, b, lo, lo + 1, hi);
    deep_range_one(g, b, lo);
}

/// `b`, where jumps to labels that stand nowhere in it skip a fallback block by branching.
pub open spec fn fallbacks_recovered(b: Block) -> Block {
    everywhere(ScanBack(IfFallback { root: &tree_of(b) }), b)
}

/// Recovers joins whose label is gone and that skipped a bounded fallback block.
pub fn recover_orphan_if_fallback_gotos(root: &mut Vec<Stmt>)
    ensures
        block(final(root)@) == fallbacks_recovered(block(old(root)@)),
{
    let ghost other = tree_of(block(root@));
    let p = ScanBack(IfFallback { root });
    proof {
        tree_of_model(*root);
        let q = ScanBack(IfFallback { root: &other });
        scan_back_same(p.0, q.0);
        everywhere_same(p, q, block(root@));
    }
    let out = rewrite_everywhere(&p, root);
    *root = out;
}

// ---- skipped blocks ----------------------------------------------------------------------------

/// Where the stretch that begins at `start` and that a jump skips ends: at a reader of what it
/// writes, at a `local` after at least four statements or an outside effect, or at the end of the
/// block. `k` is the first end to try.
pub open spec fn skip_end(b: Block, start: int, k: int) -> Option<int>
    decreases b.len() - k,
{
    if k <= start || k > b.len() || k - start > 64 {
        None
    } else {
        let skipped = b.subrange(start, k);
        if has_jumps(skipped) || terminated(skipped) {
            None
        } else if k == b.len() || ends_skip(skipped, b[k]) {
            Some(k)
        } else {
            skip_end(b, start, k + 1)
        }
    }
}

/// Whether the stretch `skipped` may end before `next`.
pub open spec fn ends_skip(skipped: Block, next: StmtV) -> bool {
    let writes = writes_in(skipped);
    (reads_any_first(next, writes) && !writes_any_surely(next, writes)) || (next is Local && (skipped.len() >= 4
        || effect_outside(skipped.last())))
}

proof fn skip_end_found(b: Block, start: int, k: int)
    ensures
        skip_end(b, start, k) matches Some(e) ==> start < k <= e <= b.len() && !has_jumps(b.subrange(start, e)),
    decreases b.len() - k,
{
    if start < k < b.len() {
        skip_end_found(b, start, k + 1);
    }
}

fn stretch_ends(skipped: &[Stmt], next: &Stmt) -> (r: bool)
    requires
        skipped@.len() > 0,
    ensures
        r == ends_skip(block(skipped@), next@),
{
    let writes = direct_writes_in_block(skipped);
    if stmt_reads_any_var_before_write(next, &writes) && !stmt_definitely_writes_any_var(next, &writes) {
        return true;
    }
    let n: usize = skipped.len();
    assert(block(skipped@).last() == skipped@[n - 1]@);
    matches!(next, Stmt::Local { .. }) && (n >= 4 || is_nonlocal_effect_stmt(&skipped[n - 1]))
}

fn orphan_skip_boundary(b: &[Stmt], start: usize) -> (r: Option<usize>)
    requires
        start <= b.len(),
    ensures
        opt_index(r) == skip_end(block(b@), start as int, start + 1),
        r matches Some(e) ==> start < e <= b.len(),
{
    let n: usize = b.len();
    if start == n {
        return None;
    }
    let mut k: usize = start + 1;
    loop
        invariant
            start < k <= n,
            n == b.len(),
            skip_end(block(b@), start as int, start + 1) == skip_end(block(b@), start as int, k as int),
        decreases n - k,
    {
        if k - start > 64 {
            return None;
        }
        let skipped = range(b, start, k);
        if occurs(&LabelOrGoto, skipped) || block_ends_terminated(skipped) {
            return None;
        }
        if k == n || stretch_ends(skipped, &b[k]) {
            return Some(k);
        }
        k += 1;
    }
}

/// Whether `s` is a guarded jump to `l` out of no loop.
pub open spec fn guard_to(s: StmtV, l: Text) -> bool {
    cond_goto(s, Some(l)) is Some && !jumps_from_loop(only(s), l)
}

/// The end of the run of guarded jumps to `l` that begins at `i`.
pub open spec fn guards_end(b: Block, i: int, l: Text) -> int
    decreases b.len() - i,
{
    if 0 <= i < b.len() && guard_to(b[i], l) {
        guards_end(b, i + 1, l)
    } else {
        i
    }
}

/// The conditions of the guarded jumps from `i` up to `end`.
pub open spec fn guard_conds(b: Block, i: int, end: int, l: Text) -> Seq<ExprV>
    decreases end - i,
{
    if i >= end {
        Seq::empty()
    } else {
        guard_conds(b, i, end - 1, l).push(
            match cond_goto(b[end - 1], Some(l)) {
                Some((c, _)) => c,
                None => ExprV::Nil,
            },
        )
    }
}

proof fn guards_end_bounds(b: Block, i: int, l: Text)
    requires
        0 <= i <= b.len(),
    ensures
        i <= guards_end(b, i, l) <= b.len(),
    decreases b.len() - i,
{
    if i < b.len() && guard_to(b[i], l) {
        guards_end_bounds(b, i + 1, l);
    }
}

/// A run of guarded jumps to one missing label, which holds every jump to that label: the
/// statements after it run under the opposite condition.
pub struct SkipBlock<'a> {
    /// The whole tree.
    pub root: &'a Vec<Stmt>,
}

impl<'a> Rule for SkipBlock<'a> {
    type M = Gotos;

    open spec fn at(&self, b: Block, i: int) -> Option<Block> {
        match cond_goto(b[i], None) {
            None => None,
            Some((c, l)) => {
                let g = guards_end(b, i + 1, l);
                match skip_end(b, g, g + 1) {
                    None => None,
                    Some(e) => {
                        let rest = b.subrange(e, b.len() as int);
                        let skipped = widened(b.subrange(g, e), rest);
                        if labels(block(self.root@), l) > 0 || jumps_from_loop(only(b[i]), l) || gotos(
                            block(self.root@),
                            l,
                        ) != gotos(b.subrange(i, g), l) || !scope_safe(skipped, rest) {
                            None
                        } else {
                            let skip = or_chain(seq![c] + guard_conds(b, i + 1, g, l));
                            Some(spec_splice(b, i, e, only(spec_if(negated(skip), skipped))))
                        }
                    },
                }
            },
        }
    }

    proof fn shrinks_at(&self, b: Block, i: int) {
        cond_goto_jumps(b[i], None);
        if let Some((c, l)) = cond_goto(b[i], None) {
            guards_end_bounds(b, i + 1, l);
            let g = guards_end(b, i + 1, l);
            skip_end_found(b, g, g + 1);
            if let Some(e) = skip_end(b, g, g + 1) {
                let rest = b.subrange(e, b.len() as int);
                let between = b.subrange(g, e);
                let skipped = widened(between, rest);
                let skip = or_chain(seq![c] + guard_conds(b, i + 1, g, l));
                let w = any_goto();
                no_jumps_no_gotos(between);
                assert forall|s: StmtV| s is Local || s is Assign implies #[trigger] w(s) == 0 by {}
                widened_keeps(w, between, rest);
                deep_one(w, spec_if(negated(skip), skipped));
                jumpless_splice(b, i, e, only(spec_if(negated(skip), skipped)));
            }
        }
    }

    fn try_at(&self, b: &Vec<Stmt>, i: usize) -> (r: Option<Vec<Stmt>>) {
        let n: usize = b.len();
        let (c, l) = match conditional_goto_expr(&b[i], None) {
            Some(x) => x,
            None => {
                return None;
            },
        };
        let here = range(b, i, i + 1);
        assert(block(here@) =~= only(block(b@)[i as int]));
        if has_label(self.root, &l) || has_goto_in_nested_loop(here, &l) {
            return None;
        }
        let ghost v = block(b@);
        let mut conds: Vec<Expr> = Vec::new();
        conds.push(c);
        let mut g: usize = i + 1;
        assert(crate::ast::exprs(conds@) =~= seq![c@] + guard_conds(v, i + 1, g as int, l@));
        while g < n
            invariant_except_break
                guards_end(v, i + 1, l@) == guards_end(v, g as int, l@),
            invariant
                i < g <= n,
                n == b.len(),
                v == block(b@),
                crate::ast::exprs(conds@) == seq![c@] + guard_conds(v, i + 1, g as int, l@),
            ensures
                guards_end(v, i + 1, l@) == g,
            decreases n - g,
        {
            let this = range(b, g, g + 1);
            assert(block(this@) =~= only(v[g as int]));
            if has_goto_in_nested_loop(this, &l) {
                break;
            }
            match conditional_goto_expr(&b[g], Some(&l)) {
                Some((d, _)) => {
                    let ghost o = conds@;
                    conds.push(d);
                    assert(crate::ast::exprs(conds@) =~= crate::ast::exprs(o).push(d@));
                    assert(crate::ast::exprs(conds@) =~= seq![c@] + guard_conds(v, i + 1, g + 1, l@));
                },
                None => {
                    break;
                },
            }
            g += 1;
        }
        if count_gotos(self.root, &l) != count_gotos(range(b, i, g), &l) {
            return None;
        }
        match orphan_skip_boundary(b, g) {
            None => None,
            Some(e) => {
                let rest = range(b, e, n);
                let skipped = widen_locals_read_after_join(range(b, g, e), rest);
                if !direct_local_scope_safe(&skipped, rest) {
                    return None;
                }
                let skip = or_all(&conds);
                Some(splice(b, i, e, one(if_then(negate_condition(&skip), skipped))))
            },
        }
    }
}

/// `b`, where guarded jumps to labels that stand nowhere in it skip a stretch of statements by
/// branching.
pub open spec fn skip_blocks_recovered(b: Block) -> Block {
    everywhere(Scan(SkipBlock { root: &tree_of(b) }), b)
}

/// Recovers guards whose label is gone and that skipped a bounded stretch of statements.
pub fn recover_orphan_skip_blocks(root: &mut Vec<Stmt>)
    ensures
        block(final(root)@) == skip_blocks_recovered(block(old(root)@)),
{
    let ghost other = tree_of(block(root@));
    let p = Scan(SkipBlock { root });
    proof {
        tree_of_model(*root);
        let q = Scan(SkipBlock { root: &other });
        scan_same(p.0, q.0);
        everywhere_same(p, q, block(root@));
    }
    let out = rewrite_everywhere(&p, root);
    *root = out;
}

/// What a nested jump to a missing label skips moves into the branches that do not jump.
pub struct NestedSkip<'a> {
    /// The whole tree.
    pub root: &'a Vec<Stmt>,
}

impl<'a> LabelRule for NestedSkip<'a> {
    type M = Gotos;

    open spec fn at_label(&self, b: Block, i: int, l: Text) -> Option<Block> {
        match skip_end(b, i + 1, i + 2) {
            None => None,
            Some(e) => {
                let rest = b.subrange(e, b.len() as int);
                let skipped = widened(b.subrange(i + 1, e), rest);
                if labels(block(self.root@), l) > 0 || gotos(b, l) != deep_stmt(goto_to(l), b[i]) || jumps_from_loop(
                    only(b[i]),
                    l,
                ) || !scope_safe(skipped, rest) {
                    None
                } else {
                    match routed(only(b[i]), l, Seq::empty(), skipped) {
                        Some(o) => if has_jumps(o) {
                            None
                        } else {
                            Some(spec_splice(b, i, e, o))
                        },
                        None => None,
                    }
                }
            },
        }
    }

    proof fn shrinks_at_label(&self, b: Block, i: int, l: Text) {
        goto_names_members(b[i], l);
        goto_is_any(b[i], l);
        skip_end_found(b, i + 1, i + 2);
        if let Some(e) = skip_end(b, i + 1, i + 2) {
            let rest = b.subrange(e, b.len() as int);
            let skipped = widened(b.subrange(i + 1, e), rest);
            if let Some(o) = routed(only(b[i]), l, Seq::empty(), skipped) {
                if !has_jumps(o) {
                    no_jumps_no_gotos(o);
                    jumpless_splice(b, i, e, o);
                }
            }
        }
    }

    fn try_at_label(&self, b: &Vec<Stmt>, i: usize, l: &str) -> (r: Option<Vec<Stmt>>) {
        let n: usize = b.len();
        match orphan_skip_boundary(b, i + 1) {
            None => None,
            Some(e) => {
                let here = range(b, i, i + 1);
                assert(block(here@) =~= only(block(b@)[i as int]));
                if has_label(self.root, l) || !gotos_only_at(b, i, l) || has_goto_in_nested_loop(here, l) {
                    return None;
                }
                let rest = range(b, e, n);
                let skipped = widen_locals_read_after_join(range(b, i + 1, e), rest);
                if !direct_local_scope_safe(&skipped, rest) {
                    return None;
                }
                let nothing: Vec<Stmt> = crate::ast::none();
                match route_gotos_to_target_body(here, l, &nothing, &skipped) {
                    Some(o) => if occurs(&LabelOrGoto, &o) {
                        None
                    } else {
                        Some(splice(b, i, e, o))
                    },
                    None => None,
                }
            },
        }
    }
}

/// The last position before `i` whose statement jumps to `l`.
pub open spec fn find_last_goto(b: Block, i: int, l: Text) -> Option<int>
    decreases i,
{
    if i <= 0 || i > b.len() {
        None
    } else if deep_stmt(goto_to(l), b[i - 1]) > 0 {
        Some(i - 1)
    } else {
        find_last_goto(b, i - 1, l)
    }
}

pub proof fn find_last_goto_found(b: Block, i: int, l: Text)
    ensures
        find_last_goto(b, i, l) matches Some(k) ==> 0 <= k < i <= b.len() && deep_stmt(goto_to(l), b[k]) > 0,
    decreases i,
{
    if 0 < i <= b.len() {
        find_last_goto_found(b, i - 1, l);
    }
}

pub fn position_of_last_goto(b: &[Stmt], l: &str) -> (r: Option<usize>)
    ensures
        opt_index(r) == find_last_goto(block(b@), b@.len() as int, l@),
        r matches Some(k) ==> k < b.len(),
{
    let mut i: usize = b.len();
    while i > 0
        invariant
            i <= b.len(),
            find_last_goto(block(b@), b@.len() as int, l@) == find_last_goto(block(b@), i as int, l@),
        decreases i,
    {
        if occurs_in_stmt(&GotoTo { label: l }, &b[i - 1]) {
            return Some(i - 1);
        }
        i -= 1;
    }
    None
}

/// Several statements that jump to a missing label: what each skips moves into the branches that
/// do not jump.
pub struct MultiSkip;

/// Where the stretch of statements from `f` to `g` that jump ends; an effect-free assignment to
/// what it writes still belongs to it.
pub open spec fn multi_end(b: Block, f: int, g: int) -> int {
    if g + 1 < b.len() && pure_assignment_to(b[g + 1], writes_in(b.subrange(f, g + 1))) {
        g + 2
    } else {
        g + 1
    }
}

fn end_of_multi(b: &[Stmt], f: usize, g: usize) -> (r: usize)
    requires
        f <= g < b.len(),
    ensures
        r == multi_end(block(b@), f as int, g as int),
        g < r <= b.len(),
{
    let n: usize = b.len();
    if g + 1 < n {
        let writes = direct_writes_in_block(range(b, f, g + 1));
        if is_pure_assignment_to_any(&b[g + 1], &writes) {
            return g + 2;
        }
    }
    g + 1
}

impl NameRule for MultiSkip {
    type M = Gotos;

    open spec fn for_label(&self, b: Block, l: Text) -> Option<Block> {
        match (find_goto(b, 0, b.len() as int, l), find_last_goto(b, b.len() as int, l)) {
            (Some(f), Some(g)) => if f == g || jumps_from_loop(b, l) || deep(
                label_or_other_goto(l),
                b.subrange(f, g + 1),
            ) > 0 {
                None
            } else {
                let e = multi_end(b, f, g);
                match routed_deep(b.subrange(f, e), l, Seq::empty(), Seq::empty()) {
                    Some(o) => if o.len() == 0 || has_jumps(o) {
                        None
                    } else {
                        Some(spec_splice(b, f, e, o))
                    },
                    None => None,
                }
            },
            _ => None,
        }
    }

    proof fn shrinks_for(&self, b: Block, l: Text) {
        find_goto_found(b, 0, b.len() as int, l);
        find_last_goto_found(b, b.len() as int, l);
        if let (Some(f), Some(g)) = (
            find_goto(b, 0, b.len() as int, l),
            find_last_goto(b, b.len() as int, l),
        ) {
            if f <= g {
                let e = multi_end(b, f, g);
                goto_is_any(b[f], l);
                if let Some(o) = routed_deep(b.subrange(f, e), l, Seq::empty(), Seq::empty()) {
                    if !has_jumps(o) {
                        no_jumps_no_gotos(o);
                        jumpless_splice(b, f, e, o);
                    }
                }
            } else {
                assert(deep_stmt(goto_to(l), b[g]) == 0);
            }
        }
    }

    fn try_for(&self, b: &Vec<Stmt>, l: &str) -> (r: Option<Vec<Stmt>>) {
        let n: usize = b.len();
        let f: usize = match position_of_goto(b, 0, n, l) {
            Some(f) => f,
            None => {
                return None;
            },
        };
        let g: usize = match position_of_last_goto(b, l) {
            Some(g) => g,
            None => {
                return None;
            },
        };
        proof {
            find_goto_found(block(b@), 0, n as int, l@);
            find_last_goto_found(block(b@), n as int, l@);
            assert(f <= g) by {
                if g < f {
                    assert(deep_stmt(goto_to(l@), block(b@)[g as int]) == 0);
                }
            }
        }
        if f == g || has_goto_in_nested_loop(b, l) || occurs_in_range(
            &LabelOrOtherGoto { allowed: l },
            b,
            f,
            g + 1,
        ) {
            return None;
        }
        let e: usize = end_of_multi(b, f, g);
        let nothing: Vec<Stmt> = crate::ast::none();
        match route_gotos_to_target_body_deep(range(b, f, e), l, &nothing, &nothing) {
            Some(o) => if o.len() == 0 || occurs(&LabelOrGoto, &o) {
                None
            } else {
                Some(splice(b, f, e, o))
            },
            None => None,
        }
    }
}

/// Both rewritings, where `root` is the whole tree.
pub open spec fn orphan_skips<'a>(root: &'a Vec<Stmt>) -> Either<Scan<PerLabel<NestedSkip<'a>>>, PerMissing<'a, MultiSkip>> {
    Either(Scan(PerLabel(NestedSkip { root })), PerMissing(MultiSkip, root))
}

/// `b`, where nested and repeated jumps to labels that stand nowhere in it become branches.
pub open spec fn orphan_skips_recovered(b: Block) -> Block {
    everywhere(orphan_skips(&tree_of(b)), b)
}

/// Recovers nested and repeated jumps whose label is gone.
pub fn recover_nested_orphan_skip_gotos(root: &mut Vec<Stmt>)
    ensures
        block(final(root)@) == orphan_skips_recovered(block(old(root)@)),
{
    let ghost other = tree_of(block(root@));
    let p = Either(Scan(PerLabel(NestedSkip { root })), PerMissing(MultiSkip, root));
    proof {
        tree_of_model(*root);
        let q = orphan_skips(&other);
        per_label_same(p.0.0.0, q.0.0.0);
        scan_same(p.0.0, q.0.0);
        per_missing_same(p.1, q.1);
        assert forall|c: Block| #[trigger] p.step(c) == q.step(c) by {
            assert(p.0.step(c) == q.0.step(c));
            assert(p.1.step(c) == q.1.step(c));
        }
        everywhere_same(p, q, block(root@));
    }
    let out = rewrite_everywhere(&p, root);
    *root = out;
}

} // verus!
