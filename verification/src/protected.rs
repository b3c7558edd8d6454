//! Assignments to names that can be seen elsewhere stay.
use vstd::prelude::*;

use crate::ast::{spec_splice, Block, ExprV, LoopHead, StmtV};
use crate::back_loops::{
    backward_loops, find_jump, find_jump_found, guards_start, guards_start_are_guards, guards_start_bounds,
    return_conds, return_guard, returns_values, spec_while, BackwardWhile, RepeatReturn, WhileWithLoad,
};
use crate::closures::{retexted, retexted_all, retexted_block, retexted_stmt, Retext};
use crate::conditions::{body_jumps, cond_goto, jump_of, negated, or_chain};
use crate::effects::{
    dead_after_keeps_protected, dead_stores_keep_protected, everywhere_keeps, fills_end_fills,
    inlining_keeps_protected, stores_to,
};
use crate::jumps::{leaf_weight, only, replace_gotos, replace_gotos_keeps, sole_assign};
use crate::locals::{all_bare, all_bare_names, initialized, initialized_at};
use crate::machine::Machine;
use crate::maps::TextMap;
use crate::markers::{dead_marker, markers_removed, markers_removed_in, markers_removed_inside, without_markers};
use crate::names::NameSet;
use crate::pipeline::{
    after_round, fresh_rounds, literals, reduced, reduction, tidied, tidied_all, tidied_by, Rounds, Tidy,
};
use crate::query::{find_label, find_label_found, var_names};
use crate::report::shortened;
use crate::routing::each;
use crate::rules::{everywhere, first_from, throughout, within, within_stmt, Pass, Rule, Scan, Step};
use crate::simplify::{exprs_simplified, simplified_all, stmt_simplified, NestedIf};
use crate::sweeps::{calls_carried, carried, until_at, until_inlined, CarriedCalls, RepeatGuards};
use crate::tables::{
    fill, fills_end, fills_end_bounds, folded_at, literals_moved, literals_moved_in, literals_moved_inside, moved_at,
    moved_from, table_init, with_value, FoldFills,
};
use crate::text::Text;
use crate::upvalues::Resolve;
use crate::weight::{deep, deep_concat, deep_one, deep_push, deep_range, deep_range_one, deep_splice, deep_stmt};

verus! {

proof fn stores_are_leaves(n: Text)
    ensures
        leaf_weight(stores_to(n)),
{
    assert forall|s: StmtV| s is If || s is Loop implies #[trigger] stores_to(n)(s) == 0 by {}
}

// ---- table literals -----------------------------------------------------------------------------------------------

proof fn fills_store_nothing(b: Block, lo: int, hi: int, t: Text, n: Text)
    requires
        0 <= lo <= hi <= b.len(),
        forall|j: int| lo <= j < hi ==> fill(#[trigger] b[j], t) is Some,
    ensures
        deep(stores_to(n), b.subrange(lo, hi)) == 0,
    decreases hi - lo,
{
    let r = b.subrange(lo, hi);
    if lo < hi {
        fills_store_nothing(b, lo, hi - 1, t, n);
        assert(r.drop_last() =~= b.subrange(lo, hi - 1));
        assert(r.last() == b[hi - 1]);
        assert(fill(b[hi - 1], t) is Some);
        assert(sole_assign(b[hi - 1]) is None) by {
            if let StmtV::Assign { targets, .. } = b[hi - 1] {
                assert(!(targets[0] is Var));
            }
        }
        assert(deep_stmt(stores_to(n), b[hi - 1]) == 0);
    } else {
        assert(r =~= Seq::<StmtV>::empty());
    }
}

proof fn folded_at_keeps_stores(b: Block, i: int, n: Text)
    requires
        0 <= i < b.len(),
    ensures
        folded_at(b, i) matches Some(c) ==> deep(stores_to(n), c) == deep(stores_to(n), b),
{
    if let Some(c) = folded_at(b, i) {
        let w = stores_to(n);
        let (t, fs) = table_init(b[i])->Some_0;
        let end = fills_end(b, i + 1, t);
        fills_end_bounds(b, i + 1, t);
        fills_end_fills(b, i + 1, t);
        fills_store_nothing(b, i + 1, end, t, n);
        let s = c[i];
        assert(c =~= spec_splice(b, i, end, only(s)));
        assert(sole_assign(s) is Some && sole_assign(s)->Some_0.0 == t);
        deep_one(w, s);
        deep_splice(w, b, i, end, only(s));
        deep_range(w, b, i, i + 1, end);
        deep_range_one(w, b, i);
    }
}

proof fn folded_from_keeps_stores(b: Block, i: int, n: Text)
    requires
        0 <= i,
    ensures
        first_from(FoldFills, b, i) matches Some(c) ==> deep(stores_to(n), c) == deep(stores_to(n), b),
    decreases b.len() - i,
{
    if i < b.len() {
        folded_at_keeps_stores(b, i, n);
        folded_from_keeps_stores(b, i + 1, n);
    }
}

/// Folding fills into table literals keeps every assignment to a name.
pub proof fn folding_keeps_stores(b: Block, n: Text)
    ensures
        deep(stores_to(n), everywhere(Scan(FoldFills), b)) == deep(stores_to(n), b),
{
    let p = Scan(FoldFills);
    assert forall|c: Block| (#[trigger] p.step(c)) matches Some(d) ==> deep(stores_to(n), d) == deep(
        stores_to(n),
        c,
    ) by {
        folded_from_keeps_stores(c, 0, n);
    }
    everywhere_keeps(p, stores_to(n), b);
}

proof fn moved_at_keeps_protected(b: Block, i: int, cont: Seq<Block>, last: bool, protected: Seq<Text>, n: Text)
    requires
        0 <= i,
        i + 1 < b.len(),
        protected.contains(n),
    ensures
        moved_at(b, i, cont, last, protected) matches Some(c) ==> deep(stores_to(n), c) == deep(stores_to(n), b),
{
    if let Some(c) = moved_at(b, i, cont, last, protected) {
        let w = stores_to(n);
        let (m, fs) = table_init(b[i])->Some_0;
        let s = with_value(b[i + 1], ExprV::Table(fs));
        assert(w(b[i]) == 0);
        assert(w(s) == w(b[i + 1]));
        deep_one(w, s);
        deep_splice(w, b, i, i + 2, only(s));
        deep_range(w, b, i, i + 1, i + 2);
        deep_range_one(w, b, i);
        deep_range_one(w, b, i + 1);
    }
}

proof fn moved_from_keeps_protected(b: Block, i: int, cont: Seq<Block>, last: bool, protected: Seq<Text>, n: Text)
    requires
        0 <= i,
        protected.contains(n),
    ensures
        deep(stores_to(n), moved_from(b, i, cont, last, protected)) == deep(stores_to(n), b),
    decreases b.len() - i,
{
    if i + 1 < b.len() {
        moved_at_keeps_protected(b, i, cont, last, protected, n);
        match moved_at(b, i, cont, last, protected) {
            Some(c) => {
                if c.len() < b.len() {
                    moved_from_keeps_protected(c, i, cont, last, protected, n);
                }
            },
            None => {
                moved_from_keeps_protected(b, i + 1, cont, last, protected, n);
            },
        }
    }
}

/// Moving table literals into the assignments that store them keeps every assignment to a
/// protected name.
pub proof fn moving_keeps_protected(b: Block, cont: Seq<Block>, last: bool, protected: Seq<Text>, n: Text)
    requires
        protected.contains(n),
    ensures
        deep(stores_to(n), literals_moved(b, cont, last, protected)) == deep(stores_to(n), b),
    decreases b, 1nat, 0int,
{
    let c = literals_moved_inside(b, cont, last, protected);
    moving_inside_keeps_protected(b, b.len() as int, cont, last, protected, n);
    moved_from_keeps_protected(c, 0, cont, last, protected, n);
    assert(c.take(b.len() as int) =~= c);
    assert(b.take(b.len() as int) =~= b);
}

proof fn moving_inside_keeps_protected(b: Block, k: int, cont: Seq<Block>, last: bool, protected: Seq<Text>, n: Text)
    requires
        0 <= k <= b.len(),
        protected.contains(n),
    ensures
        deep(stores_to(n), literals_moved_inside(b, cont, last, protected).take(k)) == deep(stores_to(n), b.take(k)),
    decreases b, 0nat, k,
{
    let c = literals_moved_inside(b, cont, last, protected);
    if k > 0 {
        let rest = seq![b.subrange(k, b.len() as int)] + cont;
        moving_inside_keeps_protected(b, k - 1, cont, last, protected, n);
        match b[k - 1] {
            StmtV::If { then_body, else_body, .. } => {
                moving_keeps_protected(then_body, rest, last, protected, n);
                moving_keeps_protected(else_body, rest, last, protected, n);
            },
            StmtV::Loop { body, .. } => {
                moving_keeps_protected(body, Seq::empty(), true, protected, n);
            },
            _ => {},
        }
        assert(c[k - 1] == literals_moved_in(b[k - 1], rest, last, protected));
        assert(deep_stmt(stores_to(n), c[k - 1]) == deep_stmt(stores_to(n), b[k - 1]));
        assert(c.take(k).drop_last() =~= c.take(k - 1));
        assert(b.take(k).drop_last() =~= b.take(k - 1));
        assert(c.take(k).last() == c[k - 1]);
        assert(b.take(k).last() == b[k - 1]);
    } else {
        assert(c.take(0) =~= b.take(0));
    }
}

// ---- markers ------------------------------------------------------------------------------------------------------

proof fn without_markers_keeps(b: Block, i: int, cont: Seq<Block>, protected: Seq<Text>, n: Text)
    requires
        0 <= i <= b.len(),
        protected.contains(n),
    ensures
        deep(stores_to(n), without_markers(b, i, cont, protected)) == deep(stores_to(n), b.skip(i)),
    decreases b.len() - i,
{
    let w = stores_to(n);
    if i < b.len() {
        let rest = without_markers(b, i + 1, cont, protected);
        without_markers_keeps(b, i + 1, cont, protected, n);
        assert(b.skip(i) =~= seq![b[i]] + b.skip(i + 1));
        deep_concat(w, seq![b[i]], b.skip(i + 1));
        deep_one(w, b[i]);
        deep_concat(w, seq![b[i]], rest);
        if dead_marker(b, i, cont, protected) {
            assert(w(b[i]) == 0);
        }
    } else {
        assert(b.skip(i) =~= Seq::<StmtV>::empty());
    }
}

/// Removing markers keeps every assignment to a protected name.
pub proof fn markers_keep_protected(b: Block, cont: Seq<Block>, protected: Seq<Text>, n: Text)
    requires
        protected.contains(n),
    ensures
        deep(stores_to(n), markers_removed(b, cont, protected)) == deep(stores_to(n), b),
    decreases b, 1nat, 0int,
{
    let c = markers_removed_inside(b, cont, protected);
    markers_inside_keep_protected(b, b.len() as int, cont, protected, n);
    without_markers_keeps(c, 0, cont, protected, n);
    assert(c.skip(0) =~= c);
    assert(c.take(b.len() as int) =~= c);
    assert(b.take(b.len() as int) =~= b);
}

proof fn markers_inside_keep_protected(b: Block, k: int, cont: Seq<Block>, protected: Seq<Text>, n: Text)
    requires
        0 <= k <= b.len(),
        protected.contains(n),
    ensures
        deep(stores_to(n), markers_removed_inside(b, cont, protected).take(k)) == deep(stores_to(n), b.take(k)),
    decreases b, 0nat, k,
{
    let c = markers_removed_inside(b, cont, protected);
    if k > 0 {
        let rest = seq![b.subrange(k, b.len() as int)] + cont;
        markers_inside_keep_protected(b, k - 1, cont, protected, n);
        match b[k - 1] {
            StmtV::If { then_body, else_body, .. } => {
                markers_keep_protected(then_body, rest, protected, n);
                markers_keep_protected(else_body, rest, protected, n);
            },
            StmtV::Loop { body, .. } => {
                markers_keep_protected(body, Seq::empty(), protected, n);
            },
            _ => {},
        }
        assert(c[k - 1] == markers_removed_in(b[k - 1], rest, protected));
        assert(deep_stmt(stores_to(n), c[k - 1]) == deep_stmt(stores_to(n), b[k - 1]));
        assert(c.take(k).drop_last() =~= c.take(k - 1));
        assert(b.take(k).drop_last() =~= b.take(k - 1));
        assert(c.take(k).last() == c[k - 1]);
        assert(b.take(k).last() == b[k - 1]);
    } else {
        assert(c.take(0) =~= b.take(0));
    }
}

// ---- passes over every block --------------------------------------------------------------------------------------

/// Whether a pass takes nothing of the weight `w` away.
pub open spec fn pass_grows<P: Pass>(p: P, w: spec_fn(StmtV) -> nat) -> bool {
    forall|b: Block| deep(w, #[trigger] p.rewrite(b)) >= deep(w, b)
}

/// Whether a pass keeps the weight `w`.
pub open spec fn pass_keeps<P: Pass>(p: P, w: spec_fn(StmtV) -> nat) -> bool {
    forall|b: Block| deep(w, #[trigger] p.rewrite(b)) == deep(w, b)
}

/// A pass that keeps a weight that only statements without a block have, or takes nothing of it
/// away, does so throughout a tree.
proof fn throughout_weight<P: Pass>(p: P, w: spec_fn(StmtV) -> nat, b: Block)
    requires
        leaf_weight(w),
        pass_grows(p, w),
    ensures
        deep(w, throughout(p, b)) >= deep(w, b),
        pass_keeps(p, w) ==> deep(w, throughout(p, b)) == deep(w, b),
    decreases b, 1nat, 0int,
{
    let c = within(p, b);
    within_weight(p, w, b, b.len() as int);
    assert(c.take(b.len() as int) =~= c);
    assert(b.take(b.len() as int) =~= b);
    assert(throughout(p, b) == p.rewrite(c));
}

proof fn within_weight<P: Pass>(p: P, w: spec_fn(StmtV) -> nat, b: Block, k: int)
    requires
        leaf_weight(w),
        pass_grows(p, w),
        0 <= k <= b.len(),
    ensures
        deep(w, within(p, b).take(k)) >= deep(w, b.take(k)),
        pass_keeps(p, w) ==> deep(w, within(p, b).take(k)) == deep(w, b.take(k)),
    decreases b, 0nat, k,
{
    let c = within(p, b);
    if k > 0 {
        within_weight(p, w, b, k - 1);
        let s = b[k - 1];
        let t = c[k - 1];
        assert(t == within_stmt(p, s));
        match s {
            StmtV::If { then_body, else_body, .. } => {
                throughout_weight(p, w, then_body);
                throughout_weight(p, w, else_body);
                assert(w(s) == 0 && w(t) == 0);
                assert(deep_stmt(w, s) == deep(w, then_body) + deep(w, else_body));
                assert(deep_stmt(w, t) == deep(w, throughout(p, then_body)) + deep(w, throughout(p, else_body)));
            },
            StmtV::Loop { body, .. } => {
                throughout_weight(p, w, body);
                assert(w(s) == 0 && w(t) == 0);
                assert(deep_stmt(w, s) == deep(w, body));
                assert(deep_stmt(w, t) == deep(w, throughout(p, body)));
            },
            _ => {},
        }
        assert(c.take(k).drop_last() =~= c.take(k - 1));
        assert(b.take(k).drop_last() =~= b.take(k - 1));
        assert(deep_stmt(w, t) >= deep_stmt(w, s));
        assert(c.take(k).last() == t);
        assert(b.take(k).last() == s);
        assert(deep(w, c.take(k)) == deep(w, c.take(k - 1)) + deep_stmt(w, t));
        assert(deep(w, b.take(k)) == deep(w, b.take(k - 1)) + deep_stmt(w, s));
    } else {
        assert(c.take(0) =~= b.take(0));
    }
}

proof fn calls_carried_grows(b: Block, i: int, n: Text)
    requires
        0 <= i <= b.len(),
    ensures
        deep(stores_to(n), calls_carried(b, i)) >= deep(stores_to(n), b.skip(i)),
    decreases b.len() - i,
{
    let w = stores_to(n);
    if i >= b.len() {
        assert(b.skip(i) =~= Seq::<StmtV>::empty());
    } else if i + 1 < b.len() && carried(b[i], b[i + 1]) is Some {
        let part = carried(b[i], b[i + 1])->Some_0;
        calls_carried_grows(b, i + 2, n);
        deep_concat(w, part, calls_carried(b, i + 2));
        assert(b.skip(i) =~= seq![b[i]].push(b[i + 1]) + b.skip(i + 2));
        deep_concat(w, seq![b[i]].push(b[i + 1]), b.skip(i + 2));
        deep_push(w, seq![b[i]], b[i + 1]);
        deep_one(w, b[i]);
        if let StmtV::If { then_body, else_body, .. } = b[i] {
            deep_one(w, StmtV::Continue);
            assert(else_body =~= Seq::<StmtV>::empty());
        }
    } else {
        calls_carried_grows(b, i + 1, n);
        assert(b.skip(i) =~= seq![b[i]] + b.skip(i + 1));
        deep_concat(w, seq![b[i]], b.skip(i + 1));
        deep_concat(w, seq![b[i]], calls_carried(b, i + 1));
    }
}

/// Recovering a variable that a loop passes through a callback takes no assignment away.
pub proof fn carried_calls_keep_stores(b: Block, n: Text)
    ensures
        deep(stores_to(n), throughout(CarriedCalls, b)) >= deep(stores_to(n), b),
{
    stores_are_leaves(n);
    assert forall|c: Block| deep(stores_to(n), #[trigger] CarriedCalls.rewrite(c)) >= deep(stores_to(n), c) by {
        calls_carried_grows(c, 0, n);
        assert(c.skip(0) =~= c);
    }
    throughout_weight(CarriedCalls, stores_to(n), b);
}

proof fn until_at_keeps(b: Block, i: int, protected: &NameSet, n: Text)
    requires
        0 <= i < b.len(),
        protected@.contains(n),
    ensures
        deep_stmt(stores_to(n), until_at(b, i, Some(protected))) == deep_stmt(stores_to(n), b[i]),
{
    let w = stores_to(n);
    if i + 1 < b.len() {
        if let (StmtV::Loop { head: LoopHead::Repeat(c), body }, StmtV::Return(vs)) = (b[i], b[i + 1]) {
            if until_inlined(body, c, vs, Some(protected)) is Some {
                let rest = body.drop_last();
                let t = until_inlined(body, c, vs, Some(protected))->Some_0;
                assert(w(body.last()) == 0);
                assert(deep_stmt(w, body.last()) == 0);
                assert(deep(w, body) == deep(w, rest));
                if rest.len() > 0 && returns_values(rest.last(), vs) {
                    guard_stores_nothing(rest.last(), n);
                    assert(deep(w, rest) == deep(w, rest.drop_last()));
                    assert(t->Loop_body == rest.drop_last());
                } else {
                    assert(t->Loop_body == rest);
                }
                assert(deep_stmt(w, t) == deep(w, t->Loop_body));
                assert(until_at(b, i, Some(protected)) == t);
            }
        }
    }
}

proof fn guard_stores_nothing(s: StmtV, n: Text)
    ensures
        return_guard(s) is Some ==> deep_stmt(stores_to(n), s) == 0,
{
    if return_guard(s) is Some {
        if let StmtV::If { then_body, else_body, .. } = s {
            assert(then_body =~= seq![then_body[0]]);
            deep_one(stores_to(n), then_body[0]);
            assert(else_body =~= Seq::<StmtV>::empty());
        }
    }
}

proof fn untils_keep(b: Block, k: int, protected: &NameSet, n: Text)
    requires
        0 <= k <= b.len(),
        protected@.contains(n),
    ensures
        deep(stores_to(n), (RepeatGuards { protected: Some(protected) }).rewrite(b).take(k)) == deep(
            stores_to(n),
            b.take(k),
        ),
    decreases k,
{
    let c = (RepeatGuards { protected: Some(protected) }).rewrite(b);
    if k > 0 {
        untils_keep(b, k - 1, protected, n);
        until_at_keeps(b, k - 1, protected, n);
        assert(c.take(k).drop_last() =~= c.take(k - 1));
        assert(b.take(k).drop_last() =~= b.take(k - 1));
        assert(c.take(k).last() == c[k - 1]);
        assert(b.take(k).last() == b[k - 1]);
    } else {
        assert(c.take(0) =~= b.take(0));
    }
}

/// Taking assignments into the condition of a `repeat` loop keeps every assignment to a protected
/// name.
pub proof fn repeat_guards_keep_protected(b: Block, protected: &NameSet, n: Text)
    requires
        protected@.contains(n),
    ensures
        deep(stores_to(n), throughout(RepeatGuards { protected: Some(protected) }, b)) == deep(stores_to(n), b),
{
    let p = RepeatGuards { protected: Some(protected) };
    stores_are_leaves(n);
    assert forall|c: Block| deep(stores_to(n), #[trigger] p.rewrite(c)) == deep(stores_to(n), c) by {
        untils_keep(c, c.len() as int, protected, n);
        assert(p.rewrite(c).take(c.len() as int) =~= p.rewrite(c));
        assert(c.take(c.len() as int) =~= c);
    }
    throughout_weight(p, stores_to(n), b);
}

// ---- conditions ---------------------------------------------------------------------------------------------------

proof fn simplified_all_len(es: Seq<ExprV>)
    ensures
        simplified_all(es).0.len() == es.len(),
    decreases es,
{
    if es.len() > 0 {
        simplified_all_len(es.drop_last());
    }
}

proof fn exprs_simplified_keeps(b: Block, k: int, n: Text)
    requires
        0 <= k <= b.len(),
    ensures
        deep(stores_to(n), exprs_simplified(b).take(k)) == deep(stores_to(n), b.take(k)),
    decreases b, 1nat, k,
{
    let c = exprs_simplified(b);
    if k > 0 {
        exprs_simplified_keeps(b, k - 1, n);
        stmt_simplified_keeps(b[k - 1], n);
        assert(c.take(k).drop_last() =~= c.take(k - 1));
        assert(b.take(k).drop_last() =~= b.take(k - 1));
        assert(c.take(k).last() == c[k - 1]);
        assert(b.take(k).last() == b[k - 1]);
    } else {
        assert(c.take(0) =~= b.take(0));
    }
}

proof fn whole_simplified_keeps(b: Block, n: Text)
    ensures
        deep(stores_to(n), exprs_simplified(b)) == deep(stores_to(n), b),
    decreases b, 2nat, 0int,
{
    exprs_simplified_keeps(b, b.len() as int, n);
    assert(exprs_simplified(b).take(b.len() as int) =~= exprs_simplified(b));
    assert(b.take(b.len() as int) =~= b);
}

proof fn stmt_simplified_keeps(s: StmtV, n: Text)
    ensures
        deep_stmt(stores_to(n), stmt_simplified(s)) == deep_stmt(stores_to(n), s),
    decreases s, 0nat, 0int,
{
    match s {
        StmtV::Local { values, .. } => {
            simplified_all_len(values);
        },
        StmtV::Assign { values, .. } => {
            simplified_all_len(values);
        },
        StmtV::If { then_body, else_body, .. } => {
            whole_simplified_keeps(then_body, n);
            whole_simplified_keeps(else_body, n);
        },
        StmtV::Loop { body, .. } => {
            whole_simplified_keeps(body, n);
        },
        _ => {},
    }
}

proof fn nested_if_keeps(b: Block, i: int, n: Text)
    requires
        0 <= i,
    ensures
        first_from(NestedIf, b, i) matches Some(c) ==> deep(stores_to(n), c) == deep(stores_to(n), b),
    decreases b.len() - i,
{
    if i < b.len() {
        let w = stores_to(n);
        if NestedIf.at(b, i) is Some {
            if let StmtV::If { cond, then_body, else_body } = b[i] {
                if let StmtV::If { then_body: inner, else_body: e, .. } = then_body[0] {
                    let s = StmtV::If { cond, then_body: inner, else_body };
                    deep_range_one(w, b, i);
                    deep_splice(w, b, i, i + 1, only(s));
                    deep_one(w, s);
                    deep_one(w, then_body[0]);
                    assert(then_body =~= seq![then_body[0]]);
                    assert(e =~= Seq::<StmtV>::empty());
                }
            }
        }
        nested_if_keeps(b, i + 1, n);
    }
}

/// Simplifying conditions keeps every assignment to a name.
pub proof fn conditions_keep_stores(b: Block, n: Text)
    ensures
        deep(stores_to(n), everywhere(Scan(NestedIf), exprs_simplified(b))) == deep(stores_to(n), b),
{
    let p = Scan(NestedIf);
    assert forall|c: Block| (#[trigger] p.step(c)) matches Some(d) ==> deep(stores_to(n), d) == deep(
        stores_to(n),
        c,
    ) by {
        nested_if_keeps(c, 0, n);
    }
    whole_simplified_keeps(b, n);
    everywhere_keeps(p, stores_to(n), exprs_simplified(b));
}

// ---- loops that jump back -----------------------------------------------------------------------------------------

proof fn cond_goto_stores_nothing(s: StmtV, req: Option<Text>, n: Text)
    ensures
        cond_goto(s, req) is Some ==> deep_stmt(stores_to(n), s) == 0,
    decreases s,
{
    if let StmtV::If { then_body, else_body, .. } = s {
        if else_body.len() == 0 {
            assert(else_body =~= Seq::<StmtV>::empty());
            body_jumps_store_nothing(then_body, req, n);
        }
    }
}

proof fn body_jumps_store_nothing(b: Block, req: Option<Text>, n: Text)
    ensures
        body_jumps(b, req) is Some ==> deep(stores_to(n), b) == 0,
    decreases b,
{
    if b.len() > 0 {
        body_jumps_store_nothing(b.drop_last(), req, n);
        cond_goto_stores_nothing(b.last(), req, n);
        if body_jumps(b, req) is Some {
            assert(body_jumps(b.drop_last(), req) is Some);
            assert(jump_of(b.last(), req) is Some);
            assert(deep_stmt(stores_to(n), b.last()) == 0);
        }
    }
}

proof fn backward_while_keeps(b: Block, i: int, n: Text)
    requires
        0 <= i < b.len(),
    ensures
        BackwardWhile.at(b, i) matches Some(c) ==> deep(stores_to(n), c) == deep(stores_to(n), b),
{
    if BackwardWhile.at(b, i) is Some {
        let w = stores_to(n);
        let l = b[i]->Label_0;
        find_jump_found(b, i + 1, l);
        let j = find_jump(b, i + 1, l)->Some_0;
        let (c, x) = cond_goto(b[i + 1], None)->Some_0;
        let body = b.subrange(i + 2, j);
        let s = spec_while(negated(c), replace_gotos(body, x, only(StmtV::Break)));
        let d = spec_splice(b, i, j + 1, only(s));
        stores_are_leaves(n);
        cond_goto_stores_nothing(b[i + 1], None, n);
        deep_one(w, StmtV::Break);
        replace_gotos_keeps(w, body, x, only(StmtV::Break));
        deep_range(w, b, i, i + 1, j + 1);
        deep_range(w, b, i + 1, i + 2, j + 1);
        deep_range(w, b, i + 2, j, j + 1);
        deep_range_one(w, b, i);
        deep_range_one(w, b, i + 1);
        deep_range_one(w, b, j);
        deep_splice(w, b, i, j + 1, only(s));
        deep_one(w, s);
        find_label_found(d, 0, x);
        if let Some(p) = find_label(d, 0, x) {
            deep_splice(w, d, p, p + 1, Seq::empty());
            deep_range_one(w, d, p);
        }
    }
}

proof fn while_with_load_keeps(b: Block, i: int, protected: &NameSet, n: Text)
    requires
        0 <= i < b.len(),
        protected@.contains(n),
    ensures
        (WhileWithLoad { protected: Some(protected) }).at(b, i) matches Some(c) ==> deep(stores_to(n), c) == deep(
            stores_to(n),
            b,
        ),
{
    if let Some(c) = (WhileWithLoad { protected: Some(protected) }).at(b, i) {
        let w = stores_to(n);
        if let StmtV::If { then_body, else_body, .. } = b[i + 2] {
            let s = c[i];
            assert(c =~= spec_splice(b, i, i + 3, only(s)));
            assert(s->Loop_body == then_body.drop_last());
            assert(else_body =~= Seq::<StmtV>::empty());
            assert(deep_stmt(w, then_body.last()) == 0);
            assert(deep(w, then_body) == deep(w, then_body.drop_last()));
            assert(w(b[i + 1]) == 0);
            deep_range(w, b, i, i + 1, i + 3);
            deep_range(w, b, i + 1, i + 2, i + 3);
            deep_range_one(w, b, i);
            deep_range_one(w, b, i + 1);
            deep_range_one(w, b, i + 2);
            deep_splice(w, b, i, i + 3, only(s));
            deep_one(w, s);
        }
    }
}

proof fn guards_store_nothing(b: Block, lo: int, f: int, k: int, vs: Seq<ExprV>, m: int, n: Text)
    requires
        0 <= lo <= f <= m <= k <= b.len(),
        f == guards_start(b, lo, k, vs),
    ensures
        deep(stores_to(n), b.subrange(f, m)) == 0,
    decreases m - f,
{
    let r = b.subrange(f, m);
    if f < m {
        guards_store_nothing(b, lo, f, k, vs, m - 1, n);
        guards_start_are_guards(b, lo, k, vs, m - 1);
        guard_stores_nothing(b[m - 1], n);
        assert(r.drop_last() =~= b.subrange(f, m - 1));
        assert(r.last() == b[m - 1]);
    } else {
        assert(r =~= Seq::<StmtV>::empty());
    }
}

proof fn repeat_return_keeps(b: Block, i: int, n: Text)
    requires
        0 <= i < b.len(),
    ensures
        RepeatReturn.at(b, i) matches Some(c) ==> deep(stores_to(n), c) == deep(stores_to(n), b),
{
    if RepeatReturn.at(b, i) is Some {
        let w = stores_to(n);
        let l = b[i]->Label_0;
        find_jump_found(b, i + 1, l);
        let j = find_jump(b, i + 1, l)->Some_0;
        let vs = return_guard(b[j - 1])->Some_0.1;
        let f = guards_start(b, i + 1, j, vs);
        guards_start_bounds(b, i + 1, j, vs);
        guards_store_nothing(b, i + 1, f, j, vs, j, n);
        let body = b.subrange(i + 1, f);
        let s = StmtV::Loop { head: LoopHead::Repeat(or_chain(return_conds(b, f, j))), body };
        let mid = seq![s, StmtV::Return(vs)];
        deep_range(w, b, i, i + 1, j + 1);
        deep_range(w, b, i + 1, f, j + 1);
        deep_range(w, b, f, j, j + 1);
        deep_range_one(w, b, i);
        deep_range_one(w, b, j);
        deep_splice(w, b, i, j + 1, mid);
        assert(mid =~= seq![s].push(StmtV::Return(vs)));
        deep_push(w, seq![s], StmtV::Return(vs));
        deep_one(w, s);
    }
}

proof fn first_keeps<R: Rule>(p: R, w: spec_fn(StmtV) -> nat, b: Block, i: int)
    requires
        0 <= i,
        forall|k: int|
            0 <= k < b.len() ==> ((#[trigger] p.at(b, k)) matches Some(c) ==> deep(w, c) == deep(w, b)),
    ensures
        first_from(p, b, i) matches Some(c) ==> deep(w, c) == deep(w, b),
    decreases b.len() - i,
{
    if i < b.len() {
        assert(p.at(b, i) matches Some(c) ==> deep(w, c) == deep(w, b));
        first_keeps(p, w, b, i + 1);
    }
}

/// Recovering loops that jump back keeps every assignment to a protected name.
pub proof fn backward_loops_keep_protected(b: Block, protected: &NameSet, n: Text)
    requires
        protected@.contains(n),
    ensures
        deep(stores_to(n), everywhere(backward_loops(Some(protected)), b)) == deep(stores_to(n), b),
{
    let p = backward_loops(Some(protected));
    let w = stores_to(n);
    let load = WhileWithLoad { protected: Some(protected) };
    assert forall|c: Block| (#[trigger] p.step(c)) matches Some(d) ==> deep(w, d) == deep(w, c) by {
        assert forall|k: int| 0 <= k < c.len() implies ((#[trigger] BackwardWhile.at(c, k)) matches Some(d) ==> deep(
            w,
            d,
        ) == deep(w, c)) by {
            backward_while_keeps(c, k, n);
        }
        assert forall|k: int| 0 <= k < c.len() implies ((#[trigger] load.at(c, k)) matches Some(d) ==> deep(w, d)
            == deep(w, c)) by {
            while_with_load_keeps(c, k, protected, n);
        }
        assert forall|k: int| 0 <= k < c.len() implies ((#[trigger] RepeatReturn.at(c, k)) matches Some(d) ==> deep(
            w,
            d,
        ) == deep(w, c)) by {
            repeat_return_keeps(c, k, n);
        }
        first_keeps(BackwardWhile, w, c, 0);
        first_keeps(load, w, c, 0);
        first_keeps(RepeatReturn, w, c, 0);
    }
    everywhere_keeps(p, w, b);
}

// ---- a round ------------------------------------------------------------------------------------------------------

/// Whether `t` is one of the passes that make a function shorter.
pub open spec fn reduces(t: Tidy) -> bool {
    match t {
        Tidy::FoldTables
        | Tidy::MoveTables
        | Tidy::CarriedCalls
        | Tidy::RepeatGuards
        | Tidy::Conditions
        | Tidy::Markers
        | Tidy::Inline
        | Tidy::DeadStores
        | Tidy::DeadAfter => true,
        _ => false,
    }
}

/// A pass that makes a function shorter takes no assignment to a protected name away; it adds none
/// either, but for the one that recovers a variable passed through a callback.
pub proof fn reducing_keeps_protected(t: Tidy, b: Block, protected: &NameSet, n: Text)
    requires
        reduces(t),
        protected@.contains(n),
    ensures
        deep(stores_to(n), tidied(t, b, protected)) >= deep(stores_to(n), b),
        t != Tidy::CarriedCalls ==> deep(stores_to(n), tidied(t, b, protected)) == deep(stores_to(n), b),
{
    match t {
        Tidy::FoldTables => {
            folding_keeps_stores(b, n);
        },
        Tidy::MoveTables => {
            moving_keeps_protected(b, Seq::empty(), false, protected@, n);
        },
        Tidy::CarriedCalls => {
            carried_calls_keep_stores(b, n);
        },
        Tidy::RepeatGuards => {
            repeat_guards_keep_protected(b, protected, n);
        },
        Tidy::Conditions => {
            conditions_keep_stores(b, n);
        },
        Tidy::Markers => {
            markers_keep_protected(b, Seq::empty(), protected@, n);
        },
        Tidy::Inline => {
            inlining_keeps_protected(b, protected@, n);
        },
        Tidy::DeadStores => {
            dead_stores_keep_protected(b, protected@, n);
        },
        Tidy::DeadAfter => {
            dead_after_keeps_protected(b, protected, n);
        },
        _ => {},
    }
}

proof fn reducing_by_keeps_protected(ts: Seq<Tidy>, k: int, b: Block, protected: &NameSet, n: Text)
    requires
        0 <= k <= ts.len(),
        forall|i: int| 0 <= i < ts.len() ==> reduces(#[trigger] ts[i]),
        protected@.contains(n),
    ensures
        deep(stores_to(n), tidied_by(ts, k, b, protected)) >= deep(stores_to(n), b),
    decreases k,
{
    if k > 0 {
        reducing_by_keeps_protected(ts, k - 1, b, protected, n);
        assert(reduces(ts[k - 1]));
        reducing_keeps_protected(ts[k - 1], tidied_by(ts, k - 1, b, protected), protected, n);
    }
}

/// A round of reducing passes takes no assignment to a protected name away.
pub proof fn reduction_keeps_protected(b: Block, protected: &NameSet, n: Text)
    requires
        protected@.contains(n),
    ensures
        deep(stores_to(n), tidied_all(reduction(), b, protected)) >= deep(stores_to(n), b),
{
    reducing_by_keeps_protected(reduction(), reduction().len() as int, b, protected, n);
}

proof fn rounds_keep_protected(r: Rounds, b: Block, protected: &NameSet, n: Text)
    requires
        protected@.contains(n),
    ensures
        deep(stores_to(n), reduced(r, b, protected)) >= deep(stores_to(n), b),
    decreases r.left,
{
    let c = tidied_all(reduction(), b, protected);
    reduction_keeps_protected(b, protected, n);
    if let Some(next) = after_round(r, deep(each(), c)) {
        rounds_keep_protected(next, c, protected, n);
    }
}

/// However many rounds it takes to reduce a function, no assignment to a protected name goes.
pub proof fn reducing_to_the_end_keeps_protected(b: Block, protected: &NameSet, n: Text)
    requires
        protected@.contains(n),
    ensures
        deep(
            stores_to(n),
            reduced(fresh_rounds(), tidied_all(literals(), b, protected), protected),
        ) >= deep(stores_to(n), b),
{
    reducing_by_keeps_protected(literals(), literals().len() as int, b, protected, n);
    rounds_keep_protected(fresh_rounds(), tidied_all(literals(), b, protected), protected, n);
}

// ---- final names --------------------------------------------------------------------------------------------------

proof fn retexted_store<R: Retext>(f: R, s: StmtV, n: Text)
    ensures
        deep_stmt(stores_to(n), retexted_stmt(f, s)) == deep_stmt(stores_to(n), s),
    decreases s, 0nat, 0int,
{
    match s {
        StmtV::Assign { targets, values } => {
            if targets.len() == 1 && values.len() == 1 {
                assert(retexted_all(f, targets)[0] == retexted(f, targets[0]));
                assert(retexted_all(f, values)[0] == retexted(f, values[0]));
            }
            assert(stores_to(n)(retexted_stmt(f, s)) == stores_to(n)(s));
        },
        StmtV::Local { values, .. } => {
            if values.len() == 1 {
                assert(retexted_all(f, values)[0] == retexted(f, values[0]));
            }
            assert(stores_to(n)(retexted_stmt(f, s)) == stores_to(n)(s));
        },
        StmtV::If { then_body, else_body, .. } => {
            retexted_stores(f, then_body, then_body.len() as int, n);
            retexted_stores(f, else_body, else_body.len() as int, n);
            take_all(then_body, retexted_block(f, then_body));
            take_all(else_body, retexted_block(f, else_body));
        },
        StmtV::Loop { body, .. } => {
            retexted_stores(f, body, body.len() as int, n);
            take_all(body, retexted_block(f, body));
        },
        _ => {},
    }
}

proof fn take_all(b: Block, c: Block)
    requires
        b.len() == c.len(),
    ensures
        b.take(b.len() as int) == b,
        c.take(b.len() as int) == c,
{
    assert(b.take(b.len() as int) =~= b);
    assert(c.take(b.len() as int) =~= c);
}

proof fn retexted_stores<R: Retext>(f: R, b: Block, k: int, n: Text)
    requires
        0 <= k <= b.len(),
    ensures
        deep(stores_to(n), retexted_block(f, b).take(k)) == deep(stores_to(n), b.take(k)),
    decreases b, 1nat, k,
{
    let c = retexted_block(f, b);
    if k > 0 {
        retexted_stores(f, b, k - 1, n);
        retexted_store(f, b[k - 1], n);
        assert(c.take(k).drop_last() =~= c.take(k - 1));
        assert(b.take(k).drop_last() =~= b.take(k - 1));
        assert(c.take(k).last() == c[k - 1]);
        assert(b.take(k).last() == b[k - 1]);
    } else {
        assert(c.take(0) =~= b.take(0));
    }
}

proof fn initialized_store(b: Block, i: int, exclude: Seq<Text>, n: Text)
    requires
        0 <= i < b.len(),
    ensures
        deep_stmt(stores_to(n), initialized_at(b, i, exclude)) == deep_stmt(stores_to(n), b[i]),
{
    if let StmtV::Assign { targets, values } = b[i] {
        if all_bare(targets) {
            all_bare_names(targets);
            if targets.len() == 1 {
                let front = targets.drop_last();
                assert(front =~= Seq::<ExprV>::empty());
                assert(var_names(front) =~= Seq::<Text>::empty());
                assert(targets.last() == targets[0]);
                assert(targets[0] is Var);
                assert(var_names(targets) =~= seq![targets[0]->Var_0]);
            }
        }
        assert(stores_to(n)(initialized_at(b, i, exclude)) == stores_to(n)(b[i]));
    }
}

proof fn initialized_stores(b: Block, exclude: Seq<Text>, k: int, n: Text)
    requires
        0 <= k <= b.len(),
    ensures
        deep(stores_to(n), initialized(b, exclude).take(k)) == deep(stores_to(n), b.take(k)),
    decreases k,
{
    let c = initialized(b, exclude);
    if k > 0 {
        initialized_stores(b, exclude, k - 1, n);
        initialized_store(b, k - 1, exclude, n);
        assert(c.take(k).drop_last() =~= c.take(k - 1));
        assert(b.take(k).drop_last() =~= b.take(k - 1));
        assert(c.take(k).last() == c[k - 1]);
        assert(b.take(k).last() == b[k - 1]);
    } else {
        assert(c.take(0) =~= b.take(0));
    }
}

/// Naming what closures capture, declaring variables and reducing the function to the end takes no
/// assignment to a protected name away.
pub proof fn shortening_keeps_protected(
    m: &Machine,
    rename: &TextMap,
    non_local: Seq<Text>,
    protected: &NameSet,
    b: Block,
    n: Text,
)
    requires
        protected@.contains(n),
    ensures
        deep(stores_to(n), shortened(m, rename, non_local, protected, b)) >= deep(stores_to(n), b),
{
    let f = Resolve { machine: m, rename };
    let c = retexted_block(f, b);
    let d = initialized(c, non_local);
    retexted_stores(f, b, b.len() as int, n);
    take_all(b, c);
    initialized_stores(c, non_local, c.len() as int, n);
    take_all(c, d);
    reducing_to_the_end_keeps_protected(d, protected, n);
}

} // verus!
