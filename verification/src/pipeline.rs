//! The order in which a function is tidied.
use vstd::prelude::*;

use crate::and_or::{and_or_recovered, recover_and_or, AndOr};
use crate::ast::{block, clone_opt_expr, loop_body, with_loop_body, Block, Expr, ExprV, LoopHead, Stmt, StmtV};
use crate::back_loops::{
    backward_loops, recover_backward_loops, recover_natural_loops, recover_top_test_while_gotos, BackwardWhile,
    NaturalLoop, TopTest,
};
use crate::dead_stores::{dead_store_elim, remove_dead_pure_stores_after_last_read, without_dead_stores, DeadAfter};
use crate::function_ends::{
    epilogue_copied, epilogue_copied_into_loops, final_goto_returned, replace_loop_gotos_to_terminal_label_tail,
    replace_orphan_terminal_goto_with_return, replace_return_label_gotos, replace_terminal_label_gotos_with_return,
    replace_terminal_label_tail_gotos, return_labels, returns_inlined, terminal_gotos_returned,
};
use crate::gates::{gates, recover_goto_into_if_gates};
use crate::inline::{inlined, single_use_inline};
use crate::joins::{
    if_joins_recovered, orphans_joined, recover_branch_gotos_to_following_label, recover_else_label_gotos,
    recover_gotos_to_later_else_label, recover_if_else_gotos, recover_if_join_gotos, recover_orphan_if_join_gotos,
    ElseLabel, FollowingLabel, IfElse, IfJoin, LaterElse,
};
use crate::labeled_bodies::{
    recover_duplicate_labeled_bodies, recover_duplicate_labeled_terminal_bodies, retarget_missing_gotos_to_next_label,
    retargeted, DuplicateBody, Retarget,
};
use crate::loop_exits::{
    bool_exits_recovered, recover_loop_bool_selector_gotos, recover_loop_find_breaks, FindBreak, FindFallback,
};
use crate::markers::{markers_removed, remove_unseen_literal_markers};
use crate::names::NameSet;
use crate::orphans::{
    continuations_copied, fallbacks_recovered, orphan_skips_recovered, recover_nested_orphan_skip_gotos,
    recover_orphan_if_fallback_gotos, recover_orphan_skip_blocks, replace_orphan_gotos_with_terminal_continuation,
    skip_blocks_recovered, CopyTail, IfFallback,
};
use crate::query::block_goto_names;
use crate::routing::each;
use crate::rules::{everywhere, fixpoint, throughout, Either, PerLabel, PerPresent, Scan};
use crate::simplify::{exprs_simplified, simplify_redundant_conditions, NestedIf};
use crate::skips::{
    guard_skips_recovered, recover_forward_label_skip_gotos, recover_guard_else_gotos, recover_if_skip_gotos,
    recover_missing_guard_skip_to_block_end_gotos, recover_missing_label_skip_to_block_end_gotos,
    skips_to_end_recovered, ForwardSkip, GuardElse, GuardSkipToEnd, IfSkip, SkipToEnd,
};
use crate::split::{registers_split, split_reused_registers};
use crate::sweeps::{
    count_stmts, drop_trailing_empty_return, drop_unreachable, labels_kept, merge_leading_while_break_guards,
    recover_loop_carried_call_updates, remove_redundant_gotos, remove_trailing_sibling_gotos, remove_unused_labels,
    simplify_unseen_repeat_guards, BreakGuards, CarriedCalls, Reachable, RedundantGotos, RepeatGuards, SiblingGotos,
};
use crate::tables::{fold_table_literals, inline_unseen_table_literals, literals_moved, FoldFills};
use crate::text::str_eq;
use crate::weight::deep;

verus! {

// ---- steps of one --------------------------------------------------------------------------------------------

/// `e`, unless it is the number one.
pub open spec fn step_kept(e: Option<ExprV>) -> Option<ExprV> {
    if e == Some(ExprV::Num("1"@)) {
        None
    } else {
        e
    }
}

/// `s` without steps of one in numeric `for`s, nested statements included.
pub open spec fn unit_steps_dropped_in(s: StmtV) -> StmtV
    decreases s,
{
    match s {
        StmtV::If { cond, then_body, else_body } => StmtV::If {
            cond,
            then_body: unit_steps_dropped(then_body),
            else_body: unit_steps_dropped(else_body),
        },
        StmtV::Loop { head: LoopHead::Numeric { var, start, limit, step }, body } => StmtV::Loop {
            head: LoopHead::Numeric { var, start, limit, step: step_kept(step) },
            body: unit_steps_dropped(body),
        },
        StmtV::Loop { head, body } => StmtV::Loop { head, body: unit_steps_dropped(body) },
        _ => s,
    }
}

/// `b` without steps of one in numeric `for`s, nested statements included.
pub open spec fn unit_steps_dropped(b: Block) -> Block
    decreases b,
{
    Seq::new(b.len(), |i: int| if 0 <= i < b.len() { unit_steps_dropped_in(b[i]) } else { StmtV::Break })
}

fn keep_step(e: &Option<Expr>) -> (r: Option<Expr>)
    ensures
        crate::ast::opt_expr_view(r) == step_kept(crate::ast::opt_expr_view(*e)),
{
    if let Some(Expr::Num(n)) = e {
        if str_eq(n, "1") {
            return None;
        }
    }
    clone_opt_expr(e)
}

fn drop_unit_steps_in(s: &Stmt) -> (r: Stmt)
    ensures
        r@ == unit_steps_dropped_in(s@),
    decreases s,
{
    match s {
        Stmt::If { cond, then_body, else_body } => Stmt::If {
            cond: cond.clone(),
            then_body: drop_unit_steps(then_body),
            else_body: drop_unit_steps(else_body),
        },
        Stmt::NumericFor { var, start, limit, step, body } => Stmt::NumericFor {
            var: var.clone(),
            start: start.clone(),
            limit: limit.clone(),
            step: keep_step(step),
            body: drop_unit_steps(body),
        },
        _ => match loop_body(s) {
            Some(body) => {
                let b = drop_unit_steps(body);
                with_loop_body(s, b)
            },
            None => s.clone(),
        },
    }
}

fn drop_unit_steps(b: &[Stmt]) -> (r: Vec<Stmt>)
    ensures
        block(r@) == unit_steps_dropped(block(b@)),
    decreases b@,
{
    let mut out: Vec<Stmt> = Vec::new();
    let mut i: usize = 0;
    while i < b.len()
        invariant
            i <= b.len(),
            out.len() == i,
            forall|j: int| 0 <= j < i ==> (#[trigger] out@[j])@ == unit_steps_dropped_in(b@[j]@),
        decreases b.len() - i,
    {
        out.push(drop_unit_steps_in(&b[i]));
        i += 1;
    }
    assert(block(out@) =~= unit_steps_dropped(block(b@)));
    out
}

/// Leaves out steps of one in numeric `for`s.
pub fn drop_unit_for_steps(stmts: &mut Vec<Stmt>)
    ensures
        block(final(stmts)@) == unit_steps_dropped(block(old(stmts)@)),
{
    *stmts = drop_unit_steps(stmts);
}

// ---- passes ----------------------------------------------------------------------------------------------------

/// `b` without a `return` of nothing at its end.
pub open spec fn final_return_dropped(b: Block) -> Block {
    if b.len() > 0 && b.last() == crate::function_ends::bare_return() {
        b.drop_last()
    } else {
        b
    }
}

/// A pass over a function.
#[derive(Debug, Clone, Copy, PartialEq, Eq, Structural)]
pub enum Tidy {
    Unreachable,
    RedundantGotos,
    SiblingGotos,
    UnusedLabels,
    AndOr,
    GuardElse,
    IfSkip,
    Gates,
    IfElse,
    ElseLabel,
    LaterElse,
    ForwardSkip,
    TerminalBodies,
    LabeledBodies,
    GuardSkipToEnd,
    SkipToEnd,
    IfJoin,
    OrphanJoin,
    TopTest,
    BackwardWhile,
    BreakGuards,
    BoolExits,
    FindBreaks,
    SplitRegisters,
    FoldTables,
    MoveTables,
    CarriedCalls,
    RepeatGuards,
    Conditions,
    Markers,
    Inline,
    DeadStores,
    DeadAfter,
    UnitSteps,
    NaturalLoops,
    Epilogue,
    LoopEpilogue,
    FinalGoto,
    IfFallback,
    SkipBlocks,
    NestedSkips,
    CopyTail,
    TerminalLabel,
    ReturnLabels,
    Retarget,
    FollowingLabel,
    FinalReturn,
}

/// `b` after the pass `t`; `protected` names keep their assignments.
pub open spec fn tidied(t: Tidy, b: Block, protected: &NameSet) -> Block {
    match t {
        Tidy::Unreachable => throughout(Reachable, b),
        Tidy::RedundantGotos => throughout(RedundantGotos, b),
        Tidy::SiblingGotos => throughout(SiblingGotos, b),
        Tidy::UnusedLabels => labels_kept(b, block_goto_names(b)),
        Tidy::AndOr => and_or_recovered(b),
        Tidy::GuardElse => everywhere(Scan(PerLabel(GuardElse)), b),
        Tidy::IfSkip => everywhere(Scan(IfSkip), b),
        Tidy::Gates => everywhere(gates(), b),
        Tidy::IfElse => everywhere(Scan(IfElse), b),
        Tidy::ElseLabel => everywhere(Scan(ElseLabel), b),
        Tidy::LaterElse => everywhere(Scan(LaterElse), b),
        Tidy::ForwardSkip => everywhere(Scan(ForwardSkip), b),
        Tidy::TerminalBodies => everywhere(PerPresent(DuplicateBody { terminal: true }), b),
        Tidy::LabeledBodies => everywhere(PerPresent(DuplicateBody { terminal: false }), b),
        Tidy::GuardSkipToEnd => guard_skips_recovered(b),
        Tidy::SkipToEnd => skips_to_end_recovered(b),
        Tidy::IfJoin => if_joins_recovered(b),
        Tidy::OrphanJoin => orphans_joined(b),
        Tidy::TopTest => everywhere(Scan(TopTest), b),
        Tidy::BackwardWhile => everywhere(backward_loops(Some(protected)), b),
        Tidy::BreakGuards => throughout(BreakGuards, b),
        Tidy::BoolExits => bool_exits_recovered(b),
        Tidy::FindBreaks => everywhere(Either(Scan(PerLabel(FindBreak)), Scan(PerLabel(FindFallback))), b),
        Tidy::SplitRegisters => registers_split(b, protected@),
        Tidy::FoldTables => everywhere(Scan(FoldFills), b),
        Tidy::MoveTables => literals_moved(b, Seq::empty(), false, protected@),
        Tidy::CarriedCalls => throughout(CarriedCalls, b),
        Tidy::RepeatGuards => throughout(RepeatGuards { protected: Some(protected) }, b),
        Tidy::Conditions => everywhere(Scan(NestedIf), exprs_simplified(b)),
        Tidy::Markers => markers_removed(b, Seq::empty(), protected@),
        Tidy::Inline => inlined(b, protected@),
        Tidy::DeadStores => without_dead_stores(b, protected@),
        Tidy::DeadAfter => fixpoint(Scan(DeadAfter { protected }), b),
        Tidy::UnitSteps => unit_steps_dropped(b),
        Tidy::NaturalLoops => everywhere(Scan(NaturalLoop), b),
        Tidy::Epilogue => epilogue_copied(b),
        Tidy::LoopEpilogue => epilogue_copied_into_loops(b),
        Tidy::FinalGoto => final_goto_returned(b),
        Tidy::IfFallback => fallbacks_recovered(b),
        Tidy::SkipBlocks => skip_blocks_recovered(b),
        Tidy::NestedSkips => orphan_skips_recovered(b),
        Tidy::CopyTail => continuations_copied(b),
        Tidy::TerminalLabel => terminal_gotos_returned(b),
        Tidy::ReturnLabels => returns_inlined(b, return_labels(b)),
        Tidy::Retarget => retargeted(b),
        Tidy::FollowingLabel => everywhere(Scan(FollowingLabel), b),
        Tidy::FinalReturn => final_return_dropped(b),
    }
}

/// Runs the pass `t`.
pub fn tidy(t: Tidy, stmts: &mut Vec<Stmt>, protected: &NameSet)
    ensures
        block(final(stmts)@) == tidied(t, block(old(stmts)@), protected),
{
    match t {
        Tidy::Unreachable => drop_unreachable(stmts),
        Tidy::RedundantGotos => remove_redundant_gotos(stmts),
        Tidy::SiblingGotos => remove_trailing_sibling_gotos(stmts),
        Tidy::UnusedLabels => remove_unused_labels(stmts),
        Tidy::AndOr => recover_and_or(stmts),
        Tidy::GuardElse => recover_guard_else_gotos(stmts),
        Tidy::IfSkip => recover_if_skip_gotos(stmts),
        Tidy::Gates => recover_goto_into_if_gates(stmts),
        Tidy::IfElse => recover_if_else_gotos(stmts),
        Tidy::ElseLabel => recover_else_label_gotos(stmts),
        Tidy::LaterElse => recover_gotos_to_later_else_label(stmts),
        Tidy::ForwardSkip => recover_forward_label_skip_gotos(stmts),
        Tidy::TerminalBodies => recover_duplicate_labeled_terminal_bodies(stmts),
        Tidy::LabeledBodies => recover_duplicate_labeled_bodies(stmts),
        Tidy::GuardSkipToEnd => recover_missing_guard_skip_to_block_end_gotos(stmts),
        Tidy::SkipToEnd => recover_missing_label_skip_to_block_end_gotos(stmts),
        Tidy::IfJoin => recover_if_join_gotos(stmts),
        Tidy::OrphanJoin => recover_orphan_if_join_gotos(stmts),
        Tidy::TopTest => recover_top_test_while_gotos(stmts),
        Tidy::BackwardWhile => recover_backward_loops(stmts, protected),
        Tidy::BreakGuards => merge_leading_while_break_guards(stmts),
        Tidy::BoolExits => recover_loop_bool_selector_gotos(stmts),
        Tidy::FindBreaks => recover_loop_find_breaks(stmts),
        Tidy::SplitRegisters => split_reused_registers(stmts, protected),
        Tidy::FoldTables => fold_table_literals(stmts),
        Tidy::MoveTables => inline_unseen_table_literals(stmts, protected),
        Tidy::CarriedCalls => recover_loop_carried_call_updates(stmts),
        Tidy::RepeatGuards => simplify_unseen_repeat_guards(stmts, protected),
        Tidy::Conditions => simplify_redundant_conditions(stmts),
        Tidy::Markers => remove_unseen_literal_markers(stmts, protected),
        Tidy::Inline => single_use_inline(stmts, protected),
        Tidy::DeadStores => dead_store_elim(stmts, protected),
        Tidy::DeadAfter => remove_dead_pure_stores_after_last_read(stmts, protected),
        Tidy::UnitSteps => drop_unit_for_steps(stmts),
        Tidy::NaturalLoops => recover_natural_loops(stmts),
        Tidy::Epilogue => replace_terminal_label_tail_gotos(stmts),
        Tidy::LoopEpilogue => replace_loop_gotos_to_terminal_label_tail(stmts),
        Tidy::FinalGoto => replace_orphan_terminal_goto_with_return(stmts),
        Tidy::IfFallback => recover_orphan_if_fallback_gotos(stmts),
        Tidy::SkipBlocks => recover_orphan_skip_blocks(stmts),
        Tidy::NestedSkips => recover_nested_orphan_skip_gotos(stmts),
        Tidy::CopyTail => replace_orphan_gotos_with_terminal_continuation(stmts),
        Tidy::TerminalLabel => replace_terminal_label_gotos_with_return(stmts),
        Tidy::ReturnLabels => replace_return_label_gotos(stmts),
        Tidy::Retarget => retarget_missing_gotos_to_next_label(stmts),
        Tidy::FollowingLabel => recover_branch_gotos_to_following_label(stmts),
        Tidy::FinalReturn => drop_trailing_empty_return(stmts),
    }
}

/// `b` after the first `k` of the passes `ts`.
pub open spec fn tidied_by(ts: Seq<Tidy>, k: int, b: Block, protected: &NameSet) -> Block
    decreases k,
{
    if k <= 0 {
        b
    } else {
        tidied(ts[k - 1], tidied_by(ts, k - 1, b, protected), protected)
    }
}

/// `b` after the passes `ts`.
pub open spec fn tidied_all(ts: Seq<Tidy>, b: Block, protected: &NameSet) -> Block {
    tidied_by(ts, ts.len() as int, b, protected)
}

fn tidy_all(ts: &Vec<Tidy>, stmts: &mut Vec<Stmt>, protected: &NameSet)
    ensures
        block(final(stmts)@) == tidied_all(ts@, block(old(stmts)@), protected),
{
    let ghost b0 = block(stmts@);
    let mut i: usize = 0;
    while i < ts.len()
        invariant
            i <= ts.len(),
            b0 == block(old(stmts)@),
            block(stmts@) == tidied_by(ts@, i as int, b0, protected),
        decreases ts.len() - i,
    {
        tidy(ts[i], stmts, protected);
        i += 1;
    }
}

// ---- their order -----------------------------------------------------------------------------------------------

/// The passes that find structure in what was read.
pub open spec fn opening() -> Seq<Tidy> {
    seq![
        Tidy::Unreachable,
        Tidy::RedundantGotos,
        Tidy::SiblingGotos,
        Tidy::UnusedLabels,
        Tidy::AndOr,
        Tidy::GuardElse,
        Tidy::IfSkip,
        Tidy::Gates,
        Tidy::IfElse,
        Tidy::ElseLabel,
        Tidy::LaterElse,
        Tidy::ForwardSkip,
        Tidy::TerminalBodies,
        Tidy::LabeledBodies,
        Tidy::GuardSkipToEnd,
        Tidy::SkipToEnd,
        Tidy::IfJoin,
        Tidy::OrphanJoin,
        Tidy::TopTest,
        Tidy::BackwardWhile,
        Tidy::BreakGuards,
        Tidy::BoolExits,
        Tidy::FindBreaks,
        Tidy::SplitRegisters,
    ]
}

fn opening_list() -> (r: Vec<Tidy>)
    ensures
        r@ == opening(),
{
    let mut v: Vec<Tidy> = Vec::new();
    v.push(Tidy::Unreachable);
    v.push(Tidy::RedundantGotos);
    v.push(Tidy::SiblingGotos);
    v.push(Tidy::UnusedLabels);
    v.push(Tidy::AndOr);
    v.push(Tidy::GuardElse);
    v.push(Tidy::IfSkip);
    v.push(Tidy::Gates);
    v.push(Tidy::IfElse);
    v.push(Tidy::ElseLabel);
    v.push(Tidy::LaterElse);
    v.push(Tidy::ForwardSkip);
    v.push(Tidy::TerminalBodies);
    v.push(Tidy::LabeledBodies);
    v.push(Tidy::GuardSkipToEnd);
    v.push(Tidy::SkipToEnd);
    v.push(Tidy::IfJoin);
    v.push(Tidy::OrphanJoin);
    v.push(Tidy::TopTest);
    v.push(Tidy::BackwardWhile);
    v.push(Tidy::BreakGuards);
    v.push(Tidy::BoolExits);
    v.push(Tidy::FindBreaks);
    v.push(Tidy::SplitRegisters);
    assert(v@ =~= opening());
    v
}

/// The passes that make a function shorter; each makes work for the others.
pub open spec fn reduction() -> Seq<Tidy> {
    seq![
        Tidy::FoldTables,
        Tidy::MoveTables,
        Tidy::CarriedCalls,
        Tidy::RepeatGuards,
        Tidy::Conditions,
        Tidy::Markers,
        Tidy::Inline,
        Tidy::DeadStores,
        Tidy::DeadAfter,
    ]
}

fn reduction_list() -> (r: Vec<Tidy>)
    ensures
        r@ == reduction(),
{
    let mut v: Vec<Tidy> = Vec::new();
    v.push(Tidy::FoldTables);
    v.push(Tidy::MoveTables);
    v.push(Tidy::CarriedCalls);
    v.push(Tidy::RepeatGuards);
    v.push(Tidy::Conditions);
    v.push(Tidy::Markers);
    v.push(Tidy::Inline);
    v.push(Tidy::DeadStores);
    v.push(Tidy::DeadAfter);
    assert(v@ =~= reduction());
    v
}

/// The passes between the reductions.
pub open spec fn middle() -> Seq<Tidy> {
    seq![
        Tidy::Gates,
        Tidy::GuardElse,
        Tidy::IfSkip,
        Tidy::TopTest,
        Tidy::BreakGuards,
        Tidy::BoolExits,
        Tidy::FindBreaks,
        Tidy::UnitSteps,
    ]
}

fn middle_list() -> (r: Vec<Tidy>)
    ensures
        r@ == middle(),
{
    let mut v: Vec<Tidy> = Vec::new();
    v.push(Tidy::Gates);
    v.push(Tidy::GuardElse);
    v.push(Tidy::IfSkip);
    v.push(Tidy::TopTest);
    v.push(Tidy::BreakGuards);
    v.push(Tidy::BoolExits);
    v.push(Tidy::FindBreaks);
    v.push(Tidy::UnitSteps);
    assert(v@ =~= middle());
    v
}

/// The passes that make table literals.
pub open spec fn literals() -> Seq<Tidy> {
    seq![
        Tidy::FoldTables,
        Tidy::MoveTables,
    ]
}

fn literals_list() -> (r: Vec<Tidy>)
    ensures
        r@ == literals(),
{
    let mut v: Vec<Tidy> = Vec::new();
    v.push(Tidy::FoldTables);
    v.push(Tidy::MoveTables);
    assert(v@ =~= literals());
    v
}

/// The passes that find structure once the names are final.
pub open spec fn shaping() -> Seq<Tidy> {
    seq![
        Tidy::RedundantGotos,
        Tidy::SiblingGotos,
        Tidy::UnusedLabels,
        Tidy::AndOr,
        Tidy::Gates,
        Tidy::GuardElse,
        Tidy::IfSkip,
        Tidy::IfElse,
        Tidy::ElseLabel,
        Tidy::LaterElse,
        Tidy::ForwardSkip,
        Tidy::TerminalBodies,
        Tidy::LabeledBodies,
        Tidy::GuardSkipToEnd,
        Tidy::SkipToEnd,
        Tidy::IfJoin,
        Tidy::OrphanJoin,
        Tidy::TopTest,
        Tidy::BackwardWhile,
        Tidy::NaturalLoops,
        Tidy::BreakGuards,
        Tidy::BoolExits,
        Tidy::FindBreaks,
        Tidy::CarriedCalls,
        Tidy::RepeatGuards,
        Tidy::Conditions,
        Tidy::Markers,
        Tidy::DeadStores,
        Tidy::DeadAfter,
    ]
}

fn shaping_list() -> (r: Vec<Tidy>)
    ensures
        r@ == shaping(),
{
    let mut v: Vec<Tidy> = Vec::new();
    v.push(Tidy::RedundantGotos);
    v.push(Tidy::SiblingGotos);
    v.push(Tidy::UnusedLabels);
    v.push(Tidy::AndOr);
    v.push(Tidy::Gates);
    v.push(Tidy::GuardElse);
    v.push(Tidy::IfSkip);
    v.push(Tidy::IfElse);
    v.push(Tidy::ElseLabel);
    v.push(Tidy::LaterElse);
    v.push(Tidy::ForwardSkip);
    v.push(Tidy::TerminalBodies);
    v.push(Tidy::LabeledBodies);
    v.push(Tidy::GuardSkipToEnd);
    v.push(Tidy::SkipToEnd);
    v.push(Tidy::IfJoin);
    v.push(Tidy::OrphanJoin);
    v.push(Tidy::TopTest);
    v.push(Tidy::BackwardWhile);
    v.push(Tidy::NaturalLoops);
    v.push(Tidy::BreakGuards);
    v.push(Tidy::BoolExits);
    v.push(Tidy::FindBreaks);
    v.push(Tidy::CarriedCalls);
    v.push(Tidy::RepeatGuards);
    v.push(Tidy::Conditions);
    v.push(Tidy::Markers);
    v.push(Tidy::DeadStores);
    v.push(Tidy::DeadAfter);
    assert(v@ =~= shaping());
    v
}

/// The passes that turn jumps to the end of the function into returns.
pub open spec fn ending() -> Seq<Tidy> {
    seq![
        Tidy::Epilogue,
        Tidy::LoopEpilogue,
        Tidy::FinalGoto,
        Tidy::OrphanJoin,
        Tidy::FinalGoto,
        Tidy::OrphanJoin,
        Tidy::IfFallback,
        Tidy::SkipBlocks,
        Tidy::NestedSkips,
        Tidy::CopyTail,
        Tidy::TerminalLabel,
        Tidy::ReturnLabels,
    ]
}

fn ending_list() -> (r: Vec<Tidy>)
    ensures
        r@ == ending(),
{
    let mut v: Vec<Tidy> = Vec::new();
    v.push(Tidy::Epilogue);
    v.push(Tidy::LoopEpilogue);
    v.push(Tidy::FinalGoto);
    v.push(Tidy::OrphanJoin);
    v.push(Tidy::FinalGoto);
    v.push(Tidy::OrphanJoin);
    v.push(Tidy::IfFallback);
    v.push(Tidy::SkipBlocks);
    v.push(Tidy::NestedSkips);
    v.push(Tidy::CopyTail);
    v.push(Tidy::TerminalLabel);
    v.push(Tidy::ReturnLabels);
    assert(v@ =~= ending());
    v
}

/// The passes that bring branches together once the returns are in place.
pub open spec fn joining() -> Seq<Tidy> {
    seq![
        Tidy::Gates,
        Tidy::ElseLabel,
        Tidy::LaterElse,
        Tidy::ForwardSkip,
        Tidy::TerminalBodies,
        Tidy::LabeledBodies,
        Tidy::GuardSkipToEnd,
        Tidy::SkipToEnd,
        Tidy::IfJoin,
        Tidy::OrphanJoin,
        Tidy::TopTest,
        Tidy::BackwardWhile,
        Tidy::NaturalLoops,
        Tidy::BreakGuards,
        Tidy::FindBreaks,
        Tidy::Conditions,
        Tidy::Unreachable,
        Tidy::RedundantGotos,
        Tidy::SiblingGotos,
        Tidy::UnusedLabels,
    ]
}

fn joining_list() -> (r: Vec<Tidy>)
    ensures
        r@ == joining(),
{
    let mut v: Vec<Tidy> = Vec::new();
    v.push(Tidy::Gates);
    v.push(Tidy::ElseLabel);
    v.push(Tidy::LaterElse);
    v.push(Tidy::ForwardSkip);
    v.push(Tidy::TerminalBodies);
    v.push(Tidy::LabeledBodies);
    v.push(Tidy::GuardSkipToEnd);
    v.push(Tidy::SkipToEnd);
    v.push(Tidy::IfJoin);
    v.push(Tidy::OrphanJoin);
    v.push(Tidy::TopTest);
    v.push(Tidy::BackwardWhile);
    v.push(Tidy::NaturalLoops);
    v.push(Tidy::BreakGuards);
    v.push(Tidy::FindBreaks);
    v.push(Tidy::Conditions);
    v.push(Tidy::Unreachable);
    v.push(Tidy::RedundantGotos);
    v.push(Tidy::SiblingGotos);
    v.push(Tidy::UnusedLabels);
    assert(v@ =~= joining());
    v
}

/// The passes that send jumps without a label to the label that follows them.
pub open spec fn retargeting() -> Seq<Tidy> {
    seq![
        Tidy::Retarget,
        Tidy::Gates,
        Tidy::ElseLabel,
        Tidy::LaterElse,
        Tidy::ForwardSkip,
        Tidy::TerminalBodies,
        Tidy::LabeledBodies,
        Tidy::GuardSkipToEnd,
        Tidy::SkipToEnd,
        Tidy::FollowingLabel,
        Tidy::IfJoin,
        Tidy::OrphanJoin,
        Tidy::Unreachable,
        Tidy::RedundantGotos,
        Tidy::SiblingGotos,
        Tidy::UnusedLabels,
    ]
}

fn retargeting_list() -> (r: Vec<Tidy>)
    ensures
        r@ == retargeting(),
{
    let mut v: Vec<Tidy> = Vec::new();
    v.push(Tidy::Retarget);
    v.push(Tidy::Gates);
    v.push(Tidy::ElseLabel);
    v.push(Tidy::LaterElse);
    v.push(Tidy::ForwardSkip);
    v.push(Tidy::TerminalBodies);
    v.push(Tidy::LabeledBodies);
    v.push(Tidy::GuardSkipToEnd);
    v.push(Tidy::SkipToEnd);
    v.push(Tidy::FollowingLabel);
    v.push(Tidy::IfJoin);
    v.push(Tidy::OrphanJoin);
    v.push(Tidy::Unreachable);
    v.push(Tidy::RedundantGotos);
    v.push(Tidy::SiblingGotos);
    v.push(Tidy::UnusedLabels);
    assert(v@ =~= retargeting());
    v
}

/// The passes that remove what nothing refers to.
pub open spec fn closing() -> Seq<Tidy> {
    seq![
        Tidy::Retarget,
        Tidy::TopTest,
        Tidy::BackwardWhile,
        Tidy::NaturalLoops,
        Tidy::BreakGuards,
        Tidy::Unreachable,
        Tidy::RedundantGotos,
        Tidy::SiblingGotos,
        Tidy::UnusedLabels,
        Tidy::ForwardSkip,
        Tidy::TerminalBodies,
        Tidy::LabeledBodies,
        Tidy::GuardSkipToEnd,
        Tidy::SkipToEnd,
        Tidy::Unreachable,
        Tidy::RedundantGotos,
        Tidy::SiblingGotos,
        Tidy::UnusedLabels,
        Tidy::Conditions,
        Tidy::FinalReturn,
    ]
}

fn closing_list() -> (r: Vec<Tidy>)
    ensures
        r@ == closing(),
{
    let mut v: Vec<Tidy> = Vec::new();
    v.push(Tidy::Retarget);
    v.push(Tidy::TopTest);
    v.push(Tidy::BackwardWhile);
    v.push(Tidy::NaturalLoops);
    v.push(Tidy::BreakGuards);
    v.push(Tidy::Unreachable);
    v.push(Tidy::RedundantGotos);
    v.push(Tidy::SiblingGotos);
    v.push(Tidy::UnusedLabels);
    v.push(Tidy::ForwardSkip);
    v.push(Tidy::TerminalBodies);
    v.push(Tidy::LabeledBodies);
    v.push(Tidy::GuardSkipToEnd);
    v.push(Tidy::SkipToEnd);
    v.push(Tidy::Unreachable);
    v.push(Tidy::RedundantGotos);
    v.push(Tidy::SiblingGotos);
    v.push(Tidy::UnusedLabels);
    v.push(Tidy::Conditions);
    v.push(Tidy::FinalReturn);
    assert(v@ =~= closing());
    v
}

/// How far a series of reductions has come.
#[derive(Debug, Clone, Copy, PartialEq, Eq, Structural)]
pub struct Rounds {
    /// How many rounds may still follow.
    pub left: u8,
    /// The number of statements after the last round.
    pub last: Option<usize>,
}

/// Before the first round.
pub open spec fn fresh_rounds() -> Rounds {
    Rounds { left: 16, last: None }
}

/// What follows a round that leaves `n` statements: there is no further round once `n` stays the
/// same, or once there were as many rounds as may be.
pub open spec fn after_round(r: Rounds, n: nat) -> Option<Rounds> {
    if r.left <= 1 || (r.last is Some && r.last->Some_0 == n) {
        None
    } else {
        Some(Rounds { left: (r.left - 1) as u8, last: Some(n as usize) })
    }
}

impl Rounds {
    /// Before the first round.
    pub fn new() -> (r: Rounds)
        ensures
            r == fresh_rounds(),
    {
        Rounds { left: 16, last: None }
    }

    /// What follows a round that leaves `n` statements.
    pub fn next_round(self, n: usize) -> (r: Option<Rounds>)
        ensures
            r == after_round(self, n as nat),
    {
        if self.left <= 1 || self.last == Some(n) {
            None
        } else {
            Some(Rounds { left: self.left - 1, last: Some(n) })
        }
    }
}

/// `b` after a round, and those that follow it.
pub open spec fn reduced(r: Rounds, b: Block, protected: &NameSet) -> Block
    decreases r.left,
{
    let c = tidied_all(reduction(), b, protected);
    match after_round(r, deep(each(), c)) {
        None => c,
        Some(next) => reduced(next, c, protected),
    }
}

/// Finds structure in what was read, and splits registers.
pub fn open_up(stmts: &mut Vec<Stmt>, protected: &NameSet)
    ensures
        block(final(stmts)@) == tidied_all(opening(), block(old(stmts)@), protected),
{
    tidy_all(&opening_list(), stmts, protected);
}

/// Makes the function shorter once.
pub fn reduce_once(stmts: &mut Vec<Stmt>, protected: &NameSet)
    ensures
        block(final(stmts)@) == tidied_all(reduction(), block(old(stmts)@), protected),
{
    tidy_all(&reduction_list(), stmts, protected);
}

/// Finds structure in what is left.
pub fn restructure(stmts: &mut Vec<Stmt>, protected: &NameSet)
    ensures
        block(final(stmts)@) == tidied_all(middle(), block(old(stmts)@), protected),
{
    tidy_all(&middle_list(), stmts, protected);
}

/// Makes table literals, and makes the function shorter as long as that helps.
pub fn reduce(stmts: &mut Vec<Stmt>, protected: &NameSet)
    ensures
        block(final(stmts)@) == reduced(
            fresh_rounds(),
            tidied_all(literals(), block(old(stmts)@), protected),
            protected,
        ),
{
    tidy_all(&literals_list(), stmts, protected);
    let ghost all = reduced(fresh_rounds(), block(stmts@), protected);
    let mut r = Rounds::new();
    loop
        invariant_except_break
            all == reduced(r, block(stmts@), protected),
        ensures
            block(stmts@) == all,
        decreases r.left,
    {
        reduce_once(stmts, protected);
        match r.next_round(count_stmts(stmts)) {
            None => {
                break;
            },
            Some(next) => {
                r = next;
            },
        }
    }
}

/// `b` after the passes that remove the jumps that are left.
pub open spec fn closed_up(b: Block, protected: &NameSet) -> Block {
    let shaped = tidied_all(shaping(), b, protected);
    let ended = tidied_all(ending(), shaped, protected);
    let joined = tidied_all(joining(), ended, protected);
    tidied_all(closing(), tidied_all(retargeting(), joined, protected), protected)
}

/// Removes the jumps that are left.
pub fn close_up(stmts: &mut Vec<Stmt>, protected: &NameSet)
    ensures
        block(final(stmts)@) == closed_up(block(old(stmts)@), protected),
{
    tidy_all(&shaping_list(), stmts, protected);
    tidy_all(&ending_list(), stmts, protected);
    tidy_all(&joining_list(), stmts, protected);
    tidy_all(&retargeting_list(), stmts, protected);
    tidy_all(&closing_list(), stmts, protected);
}

} // verus!
