//! Loops written with backward jumps.
use vstd::prelude::*;

use crate::ast::{
    as_var, block, clone_exprs, copy_range, exprs, exprs_eq, is_goto_to, one, range, spec_splice, splice, Block, Expr,
    ExprV, LoopHead, Stmt, StmtV,
};
use crate::conditions::{
    binary, binary_expr, cond_goto, cond_goto_jumps, conditional_goto_expr, negate_condition, negated, or_all,
    or_chain,
};
use crate::jumps::{
    has_goto_in_nested_loop, jumps_from_loop, no_jumps_no_gotos, only, replace_gotos, replace_gotos_fewer, sole_assign,
    sole_var_assign, with_breaks, with_continues,
};
use crate::loop_exits::{negand, negand_of};
use crate::names::NameSet;
use crate::orphans::{find_last_goto, find_last_goto_found, goto_is_any, position_of_last_goto};
use crate::query::{
    any_goto, block_goto_names, find_label, find_label_found, goto_names_in_block, goto_to, gotos, has_goto, has_jumps,
    one_goto, opt_index, position_of_label, range_has_jumps, LabelOrGoto,
};
use crate::rules::{everywhere, rewrite_everywhere, Either, Gotos, Measure, Rule, Scan};
use crate::text::{str_eq, Text};
use crate::weight::{deep, deep_member, deep_one, deep_push, deep_range, deep_range_one, deep_splice, deep_stmt, occurs};

verus! {

/// `while cond do body end`
pub open spec fn spec_while(cond: ExprV, body: Block) -> StmtV {
    StmtV::Loop { head: LoopHead::While(cond), body }
}

/// `b` without the first label `x`, if nothing jumps to it.
pub open spec fn without_unused_label(b: Block, x: Text) -> Block {
    if gotos(b, x) > 0 {
        b
    } else {
        match find_label(b, 0, x) {
            Some(p) => spec_splice(b, p, p + 1, Seq::empty()),
            None => b,
        }
    }
}

proof fn without_unused_label_gotos(b: Block, x: Text)
    ensures
        deep(any_goto(), without_unused_label(b, x)) <= deep(any_goto(), b),
{
    find_label_found(b, 0, x);
    if let Some(p) = find_label(b, 0, x) {
        deep_splice(any_goto(), b, p, p + 1, Seq::empty());
    }
}

fn drop_unused_label(b: Vec<Stmt>, x: &str) -> (r: Vec<Stmt>)
    ensures
        block(r@) == without_unused_label(block(b@), x@),
{
    if has_goto(&b, x) {
        return b;
    }
    match position_of_label(&b, 0, x) {
        Some(p) => splice(&b, p, p + 1, crate::ast::none()),
        None => b,
    }
}

/// The one label other than `l` among the two names.
pub open spec fn other_name(names: Seq<Text>, l: Text) -> Text {
    if names[0] == l {
        names[1]
    } else {
        names[0]
    }
}

/// Whether control leaves `b` at its end without a jump.
pub open spec fn leaves(b: Block) -> bool {
    b.len() > 0 && (b.last() is Return || b.last() is Break || b.last() is Continue)
}

fn block_leaves(b: &[Stmt]) -> (r: bool)
    ensures
        r == leaves(block(b@)),
{
    let n: usize = b.len();
    if n == 0 {
        return false;
    }
    assert(block(b@).last() == b@[n - 1]@);
    matches!(b[n - 1], Stmt::Return(_) | Stmt::Break | Stmt::Continue)
}

/// Whether `b` ends with `goto l`.
pub open spec fn ends_with_goto(b: Block, l: Text) -> bool {
    b.len() > 0 && b.last() == StmtV::Goto(l)
}

fn block_ends_with_goto(b: &[Stmt], l: &str) -> (r: bool)
    ensures
        r == ends_with_goto(block(b@), l@),
{
    let n: usize = b.len();
    if n == 0 {
        return false;
    }
    assert(block(b@).last() == b@[n - 1]@);
    is_goto_to(&b[n - 1], l)
}

/// The body of the endless loop that starts at the label `l`: jumps back become `continue`, jumps
/// to `exit` become `break`, and falling off the end becomes `break`.
pub open spec fn natural_body(body: Block, l: Text, exit: Option<Text>) -> Block {
    let back = ends_with_goto(body, l);
    let once = if back {
        body.drop_last()
    } else {
        body
    };
    let continued = replace_gotos(once, l, only(StmtV::Continue));
    let broken = match exit {
        Some(x) => replace_gotos(continued, x, only(StmtV::Break)),
        None => continued,
    };
    if back || leaves(broken) {
        broken
    } else {
        broken.push(StmtV::Break)
    }
}

fn make_natural_body(body: &[Stmt], l: &str, exit: Option<&str>) -> (r: Vec<Stmt>)
    ensures
        block(r@) == natural_body(block(body@), l@, crate::conditions::opt_text(exit)),
{
    let n: usize = body.len();
    let back = block_ends_with_goto(body, l);
    let once = if back {
        let c = range(body, 0, n - 1);
        assert(block(c@) =~= block(body@).drop_last());
        c
    } else {
        body
    };
    let continued = with_continues(once, l);
    let mut broken = match exit {
        Some(x) => with_breaks(&continued, x),
        None => continued,
    };
    if !back && !block_leaves(&broken) {
        let ghost o = broken@;
        broken.push(Stmt::Break);
        assert(block(broken@) =~= block(o).push(StmtV::Break));
    }
    broken
}

/// A label that is jumped back to starts an endless loop.
pub struct NaturalLoop;

impl NaturalLoop {
    /// The loop from the label at `i` to the last jump back at `e`, with the label `exit` behind
    /// it.
    pub open spec fn make(b: Block, i: int, e: int, l: Text, exit: Option<Text>) -> Option<Block> {
        let body = natural_body(b.subrange(i + 1, e + 1), l, exit);
        if has_jumps(body) {
            None
        } else {
            let c = spec_splice(b, i, e + 1, only(spec_while(ExprV::Bool(true), body)));
            Some(
                match exit {
                    Some(x) => without_unused_label(c, x),
                    None => c,
                },
            )
        }
    }
}

impl Rule for NaturalLoop {
    type M = Gotos;

    open spec fn at(&self, b: Block, i: int) -> Option<Block> {
        match b[i] {
            StmtV::Label(l) => match find_last_goto(b, b.len() as int, l) {
                None => None,
                Some(e) => {
                    let body = b.subrange(i + 1, e + 1);
                    let names = block_goto_names(body);
                    if e < i || gotos(b.subrange(0, i), l) > 0 || jumps_from_loop(body, l) {
                        None
                    } else if names.len() == 1 {
                        NaturalLoop::make(b, i, e, l, None)
                    } else if names.len() == 2 {
                        let exit = other_name(names, l);
                        if find_label(b, e + 1, exit) is None || jumps_from_loop(body, exit) {
                            None
                        } else {
                            NaturalLoop::make(b, i, e, l, Some(exit))
                        }
                    } else {
                        None
                    }
                },
            },
            _ => None,
        }
    }

    proof fn shrinks_at(&self, b: Block, i: int) {
        if let StmtV::Label(l) = b[i] {
            find_last_goto_found(b, b.len() as int, l);
            if let Some(e) = find_last_goto(b, b.len() as int, l) {
                if e > i {
                    let names = block_goto_names(b.subrange(i + 1, e + 1));
                    natural_shrinks(b, i, e, l, None);
                    natural_shrinks(b, i, e, l, Some(other_name(names, l)));
                }
            }
        }
    }

    fn try_at(&self, b: &Vec<Stmt>, i: usize) -> (r: Option<Vec<Stmt>>) {
        match &b[i] {
            Stmt::Label(l) => match position_of_last_goto(b, l) {
                None => None,
                Some(e) => {
                    if e <= i {
                        proof {
                            find_last_goto_found(block(b@), b@.len() as int, l@);
                        }
                        return None;
                    }
                    let body = range(b, i + 1, e + 1);
                    if has_goto(range(b, 0, i), l) || has_goto_in_nested_loop(body, l) {
                        return None;
                    }
                    let names = goto_names_in_block(body);
                    if names.len() == 1 {
                        try_natural(b, i, e, l, None)
                    } else if names.len() == 2 {
                        let exit = if str_eq(names.get(0), l) {
                            names.get(1)
                        } else {
                            names.get(0)
                        };
                        if position_of_label(b, e + 1, exit).is_none() || has_goto_in_nested_loop(body, exit) {
                            None
                        } else {
                            try_natural(b, i, e, l, Some(exit))
                        }
                    } else {
                        None
                    }
                },
            },
            _ => None,
        }
    }
}

proof fn natural_shrinks(b: Block, i: int, e: int, l: Text, exit: Option<Text>)
    requires
        0 <= i < e < b.len(),
        deep_stmt(goto_to(l), b[e]) > 0,
    ensures
        NaturalLoop::make(b, i, e, l, exit) matches Some(c) ==> deep(any_goto(), c) < deep(any_goto(), b),
{
    let body = natural_body(b.subrange(i + 1, e + 1), l, exit);
    if !has_jumps(body) {
        let g = any_goto();
        let s = spec_while(ExprV::Bool(true), body);
        let c = spec_splice(b, i, e + 1, only(s));
        no_jumps_no_gotos(body);
        deep_one(g, s);
        deep_splice(g, b, i, e + 1, only(s));
        deep_range(g, b, i, e, e + 1);
        deep_range_one(g, b, e);
        goto_is_any(b[e], l);
        if let Some(x) = exit {
            without_unused_label_gotos(c, x);
        }
    }
}

fn try_natural(b: &Vec<Stmt>, i: usize, e: usize, l: &str, exit: Option<&str>) -> (r: Option<Vec<Stmt>>)
    requires
        i < e < b.len(),
    ensures
        crate::ast::opt_block(r) == NaturalLoop::make(
            block(b@),
            i as int,
            e as int,
            l@,
            crate::conditions::opt_text(exit),
        ),
{
    let body = make_natural_body(range(b, i + 1, e + 1), l, exit);
    if occurs(&LabelOrGoto, &body) {
        return None;
    }
    let c = splice(b, i, e + 1, one(Stmt::While { cond: Expr::Bool(true), body }));
    match exit {
        Some(x) => Some(drop_unused_label(c, x)),
        None => Some(c),
    }
}

/// Turns the remaining backward jumps into endless loops.
pub fn recover_natural_loops(root: &mut Vec<Stmt>)
    ensures
        block(final(root)@) == everywhere(Scan(NaturalLoop), block(old(root)@)),
{
    *root = rewrite_everywhere(&Scan(NaturalLoop), root);
}

// ---- loops tested at the top ---------------------------------------------------------------------

/// The guards and the body of a nest of `if`s that ends by jumping back to `l`.
pub open spec fn back_body(b: Block, l: Text) -> Option<(Option<ExprV>, Block)>
    decreases b,
{
    if b.len() == 1 && b[0] is If && b[0]->else_body.len() == 0 {
        match back_body(b[0]->then_body, l) {
            None => None,
            Some((inner, body)) => Some((Some(and_maybe(b[0]->cond, inner)), body)),
        }
    } else if ends_with_goto(b, l) {
        Some((None, b.drop_last()))
    } else {
        None
    }
}

/// `c and more`, or `c`.
pub open spec fn and_maybe(c: ExprV, more: Option<ExprV>) -> ExprV {
    match more {
        Some(e) => binary("and"@, c, e),
        None => c,
    }
}

/// The condition and the body of the loop that `s`, directly after `::l::`, makes.
pub open spec fn top_test(s: StmtV, l: Text) -> Option<(ExprV, Block)> {
    match s {
        StmtV::If { cond, then_body, else_body } => if else_body.len() > 0 {
            None
        } else {
            match back_body(then_body, l) {
                None => None,
                Some((guard, body)) => Some((and_maybe(cond, guard), body)),
            }
        },
        _ => None,
    }
}

proof fn back_body_jumps(b: Block, l: Text)
    ensures
        back_body(b, l) is Some ==> deep(any_goto(), b) > 0,
    decreases b,
{
    if b.len() == 1 && b[0] is If && b[0]->else_body.len() == 0 {
        back_body_jumps(b[0]->then_body, l);
        deep_member(any_goto(), b, 0);
    } else if ends_with_goto(b, l) {
        assert(deep_stmt(any_goto(), b.last()) == 1);
    }
}

fn opt_and(c: &Expr, more: Option<Expr>) -> (r: Expr)
    ensures
        r@ == and_maybe(c@, crate::ast::opt_expr_view(more)),
{
    match more {
        Some(e) => binary_expr("and", c.clone(), e),
        None => c.clone(),
    }
}

fn loop_back_body(b: &[Stmt], l: &str) -> (r: Option<(Option<Expr>, Vec<Stmt>)>)
    ensures
        match r {
            Some((c, body)) => back_body(block(b@), l@) == Some((crate::ast::opt_expr_view(c), block(body@))),
            None => back_body(block(b@), l@) is None,
        },
    decreases b@,
{
    let n: usize = b.len();
    if n == 1 {
        assert(block(b@)[0] == b@[0]@);
        if let Stmt::If { cond, then_body, else_body } = &b[0] {
            assert(block(else_body@).len() == else_body@.len());
            if else_body.len() == 0 {
                return match loop_back_body(then_body, l) {
                    Some((inner, body)) => Some((Some(opt_and(cond, inner)), body)),
                    None => None,
                };
            }
        }
    }
    if block_ends_with_goto(b, l) {
        let body = copy_range(b, 0, n - 1);
        assert(block(body@) =~= block(b@).drop_last());
        Some((None, body))
    } else {
        None
    }
}

fn top_test_while_body(s: &Stmt, l: &str) -> (r: Option<(Expr, Vec<Stmt>)>)
    ensures
        match r {
            Some((c, body)) => top_test(s@, l@) == Some((c@, block(body@))),
            None => top_test(s@, l@) is None,
        },
{
    match s {
        Stmt::If { cond, then_body, else_body } => {
            assert(block(else_body@).len() == else_body@.len());
            if else_body.len() > 0 {
                return None;
            }
            match loop_back_body(then_body, l) {
                Some((guard, body)) => Some((opt_and(cond, guard), body)),
                None => None,
            }
        },
        _ => None,
    }
}

/// `::L::` followed by nested guards that end by jumping back is a `while` loop.
pub struct TopTest;

impl TopTest {
    /// The label that jumps in `body` leave the loop to, if it stands after position `i`.
    pub open spec fn exit_of(b: Block, i: int, body: Block) -> Option<Text> {
        let names = block_goto_names(body);
        if names.len() == 1 && find_label(b, i, names[0]) is Some && !jumps_from_loop(body, names[0])
            && !has_jumps(replace_gotos(body, names[0], only(StmtV::Break))) {
            Some(names[0])
        } else {
            None
        }
    }
}

impl Rule for TopTest {
    type M = Gotos;

    open spec fn at(&self, b: Block, i: int) -> Option<Block> {
        if i + 1 >= b.len() {
            None
        } else {
            match b[i] {
                StmtV::Label(l) => match top_test(b[i + 1], l) {
                    None => None,
                    Some((cond, body)) => if gotos(b, l) != 1 {
                        None
                    } else if !has_jumps(body) {
                        Some(spec_splice(b, i, i + 2, only(spec_while(cond, body))))
                    } else {
                        match TopTest::exit_of(b, i + 2, body) {
                            None => None,
                            Some(x) => Some(
                                without_unused_label(
                                    spec_splice(
                                        b,
                                        i,
                                        i + 2,
                                        only(spec_while(cond, replace_gotos(body, x, only(StmtV::Break)))),
                                    ),
                                    x,
                                ),
                            ),
                        }
                    },
                },
                _ => None,
            }
        }
    }

    proof fn shrinks_at(&self, b: Block, i: int) {
        if i + 1 < b.len() {
            if let StmtV::Label(l) = b[i] {
                if let Some((cond, body)) = top_test(b[i + 1], l) {
                    let g = any_goto();
                    let s = b[i + 1];
                    back_body_jumps(s->then_body, l);
                    assert(deep_stmt(g, s) > 0);
                    deep_range(g, b, i, i + 1, i + 2);
                    deep_range_one(g, b, i + 1);
                    if !has_jumps(body) {
                        no_jumps_no_gotos(body);
                        deep_one(g, spec_while(cond, body));
                        deep_splice(g, b, i, i + 2, only(spec_while(cond, body)));
                    } else if let Some(x) = TopTest::exit_of(b, i + 2, body) {
                        let new = replace_gotos(body, x, only(StmtV::Break));
                        let t = spec_while(cond, new);
                        no_jumps_no_gotos(new);
                        deep_one(g, t);
                        deep_splice(g, b, i, i + 2, only(t));
                        without_unused_label_gotos(spec_splice(b, i, i + 2, only(t)), x);
                    }
                }
            }
        }
    }

    fn try_at(&self, b: &Vec<Stmt>, i: usize) -> (r: Option<Vec<Stmt>>) {
        let n: usize = b.len();
        if n - i < 2 {
            return None;
        }
        match &b[i] {
            Stmt::Label(l) => match top_test_while_body(&b[i + 1], l) {
                None => None,
                Some((cond, body)) => {
                    if !one_goto(b, l) {
                        return None;
                    }
                    if !occurs(&LabelOrGoto, &body) {
                        return Some(splice(b, i, i + 2, one(Stmt::While { cond, body })));
                    }
                    let names = goto_names_in_block(&body);
                    if names.len() != 1 {
                        return None;
                    }
                    let x = names.get(0);
                    if position_of_label(b, i + 2, x).is_none() || has_goto_in_nested_loop(&body, x) {
                        return None;
                    }
                    let new = with_breaks(&body, x);
                    if occurs(&LabelOrGoto, &new) {
                        return None;
                    }
                    let c = splice(b, i, i + 2, one(Stmt::While { cond, body: new }));
                    Some(drop_unused_label(c, x))
                },
            },
            _ => None,
        }
    }
}

/// Recovers loops that test their condition at the top and jump back.
pub fn recover_top_test_while_gotos(root: &mut Vec<Stmt>)
    ensures
        block(final(root)@) == everywhere(Scan(TopTest), block(old(root)@)),
{
    *root = rewrite_everywhere(&Scan(TopTest), root);
}

// ---- a label and one jump back to it ---------------------------------------------------------------

/// The first position from `i` on at which `goto l` stands, at the top level of `b`.
pub open spec fn find_jump(b: Block, i: int, l: Text) -> Option<int>
    decreases b.len() - i,
{
    if i < 0 || i >= b.len() {
        None
    } else if b[i] == StmtV::Goto(l) {
        Some(i)
    } else {
        find_jump(b, i + 1, l)
    }
}

pub proof fn find_jump_found(b: Block, i: int, l: Text)
    requires
        0 <= i,
    ensures
        find_jump(b, i, l) matches Some(k) ==> i <= k < b.len() && b[k] == StmtV::Goto(l),
    decreases b.len() - i,
{
    if i < b.len() && b[i] != StmtV::Goto(l) {
        find_jump_found(b, i + 1, l);
    }
}

fn position_of_jump(b: &[Stmt], from: usize, l: &str) -> (r: Option<usize>)
    requires
        from <= b.len(),
    ensures
        opt_index(r) == find_jump(block(b@), from as int, l@),
        r matches Some(k) ==> from <= k < b.len(),
{
    let mut i: usize = from;
    while i < b.len()
        invariant
            from <= i <= b.len(),
            find_jump(block(b@), from as int, l@) == find_jump(block(b@), i as int, l@),
        decreases b.len() - i,
    {
        if is_goto_to(&b[i], l) {
            return Some(i);
        }
        i += 1;
    }
    None
}

/// `::L::; body; goto L` becomes `while true do body end`.
pub struct BackwardLoop;

impl Rule for BackwardLoop {
    type M = Gotos;

    open spec fn at(&self, b: Block, i: int) -> Option<Block> {
        match b[i] {
            StmtV::Label(l) => match find_jump(b, i + 1, l) {
                None => None,
                Some(j) => if gotos(b, l) != 1 || j == i + 1 {
                    None
                } else {
                    Some(
                        spec_splice(
                            b,
                            i,
                            j + 1,
                            only(spec_while(ExprV::Bool(true), b.subrange(i + 1, j))),
                        ),
                    )
                },
            },
            _ => None,
        }
    }

    proof fn shrinks_at(&self, b: Block, i: int) {
        if let StmtV::Label(l) = b[i] {
            find_jump_found(b, i + 1, l);
            if let Some(j) = find_jump(b, i + 1, l) {
                let g = any_goto();
                let s = spec_while(ExprV::Bool(true), b.subrange(i + 1, j));
                deep_range(g, b, i, i + 1, j + 1);
                deep_range(g, b, i + 1, j, j + 1);
                deep_range_one(g, b, j);
                deep_splice(g, b, i, j + 1, only(s));
                deep_one(g, s);
            }
        }
    }

    fn try_at(&self, b: &Vec<Stmt>, i: usize) -> (r: Option<Vec<Stmt>>) {
        match &b[i] {
            Stmt::Label(l) => match position_of_jump(b, i + 1, l) {
                None => None,
                Some(j) => {
                    if !one_goto(b, l) || j == i + 1 {
                        return None;
                    }
                    let body = copy_range(b, i + 1, j);
                    Some(splice(b, i, j + 1, one(Stmt::While { cond: Expr::Bool(true), body })))
                },
            },
            _ => None,
        }
    }
}

/// Turns a label with one jump back to it into an endless loop.
pub fn recover_unstructured_backward_loops(root: &mut Vec<Stmt>)
    ensures
        block(final(root)@) == everywhere(Scan(BackwardLoop), block(old(root)@)),
{
    *root = rewrite_everywhere(&Scan(BackwardLoop), root);
}

/// `::L::; if c then goto EXIT end; body; goto L` becomes `while not c do body end`.
pub struct BackwardWhile;

impl Rule for BackwardWhile {
    type M = Gotos;

    open spec fn at(&self, b: Block, i: int) -> Option<Block> {
        match b[i] {
            StmtV::Label(l) => match find_jump(b, i + 1, l) {
                None => None,
                Some(j) => if gotos(b, l) != 1 || j == i + 1 {
                    None
                } else {
                    match cond_goto(b[i + 1], None) {
                        None => None,
                        Some((c, x)) => match find_label(b, 0, x) {
                            None => None,
                            Some(e) => {
                                let body = b.subrange(i + 2, j);
                                if e < j || jumps_from_loop(body, x) {
                                    None
                                } else {
                                    Some(
                                        without_unused_label(
                                            spec_splice(
                                                b,
                                                i,
                                                j + 1,
                                                only(
                                                    spec_while(
                                                        negated(c),
                                                        replace_gotos(body, x, only(StmtV::Break)),
                                                    ),
                                                ),
                                            ),
                                            x,
                                        ),
                                    )
                                }
                            },
                        },
                    }
                },
            },
            _ => None,
        }
    }

    proof fn shrinks_at(&self, b: Block, i: int) {
        if let StmtV::Label(l) = b[i] {
            find_jump_found(b, i + 1, l);
            if let Some(j) = find_jump(b, i + 1, l) {
                if j > i + 1 {
                    cond_goto_jumps(b[i + 1], None);
                    if let Some((c, x)) = cond_goto(b[i + 1], None) {
                        let g = any_goto();
                        let body = b.subrange(i + 2, j);
                        let new = replace_gotos(body, x, only(StmtV::Break));
                        let s = spec_while(negated(c), new);
                        deep_one(g, StmtV::Break);
                        replace_gotos_fewer(body, x, only(StmtV::Break));
                        deep_range(g, b, i, i + 1, j + 1);
                        deep_range(g, b, i + 1, i + 2, j + 1);
                        deep_range(g, b, i + 2, j, j + 1);
                        deep_range_one(g, b, i + 1);
                        deep_splice(g, b, i, j + 1, only(s));
                        deep_one(g, s);
                        without_unused_label_gotos(spec_splice(b, i, j + 1, only(s)), x);
                    }
                }
            }
        }
    }

    fn try_at(&self, b: &Vec<Stmt>, i: usize) -> (r: Option<Vec<Stmt>>) {
        match &b[i] {
            Stmt::Label(l) => match position_of_jump(b, i + 1, l) {
                None => None,
                Some(j) => {
                    if !one_goto(b, l) || j == i + 1 {
                        return None;
                    }
                    match conditional_goto_expr(&b[i + 1], None) {
                        None => None,
                        Some((c, x)) => match position_of_label(b, 0, &x) {
                            None => None,
                            Some(e) => {
                                let body = range(b, i + 2, j);
                                if e < j || has_goto_in_nested_loop(body, &x) {
                                    return None;
                                }
                                let new = with_breaks(body, &x);
                                let s = Stmt::While { cond: negate_condition(&c), body: new };
                                let out = splice(b, i, j + 1, one(s));
                                Some(drop_unused_label(out, &x))
                            },
                        },
                    }
                },
            },
            _ => None,
        }
    }
}

/// `::L::; v = e; if v then body; goto L end` becomes `while e do body end`; names that are
/// `protected`, where that is there, keep their assignments.
pub struct WhileWithLoad<'a> {
    pub protected: Option<&'a NameSet>,
}

/// Whether `n` is in `protected`, where that is there.
pub open spec fn is_protected(protected: Option<&NameSet>, n: Text) -> bool {
    protected matches Some(p) && p@.contains(n)
}

impl<'a> Rule for WhileWithLoad<'a> {
    type M = Gotos;

    open spec fn at(&self, b: Block, i: int) -> Option<Block> {
        if i + 2 >= b.len() {
            None
        } else {
            match (b[i], sole_assign(b[i + 1]), b[i + 2]) {
                (
                    StmtV::Label(l),
                    Some((v, e)),
                    StmtV::If { cond, then_body, else_body },
                ) => if is_protected(self.protected, v) || !ends_with_goto(then_body, l) || else_body.len() > 0 {
                    None
                } else if negand(cond) == Some(ExprV::Var(v)) {
                    Some(spec_splice(b, i, i + 3, only(spec_while(negated(e), then_body.drop_last()))))
                } else if cond == ExprV::Var(v) {
                    Some(spec_splice(b, i, i + 3, only(spec_while(e, then_body.drop_last()))))
                } else {
                    None
                },
                _ => None,
            }
        }
    }

    proof fn shrinks_at(&self, b: Block, i: int) {
        if i + 2 < b.len() {
            if let (StmtV::Label(l), Some((v, e)), StmtV::If { cond, then_body, else_body }) = (
                b[i],
                sole_assign(b[i + 1]),
                b[i + 2],
            ) {
                if ends_with_goto(then_body, l) {
                    let g = any_goto();
                    assert(deep_stmt(g, then_body.last()) == 1);
                    assert(deep_stmt(g, b[i + 2]) == deep(g, then_body) + deep(g, else_body));
                    let s = spec_while(negated(e), then_body.drop_last());
                    let t = spec_while(e, then_body.drop_last());
                    deep_range(g, b, i, i + 2, i + 3);
                    deep_range_one(g, b, i + 2);
                    deep_splice(g, b, i, i + 3, only(s));
                    deep_splice(g, b, i, i + 3, only(t));
                    deep_one(g, s);
                    deep_one(g, t);
                }
            }
        }
    }

    fn try_at(&self, b: &Vec<Stmt>, i: usize) -> (r: Option<Vec<Stmt>>) {
        let n: usize = b.len();
        if n - i < 3 {
            return None;
        }
        let l = match &b[i] {
            Stmt::Label(l) => l,
            _ => {
                return None;
            },
        };
        let (v, e) = match sole_var_assign(&b[i + 1]) {
            Some(x) => x,
            None => {
                return None;
            },
        };
        if let Some(p) = self.protected {
            if p.contains(v) {
                return None;
            }
        }
        match &b[i + 2] {
            Stmt::If { cond, then_body, else_body } => {
                assert(block(else_body@).len() == else_body@.len());
                if !block_ends_with_goto(then_body, l) || else_body.len() > 0 {
                    return None;
                }
                assert(block(then_body@).len() == then_body@.len());
                let body = copy_range(then_body, 0, then_body.len() - 1);
                assert(block(body@) =~= block(then_body@).drop_last());
                let negative = match negand_of(cond) {
                    Some(a) => match as_var(a) {
                        Some(m) => str_eq(m, v),
                        None => false,
                    },
                    None => false,
                };
                let positive = match as_var(cond) {
                    Some(m) => str_eq(m, v),
                    None => false,
                };
                if negative {
                    Some(splice(b, i, i + 3, one(Stmt::While { cond: negate_condition(e), body })))
                } else if positive {
                    Some(splice(b, i, i + 3, one(Stmt::While { cond: e.clone(), body })))
                } else {
                    None
                }
            },
            _ => None,
        }
    }
}

/// The condition and the values, where `s` is `if cond then return values end`.
pub open spec fn return_guard(s: StmtV) -> Option<(ExprV, Seq<ExprV>)> {
    match s {
        StmtV::If { cond, then_body, else_body } => if else_body.len() == 0 && then_body.len() == 1
            && then_body[0] is Return {
            Some((cond, then_body[0]->Return_0))
        } else {
            None
        },
        _ => None,
    }
}

pub fn as_return_guard(s: &Stmt) -> (r: Option<(&Expr, &Vec<Expr>)>)
    ensures
        match r {
            Some((c, vs)) => return_guard(s@) == Some((c@, exprs(vs@))),
            None => return_guard(s@) is None,
        },
{
    match s {
        Stmt::If { cond, then_body, else_body } => {
            assert(block(else_body@).len() == else_body@.len());
            assert(block(then_body@).len() == then_body@.len());
            if else_body.len() == 0 && then_body.len() == 1 {
                assert(block(then_body@)[0] == then_body@[0]@);
                match &then_body[0] {
                    Stmt::Return(vs) => Some((cond, vs)),
                    _ => None,
                }
            } else {
                None
            }
        },
        _ => None,
    }
}

/// Whether `s` returns `vs` under a condition.
pub open spec fn returns_values(s: StmtV, vs: Seq<ExprV>) -> bool {
    return_guard(s) matches Some((_, ws)) && ws == vs
}

/// Where the run of statements that return `vs` under a condition and that ends before `k`
/// begins, not before `lo`.
pub open spec fn guards_start(b: Block, lo: int, k: int, vs: Seq<ExprV>) -> int
    decreases k - lo,
{
    if lo < k <= b.len() && returns_values(b[k - 1], vs) {
        guards_start(b, lo, k - 1, vs)
    } else {
        k
    }
}

pub proof fn guards_start_bounds(b: Block, lo: int, k: int, vs: Seq<ExprV>)
    requires
        lo <= k,
    ensures
        lo <= guards_start(b, lo, k, vs) <= k,
    decreases k - lo,
{
    if lo < k <= b.len() && returns_values(b[k - 1], vs) {
        guards_start_bounds(b, lo, k - 1, vs);
    }
}

/// The conditions of the guards from `lo` up to `hi`.
pub open spec fn return_conds(b: Block, lo: int, hi: int) -> Seq<ExprV> {
    Seq::new((hi - lo) as nat, |m: int| return_guard(b[lo + m])->Some_0.0)
}

/// `::L::; body; if c1 then return v end; ..; goto L` becomes
/// `repeat body until c1 or ..; return v`.
pub struct RepeatReturn;

impl Rule for RepeatReturn {
    type M = Gotos;

    open spec fn at(&self, b: Block, i: int) -> Option<Block> {
        match b[i] {
            StmtV::Label(l) => match find_jump(b, i + 1, l) {
                None => None,
                Some(j) => if gotos(b, l) != 1 || j == i + 1 || return_guard(b[j - 1]) is None {
                    None
                } else {
                    let vs = return_guard(b[j - 1])->Some_0.1;
                    let f = guards_start(b, i + 1, j, vs);
                    let body = b.subrange(i + 1, f);
                    if f <= i + 1 || has_jumps(body) {
                        None
                    } else {
                        Some(
                            spec_splice(
                                b,
                                i,
                                j + 1,
                                seq![
                                    StmtV::Loop {
                                        head: LoopHead::Repeat(or_chain(return_conds(b, f, j))),
                                        body,
                                    },
                                    StmtV::Return(vs),
                                ],
                            ),
                        )
                    }
                },
            },
            _ => None,
        }
    }

    proof fn shrinks_at(&self, b: Block, i: int) {
        if let StmtV::Label(l) = b[i] {
            find_jump_found(b, i + 1, l);
            if let Some(j) = find_jump(b, i + 1, l) {
                if j > i + 1 && return_guard(b[j - 1]) is Some {
                    let vs = return_guard(b[j - 1])->Some_0.1;
                    let f = guards_start(b, i + 1, j, vs);
                    guards_start_bounds(b, i + 1, j, vs);
                    let body = b.subrange(i + 1, f);
                    let g = any_goto();
                    let s = StmtV::Loop { head: LoopHead::Repeat(or_chain(return_conds(b, f, j))), body };
                    let mid = seq![s, StmtV::Return(vs)];
                    deep_range(g, b, i, i + 1, j + 1);
                    deep_range(g, b, i + 1, f, j + 1);
                    deep_range(g, b, f, j, j + 1);
                    deep_range_one(g, b, j);
                    deep_splice(g, b, i, j + 1, mid);
                    assert(mid =~= seq![s].push(StmtV::Return(vs)));
                    deep_push(g, seq![s], StmtV::Return(vs));
                    deep_one(g, s);
                }
            }
        }
    }

    fn try_at(&self, b: &Vec<Stmt>, i: usize) -> (r: Option<Vec<Stmt>>) {
        let l = match &b[i] {
            Stmt::Label(l) => l,
            _ => {
                return None;
            },
        };
        let j: usize = match position_of_jump(b, i + 1, l) {
            Some(j) => j,
            None => {
                return None;
            },
        };
        if !one_goto(b, l) || j == i + 1 {
            return None;
        }
        let vs = match as_return_guard(&b[j - 1]) {
            Some((_, vs)) => vs,
            None => {
                return None;
            },
        };
        let f: usize = start_of_guards(b, i + 1, j, vs);
        if f <= i + 1 || range_has_jumps(b, i + 1, f) {
            return None;
        }
        proof {
            guards_start_bounds(block(b@), i + 1, j - 1, exprs(vs@));
        }
        let conds = conds_of_guards(b, f, j, vs, i + 1);
        assert(exprs(conds@).len() == conds@.len());
        let body = copy_range(b, i + 1, f);
        let mut mid = one(Stmt::Repeat { body, cond: or_all(&conds) });
        let ghost o = mid@;
        mid.push(Stmt::Return(clone_exprs(vs)));
        assert(block(mid@) =~= block(o).push(mid@.last()@));
        assert(block(mid@) =~= seq![block(o)[0], mid@.last()@]);
        Some(splice(b, i, j + 1, mid))
    }
}

fn start_of_guards(b: &[Stmt], lo: usize, hi: usize, vs: &Vec<Expr>) -> (r: usize)
    requires
        lo <= hi <= b.len(),
    ensures
        r == guards_start(block(b@), lo as int, hi as int, exprs(vs@)),
        lo <= r <= hi,
{
    let mut k: usize = hi;
    while k > lo
        invariant
            lo <= k <= hi <= b.len(),
            guards_start(block(b@), lo as int, hi as int, exprs(vs@)) == guards_start(
                block(b@),
                lo as int,
                k as int,
                exprs(vs@),
            ),
        decreases k,
    {
        match as_return_guard(&b[k - 1]) {
            Some((_, ws)) => {
                if !exprs_eq(ws, vs) {
                    return k;
                }
            },
            None => {
                return k;
            },
        }
        k -= 1;
    }
    k
}

/// Every statement of the run is a guard.
pub proof fn guards_start_are_guards(b: Block, lo: int, k: int, vs: Seq<ExprV>, m: int)
    requires
        guards_start(b, lo, k, vs) <= m < k,
        lo <= k,
    ensures
        return_guard(b[m]) is Some,
    decreases k - lo,
{
    if lo < k <= b.len() && returns_values(b[k - 1], vs) {
        if m < k - 1 {
            guards_start_are_guards(b, lo, k - 1, vs, m);
        }
    }
}

fn conds_of_guards(b: &[Stmt], f: usize, j: usize, vs: &Vec<Expr>, lo: usize) -> (r: Vec<Expr>)
    requires
        lo <= f <= j <= b.len(),
        f == guards_start(block(b@), lo as int, j as int, exprs(vs@)),
    ensures
        exprs(r@) == return_conds(block(b@), f as int, j as int),
{
    let mut out: Vec<Expr> = Vec::new();
    let mut m: usize = f;
    assert(exprs(out@) =~= return_conds(block(b@), f as int, m as int));
    while m < j
        invariant
            lo <= f <= m <= j <= b.len(),
            f == guards_start(block(b@), lo as int, j as int, exprs(vs@)),
            exprs(out@) == return_conds(block(b@), f as int, m as int),
        decreases j - m,
    {
        proof {
            guards_start_are_guards(block(b@), lo as int, j as int, exprs(vs@), m as int);
        }
        if let Some((c, _)) = as_return_guard(&b[m]) {
            let ghost o = out@;
            out.push(c.clone());
            assert(exprs(out@) =~= exprs(o).push(c@));
            assert(return_conds(block(b@), f as int, m + 1) =~= return_conds(block(b@), f as int, m as int).push(
                return_guard(block(b@)[m as int])->Some_0.0,
            ));
        }
        m += 1;
    }
    out
}

/// The three ways to recover such a loop, in the order in which they are tried.
pub type BackwardLoops<'a> = Either<Either<Scan<BackwardWhile>, Scan<WhileWithLoad<'a>>>, Scan<RepeatReturn>>;

/// The three ways, where names that are `protected` keep their assignments.
pub open spec fn backward_loops<'a>(protected: Option<&'a NameSet>) -> BackwardLoops<'a> {
    Either(Either(Scan(BackwardWhile), Scan(WhileWithLoad { protected })), Scan(RepeatReturn))
}

/// Recovers loops that jump back from their end, and test on the way.
pub fn recover_backward_goto_while(root: &mut Vec<Stmt>)
    ensures
        block(final(root)@) == everywhere(backward_loops(None), block(old(root)@)),
{
    *root = rewrite_everywhere(
        &Either(Either(Scan(BackwardWhile), Scan(WhileWithLoad { protected: None })), Scan(RepeatReturn)),
        root,
    );
}

/// Recovers loops that jump back from their end, and test on the way. Assignments to `protected`
/// names stay.
pub fn recover_backward_loops(root: &mut Vec<Stmt>, protected: &NameSet)
    ensures
        block(final(root)@) == everywhere(backward_loops(Some(protected)), block(old(root)@)),
{
    *root = rewrite_everywhere(
        &Either(Either(Scan(BackwardWhile), Scan(WhileWithLoad { protected: Some(protected) })), Scan(RepeatReturn)),
        root,
    );
}

} // verus!
