//! Replacing jumps, and what stands before them.
use vstd::prelude::*;

use crate::ast::{
    block, clone_block, concat, is_goto_to, loop_body, one, with_loop_body, Block, Expr, ExprV, Stmt, StmtV,
};
use crate::query::{any_goto, goto_to, gotos, has_goto, one_if};
use crate::text::{str_eq, Text};
use crate::weight::{deep, deep_concat, deep_one, deep_stmt, Weigh};

verus! {

// ---- replacing jumps -----------------------------------------------------------------------

/// `b` with every jump to `l` replaced by the statements `body`.
pub open spec fn replace_gotos(b: Block, l: Text, body: Block) -> Block
    decreases b,
{
    if b.len() == 0 {
        Seq::empty()
    } else {
        replace_gotos(b.drop_last(), l, body) + replace_gotos_stmt(b.last(), l, body)
    }
}

pub open spec fn replace_gotos_stmt(s: StmtV, l: Text, body: Block) -> Block
    decreases s,
{
    match s {
        StmtV::Goto(m) => if m == l {
            body
        } else {
            seq![s]
        },
        StmtV::If { cond, then_body, else_body } => seq![
            StmtV::If {
                cond,
                then_body: replace_gotos(then_body, l, body),
                else_body: replace_gotos(else_body, l, body),
            },
        ],
        StmtV::Loop { head, body: inner } => seq![
            StmtV::Loop { head, body: replace_gotos(inner, l, body) },
        ],
        _ => seq![s],
    }
}

/// A weight that statements with a body of their own do not have.
pub open spec fn leaf_weight(w: spec_fn(StmtV) -> nat) -> bool {
    forall|s: StmtV| s is If || s is Loop ==> #[trigger] w(s) == 0
}

/// Replacing jumps of weight 1 by something that weighs nothing takes their number off.
pub proof fn replace_gotos_weight(w: spec_fn(StmtV) -> nat, b: Block, l: Text, body: Block)
    requires
        leaf_weight(w),
        w(StmtV::Goto(l)) == 1,
        deep(w, body) == 0,
    ensures
        deep(w, replace_gotos(b, l, body)) + gotos(b, l) == deep(w, b),
    decreases b,
{
    if b.len() > 0 {
        replace_gotos_weight(w, b.drop_last(), l, body);
        replace_gotos_stmt_weight(w, b.last(), l, body);
        deep_concat(w, replace_gotos(b.drop_last(), l, body), replace_gotos_stmt(b.last(), l, body));
    }
}

pub proof fn replace_gotos_stmt_weight(w: spec_fn(StmtV) -> nat, s: StmtV, l: Text, body: Block)
    requires
        leaf_weight(w),
        w(StmtV::Goto(l)) == 1,
        deep(w, body) == 0,
    ensures
        deep(w, replace_gotos_stmt(s, l, body)) + deep_stmt(goto_to(l), s) == deep_stmt(w, s),
    decreases s,
{
    match s {
        StmtV::Goto(m) => {
            if m != l {
                deep_one(w, s);
            }
        },
        StmtV::If { cond, then_body, else_body } => {
            replace_gotos_weight(w, then_body, l, body);
            replace_gotos_weight(w, else_body, l, body);
            let t = StmtV::If {
                cond,
                then_body: replace_gotos(then_body, l, body),
                else_body: replace_gotos(else_body, l, body),
            };
            deep_one(w, t);
            assert(w(t) == 0 && w(s) == 0);
        },
        StmtV::Loop { head, body: inner } => {
            replace_gotos_weight(w, inner, l, body);
            let t = StmtV::Loop { head, body: replace_gotos(inner, l, body) };
            deep_one(w, t);
            assert(w(t) == 0 && w(s) == 0);
        },
        _ => {
            deep_one(w, s);
        },
    }
}

/// Replacing jumps by something of the same weight keeps the sum.
pub proof fn replace_gotos_keeps(w: spec_fn(StmtV) -> nat, b: Block, l: Text, body: Block)
    requires
        leaf_weight(w),
        deep(w, body) == w(StmtV::Goto(l)),
    ensures
        deep(w, replace_gotos(b, l, body)) == deep(w, b),
    decreases b,
{
    if b.len() > 0 {
        replace_gotos_keeps(w, b.drop_last(), l, body);
        replace_gotos_stmt_keeps(w, b.last(), l, body);
        deep_concat(w, replace_gotos(b.drop_last(), l, body), replace_gotos_stmt(b.last(), l, body));
    }
}

pub proof fn replace_gotos_stmt_keeps(w: spec_fn(StmtV) -> nat, s: StmtV, l: Text, body: Block)
    requires
        leaf_weight(w),
        deep(w, body) == w(StmtV::Goto(l)),
    ensures
        deep(w, replace_gotos_stmt(s, l, body)) == deep_stmt(w, s),
    decreases s,
{
    match s {
        StmtV::Goto(m) => {
            if m != l {
                deep_one(w, s);
            }
        },
        StmtV::If { cond, then_body, else_body } => {
            replace_gotos_keeps(w, then_body, l, body);
            replace_gotos_keeps(w, else_body, l, body);
            let t = StmtV::If {
                cond,
                then_body: replace_gotos(then_body, l, body),
                else_body: replace_gotos(else_body, l, body),
            };
            deep_one(w, t);
            assert(w(t) == 0 && w(s) == 0);
        },
        StmtV::Loop { head, body: inner } => {
            replace_gotos_keeps(w, inner, l, body);
            let t = StmtV::Loop { head, body: replace_gotos(inner, l, body) };
            deep_one(w, t);
            assert(w(t) == 0 && w(s) == 0);
        },
        _ => {
            deep_one(w, s);
        },
    }
}

/// Replacing the jumps to a label leaves fewer jumps, if the replacement holds none.
pub proof fn replace_gotos_fewer(b: Block, l: Text, body: Block)
    requires
        deep(any_goto(), body) == 0,
    ensures
        deep(any_goto(), replace_gotos(b, l, body)) + gotos(b, l) == deep(any_goto(), b),
{
    assert forall|s: StmtV| s is If || s is Loop implies #[trigger] any_goto()(s) == 0 by {}
    replace_gotos_weight(any_goto(), b, l, body);
}

/// No jump to the label is left, if the replacement holds none.
pub proof fn replace_gotos_none_left(b: Block, l: Text, body: Block)
    requires
        gotos(body, l) == 0,
    ensures
        gotos(replace_gotos(b, l, body), l) == 0,
{
    assert forall|s: StmtV| s is If || s is Loop implies #[trigger] goto_to(l)(s) == 0 by {}
    replace_gotos_weight(goto_to(l), b, l, body);
}

/// Where nothing jumps to the label, nothing is replaced.
pub proof fn replace_gotos_same(b: Block, l: Text, body: Block)
    requires
        gotos(b, l) == 0,
    ensures
        replace_gotos(b, l, body) == b,
    decreases b,
{
    if b.len() > 0 {
        replace_gotos_same(b.drop_last(), l, body);
        let s = b.last();
        assert(deep_stmt(goto_to(l), s) == 0);
        match s {
            StmtV::If { cond, then_body, else_body } => {
                replace_gotos_same(then_body, l, body);
                replace_gotos_same(else_body, l, body);
            },
            StmtV::Loop { head, body: inner } => {
                replace_gotos_same(inner, l, body);
            },
            _ => {},
        }
        assert(replace_gotos_stmt(s, l, body) =~= seq![s]);
        assert(b =~= b.drop_last() + seq![s]);
    } else {
        assert(replace_gotos(b, l, body) =~= b);
    }
}

/// The block that holds only `s`.
pub open spec fn only(s: StmtV) -> Block {
    seq![s]
}

/// A copy of `b` with every jump to `l` replaced by the statements `body`.
pub fn with_gotos_replaced(b: &[Stmt], l: &str, body: &[Stmt]) -> (r: Vec<Stmt>)
    ensures
        block(r@) == replace_gotos(block(b@), l@, block(body@)),
    decreases b@,
{
    let ghost v = block(b@);
    let mut out: Vec<Stmt> = Vec::new();
    let mut i: usize = 0;
    assert(block(out@) =~= replace_gotos(v.take(0), l@, block(body@)));
    while i < b.len()
        invariant
            i <= b.len(),
            v == block(b@),
            block(out@) == replace_gotos(v.take(i as int), l@, block(body@)),
        decreases b.len() - i,
    {
        proof {
            let t = v.take(i + 1);
            assert(t.drop_last() =~= v.take(i as int));
            assert(t.last() == v[i as int]);
        }
        let part = with_stmt_gotos_replaced(&b[i], l, body);
        out = concat(out, part);
        i += 1;
    }
    assert(v.take(i as int) =~= v);
    out
}

pub fn with_stmt_gotos_replaced(s: &Stmt, l: &str, body: &[Stmt]) -> (r: Vec<Stmt>)
    ensures
        block(r@) == replace_gotos_stmt(s@, l@, block(body@)),
    decreases s,
{
    if is_goto_to(s, l) {
        return clone_block(body);
    }
    if let Stmt::If { cond, then_body, else_body } = s {
        one(
            Stmt::If {
                cond: cond.clone(),
                then_body: with_gotos_replaced(then_body, l, body),
                else_body: with_gotos_replaced(else_body, l, body),
            },
        )
    } else {
        match loop_body(s) {
            Some(inner) => {
                let b = with_gotos_replaced(inner, l, body);
                one(with_loop_body(s, b))
            },
            None => one(s.clone()),
        }
    }
}

/// A copy of `b` in which the jumps to `l` leave the surrounding loop.
pub fn with_breaks(b: &[Stmt], l: &str) -> (r: Vec<Stmt>)
    ensures
        block(r@) == replace_gotos(block(b@), l@, only(StmtV::Break)),
{
    let body = one(Stmt::Break);
    with_gotos_replaced(b, l, &body)
}

/// A copy of `b` in which the jumps to `l` start the next round of the surrounding loop.
pub fn with_continues(b: &[Stmt], l: &str) -> (r: Vec<Stmt>)
    ensures
        block(r@) == replace_gotos(block(b@), l@, only(StmtV::Continue)),
{
    let body = one(Stmt::Continue);
    with_gotos_replaced(b, l, &body)
}

/// The loop `s`, with the jumps to `l` out of its body turned into `break`.
pub open spec fn broken_loop(s: StmtV, l: Text) -> StmtV {
    StmtV::Loop { head: s->head, body: replace_gotos(s->Loop_body, l, only(StmtV::Break)) }
}

/// A copy of the loop `s`, with the jumps to `l` out of its body turned into `break`.
pub fn break_loop(s: &Stmt, l: &str) -> (r: Stmt)
    requires
        s@ is Loop,
    ensures
        r@ == broken_loop(s@, l@),
{
    match loop_body(s) {
        Some(body) => {
            let b = with_breaks(body, l);
            with_loop_body(s, b)
        },
        None => s.clone(),
    }
}

/// Turning jumps into `break` leaves fewer jumps.
pub proof fn broken_loop_fewer(s: StmtV, l: Text)
    requires
        s is Loop,
    ensures
        deep_stmt(any_goto(), broken_loop(s, l)) + deep_stmt(goto_to(l), s) == deep_stmt(any_goto(), s),
{
    deep_one(any_goto(), StmtV::Break);
    replace_gotos_fewer(s->Loop_body, l, only(StmtV::Break));
}

// ---- jumps out of nested loops ---------------------------------------------------------------

/// Weighs every loop from whose body something jumps to `l`.
pub open spec fn loop_jumping_to(l: Text) -> spec_fn(StmtV) -> nat {
    |s: StmtV| match s {
        StmtV::Loop { body, .. } => one_if(gotos(body, l) > 0),
        _ => 0,
    }
}

/// Whether a jump to `l` stands inside a loop in `b`.
pub open spec fn jumps_from_loop(b: Block, l: Text) -> bool {
    deep(loop_jumping_to(l), b) > 0
}

/// Finds loops from whose body something jumps to the label.
pub struct LoopJumpingTo<'a> {
    pub label: &'a str,
}

impl<'a> Weigh for LoopJumpingTo<'a> {
    open spec fn weight(&self) -> spec_fn(StmtV) -> nat {
        loop_jumping_to(self.label@)
    }

    fn weigh(&self, s: &Stmt, cap: usize) -> (r: usize) {
        match loop_body(s) {
            Some(body) => if cap > 0 && has_goto(body, self.label) {
                1
            } else {
                0
            },
            None => 0,
        }
    }
}

/// Whether a jump to the label stands inside a loop in `b`.
pub fn has_goto_in_nested_loop(b: &[Stmt], label: &str) -> (r: bool)
    ensures
        r == jumps_from_loop(block(b@), label@),
{
    crate::weight::occurs(&LoopJumpingTo { label }, b)
}

// ---- what stands before a jump ---------------------------------------------------------------

/// `(name, value)` where `s` is `name = value` or `local name = value`.
pub open spec fn sole_assign(s: StmtV) -> Option<(Text, ExprV)> {
    match s {
        StmtV::Assign { targets, values } => if targets.len() == 1 && values.len() == 1 {
            match targets[0] {
                ExprV::Var(n) => Some((n, values[0])),
                _ => None,
            }
        } else {
            None
        },
        StmtV::Local { names, values } => if names.len() == 1 && values.len() == 1 {
            Some((names[0], values[0]))
        } else {
            None
        },
        _ => None,
    }
}

/// The model of an optional assignment.
pub open spec fn opt_assign(r: Option<(&String, &Expr)>) -> Option<(Text, ExprV)> {
    match r {
        Some((n, e)) => Some((n@, e@)),
        None => None,
    }
}

/// `(name, value)` where `s` is `name = value` or `local name = value`.
pub fn sole_var_assign(s: &Stmt) -> (r: Option<(&String, &Expr)>)
    ensures
        opt_assign(r) == sole_assign(s@),
{
    match s {
        Stmt::Assign { targets, values } => {
            if targets.len() == 1 && values.len() == 1 {
                match &targets[0] {
                    Expr::Var(n) => Some((n, &values[0])),
                    _ => None,
                }
            } else {
                None
            }
        },
        Stmt::Local { names, values } => {
            if names.len() == 1 && values.len() == 1 {
                Some((&names[0], &values[0]))
            } else {
                None
            }
        },
        _ => None,
    }
}

/// Whether control never runs past the end of `b`.
pub open spec fn terminated(b: Block) -> bool {
    b.len() > 0 && match b.last() {
        StmtV::Return(_) => true,
        StmtV::Break => true,
        StmtV::Continue => true,
        StmtV::Goto(_) => true,
        _ => false,
    }
}

/// Whether control never runs past the end of `b`.
pub fn block_ends_terminated(b: &[Stmt]) -> (r: bool)
    ensures
        r == terminated(block(b@)),
{
    if b.len() == 0 {
        return false;
    }
    assert(block(b@).last() == b@[b@.len() - 1]@);
    match &b[b.len() - 1] {
        Stmt::Return(_) => true,
        Stmt::Break => true,
        Stmt::Continue => true,
        Stmt::Goto(_) => true,
        _ => false,
    }
}

/// Without labels and jumps there are no jumps.
pub proof fn no_jumps_no_gotos(b: Block)
    requires
        !crate::query::has_jumps(b),
    ensures
        deep(any_goto(), b) == 0,
{
    crate::weight::deep_le(any_goto(), crate::query::label_or_goto(), b);
}

/// Whether directly before every jump to `l` stands a statement for which `p` holds.
pub open spec fn each_goto_after(b: Block, l: Text, p: spec_fn(StmtV) -> bool) -> bool
    decreases b,
{
    forall|i: int| #![trigger b[i]]
        0 <= i < b.len() ==> {
            &&& (b[i] == StmtV::Goto(l) ==> i > 0 && p(b[i - 1]))
            &&& stmt_gotos_after(b[i], l, p)
        }
}

pub open spec fn stmt_gotos_after(s: StmtV, l: Text, p: spec_fn(StmtV) -> bool) -> bool
    decreases s,
{
    match s {
        StmtV::If { then_body, else_body, .. } => each_goto_after(then_body, l, p) && each_goto_after(
            else_body,
            l,
            p,
        ),
        StmtV::Loop { body, .. } => each_goto_after(body, l, p),
        _ => true,
    }
}

/// A test of one statement.
pub trait Test {
    spec fn pred(&self) -> spec_fn(StmtV) -> bool;

    fn test(&self, s: &Stmt) -> (r: bool)
        ensures
            r == (self.pred())(s@),
    ;
}

/// Whether directly before every jump to `l` stands a statement that passes the test.
pub fn all_gotos_after<T: Test>(b: &[Stmt], l: &str, t: &T) -> (r: bool)
    ensures
        r == each_goto_after(block(b@), l@, t.pred()),
    decreases b@,
{
    let ghost v = block(b@);
    let mut i: usize = 0;
    while i < b.len()
        invariant
            i <= b.len(),
            v == block(b@),
            forall|j: int| #![trigger v[j]]
                0 <= j < i ==> {
                    &&& (v[j] == StmtV::Goto(l@) ==> j > 0 && (t.pred())(v[j - 1]))
                    &&& stmt_gotos_after(v[j], l@, t.pred())
                },
        decreases b.len() - i,
    {
        assert(v[i as int] == b@[i as int]@);
        if is_goto_to(&b[i], l) {
            if i == 0 {
                return false;
            }
            assert(v[i - 1] == b@[i - 1]@);
            if !t.test(&b[i - 1]) {
                return false;
            }
        }
        if !all_stmt_gotos_after(&b[i], l, t) {
            return false;
        }
        i += 1;
    }
    true
}

fn all_stmt_gotos_after<T: Test>(s: &Stmt, l: &str, t: &T) -> (r: bool)
    ensures
        r == stmt_gotos_after(s@, l@, t.pred()),
    decreases s,
{
    if let Stmt::If { then_body, else_body, .. } = s {
        all_gotos_after(then_body, l, t) && all_gotos_after(else_body, l, t)
    } else {
        match loop_body(s) {
            Some(body) => all_gotos_after(body, l, t),
            None => true,
        }
    }
}

/// Whether the statement assigns to `var`.
pub open spec fn assigns_to(var: Text) -> spec_fn(StmtV) -> bool {
    |s: StmtV| sole_assign(s) matches Some((n, _)) && n == var
}

/// Whether the statement assigns the constant `value` to `var`.
pub open spec fn assigns_bool(var: Text, value: bool) -> spec_fn(StmtV) -> bool {
    |s: StmtV| sole_assign(s) matches Some((n, e)) && n == var && e == ExprV::Bool(value)
}

pub struct AssignsTo<'a> {
    pub var: &'a str,
}

impl<'a> Test for AssignsTo<'a> {
    open spec fn pred(&self) -> spec_fn(StmtV) -> bool {
        assigns_to(self.var@)
    }

    fn test(&self, s: &Stmt) -> (r: bool) {
        match sole_var_assign(s) {
            Some((n, _)) => str_eq(n, self.var),
            None => false,
        }
    }
}

pub struct AssignsBool<'a> {
    pub var: &'a str,
    pub value: bool,
}

impl<'a> Test for AssignsBool<'a> {
    open spec fn pred(&self) -> spec_fn(StmtV) -> bool {
        assigns_bool(self.var@, self.value)
    }

    fn test(&self, s: &Stmt) -> (r: bool) {
        match sole_var_assign(s) {
            Some((n, e)) => match e {
                Expr::Bool(v) => str_eq(n, self.var) && *v == self.value,
                _ => false,
            },
            None => false,
        }
    }
}

/// Whether something in `b` jumps to `l`, and only directly after an assignment to `var`.
pub open spec fn found_by_assign(b: Block, l: Text, var: Text) -> bool {
    gotos(b, l) > 0 && each_goto_after(b, l, assigns_to(var))
}

/// Whether something in `b` jumps to `l`, and only directly after `var = value`.
pub open spec fn found_by_bool(b: Block, l: Text, var: Text, value: bool) -> bool {
    gotos(b, l) > 0 && each_goto_after(b, l, assigns_bool(var, value))
}

pub fn all_gotos_preceded_by_assign_to(b: &[Stmt], l: &str, var: &str) -> (r: bool)
    ensures
        r == found_by_assign(block(b@), l@, var@),
{
    has_goto(b, l) && all_gotos_after(b, l, &AssignsTo { var })
}

pub fn all_gotos_preceded_by_bool_assign(b: &[Stmt], l: &str, var: &str, value: bool) -> (r: bool)
    ensures
        r == found_by_bool(block(b@), l@, var@, value),
{
    has_goto(b, l) && all_gotos_after(b, l, &AssignsBool { var, value })
}

} // verus!
