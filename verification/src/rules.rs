//! Rewriting to a fixed point.
//!
//! A [`Step`] rewrites a block once, if it can, and makes a measure smaller. `everywhere`
//! first settles the nested blocks and then repeats the step until it no longer applies.
use vstd::prelude::*;

use crate::ast::{block, clone_block, loop_body, opt_block, with_loop_body, Block, Stmt, StmtV};
use crate::query::{
    any_goto, block_goto_names, goto_names, goto_names_in_block, goto_names_in_stmt, has_label, label_names,
    label_names_in_block, labels,
};
use crate::text::Text;
use crate::weight::{deep, deep_member, deep_stmt};

verus! {

/// What a rewriting step makes smaller.
pub trait Measure {
    spec fn of(b: Block) -> nat;
}

/// The number of jumps.
pub struct Gotos;

impl Measure for Gotos {
    open spec fn of(b: Block) -> nat {
        deep(any_goto(), b)
    }
}

/// One rewriting step on a block.
pub trait Step: Sized {
    type M: Measure;

    /// The block after one step, or `None` where the step does not apply.
    spec fn step(&self, b: Block) -> Option<Block>;

    /// Every step makes the measure smaller.
    proof fn shrinks(&self, b: Block)
        ensures
            self.step(b) matches Some(c) ==> <Self::M as Measure>::of(c) < <Self::M as Measure>::of(b),
    ;

    fn try_step(&self, b: &Vec<Stmt>) -> (r: Option<Vec<Stmt>>)
        ensures
            opt_block(r) == self.step(block(b@)),
    ;
}

/// The block on which no further step applies.
pub open spec fn fixpoint<S: Step>(p: S, b: Block) -> Block
    decreases <S::M as Measure>::of(b),
{
    match p.step(b) {
        Some(c) => if <S::M as Measure>::of(c) < <S::M as Measure>::of(b) {
            fixpoint(p, c)
        } else {
            c
        },
        None => b,
    }
}

/// Settles the nested blocks of `b`, then `b` itself.
pub open spec fn everywhere<S: Step>(p: S, b: Block) -> Block
    decreases b, 1nat,
{
    fixpoint(p, inside(p, b))
}

/// Settles the nested blocks of `b`.
pub open spec fn inside<S: Step>(p: S, b: Block) -> Block
    decreases b, 0nat,
{
    Seq::new(b.len(), |i: int| if 0 <= i < b.len() { inside_stmt(p, b[i]) } else { StmtV::Break })
}

/// Settles the nested blocks of `s`.
pub open spec fn inside_stmt<S: Step>(p: S, s: StmtV) -> StmtV
    decreases s, 0nat,
{
    match s {
        StmtV::If { cond, then_body, else_body } => StmtV::If {
            cond,
            then_body: everywhere(p, then_body),
            else_body: everywhere(p, else_body),
        },
        StmtV::Loop { head, body } => StmtV::Loop { head, body: everywhere(p, body) },
        _ => s,
    }
}

/// A fixed point is settled: the step does not apply to it.
pub proof fn fixpoint_settles<S: Step>(p: S, b: Block)
    ensures
        p.step(fixpoint(p, b)) is None,
    decreases <S::M as Measure>::of(b),
{
    p.shrinks(b);
    match p.step(b) {
        Some(c) => {
            fixpoint_settles(p, c);
        },
        None => {},
    }
}

/// Settling a settled block changes nothing.
pub proof fn fixpoint_idempotent<S: Step>(p: S, b: Block)
    ensures
        fixpoint(p, fixpoint(p, b)) == fixpoint(p, b),
{
    fixpoint_settles(p, b);
}

/// Rewriting never makes the measure larger.
pub proof fn fixpoint_never_grows<S: Step>(p: S, b: Block)
    ensures
        <S::M as Measure>::of(fixpoint(p, b)) <= <S::M as Measure>::of(b),
    decreases <S::M as Measure>::of(b),
{
    p.shrinks(b);
    match p.step(b) {
        Some(c) => {
            fixpoint_never_grows(p, c);
        },
        None => {},
    }
}

/// What `everywhere` returns is settled.
pub proof fn everywhere_settles<S: Step>(p: S, b: Block)
    ensures
        p.step(everywhere(p, b)) is None,
{
    fixpoint_settles(p, inside(p, b));
}

/// Recovering structure everywhere never adds a jump.
pub proof fn everywhere_adds_no_jump<S: Step<M = Gotos>>(p: S, b: Block)
    ensures
        deep(any_goto(), everywhere(p, b)) <= deep(any_goto(), b),
    decreases b, 1nat, 0int,
{
    let c = inside(p, b);
    inside_adds_no_jump(p, b, b.len() as int);
    fixpoint_never_grows(p, c);
    assert(c.take(b.len() as int) =~= c);
    assert(b.take(b.len() as int) =~= b);
}

proof fn inside_adds_no_jump<S: Step<M = Gotos>>(p: S, b: Block, k: int)
    requires
        0 <= k <= b.len(),
    ensures
        deep(any_goto(), inside(p, b).take(k)) <= deep(any_goto(), b.take(k)),
    decreases b, 0nat, k,
{
    let c = inside(p, b);
    if k > 0 {
        inside_adds_no_jump(p, b, k - 1);
        inside_stmt_adds_no_jump(p, b[k - 1]);
        assert(c.take(k).drop_last() =~= c.take(k - 1));
        assert(b.take(k).drop_last() =~= b.take(k - 1));
        assert(c.take(k).last() == c[k - 1]);
        assert(b.take(k).last() == b[k - 1]);
    } else {
        assert(c.take(0) =~= b.take(0));
    }
}

proof fn inside_stmt_adds_no_jump<S: Step<M = Gotos>>(p: S, s: StmtV)
    ensures
        deep_stmt(any_goto(), inside_stmt(p, s)) <= deep_stmt(any_goto(), s),
    decreases s, 0nat, 0int,
{
    match s {
        StmtV::If { then_body, else_body, .. } => {
            everywhere_adds_no_jump(p, then_body);
            everywhere_adds_no_jump(p, else_body);
        },
        StmtV::Loop { body, .. } => {
            everywhere_adds_no_jump(p, body);
        },
        _ => {},
    }
}

/// Steps that always do the same settle to the same block.
pub proof fn fixpoint_same<S: Step>(p: S, q: S, b: Block)
    requires
        forall|c: Block| #[trigger] p.step(c) == q.step(c),
    ensures
        fixpoint(p, b) == fixpoint(q, b),
    decreases <S::M as Measure>::of(b),
{
    p.shrinks(b);
    assert(p.step(b) == q.step(b));
    if let Some(c) = p.step(b) {
        fixpoint_same(p, q, c);
    }
}

pub proof fn everywhere_same<S: Step>(p: S, q: S, b: Block)
    requires
        forall|c: Block| #[trigger] p.step(c) == q.step(c),
    ensures
        everywhere(p, b) == everywhere(q, b),
    decreases b, 1nat,
{
    assert forall|i: int| 0 <= i < b.len() implies inside_stmt(p, #[trigger] b[i]) == inside_stmt(q, b[i]) by {
        inside_stmt_same(p, q, b[i]);
    }
    assert(inside(p, b) =~= inside(q, b));
    fixpoint_same(p, q, inside(p, b));
}

proof fn inside_stmt_same<S: Step>(p: S, q: S, s: StmtV)
    requires
        forall|c: Block| #[trigger] p.step(c) == q.step(c),
    ensures
        inside_stmt(p, s) == inside_stmt(q, s),
    decreases s, 0nat,
{
    match s {
        StmtV::If { then_body, else_body, .. } => {
            everywhere_same(p, q, then_body);
            everywhere_same(p, q, else_body);
        },
        StmtV::Loop { body, .. } => {
            everywhere_same(p, q, body);
        },
        _ => {},
    }
}

/// A tree whose model is `b`.
pub open spec fn tree_of(b: Block) -> Vec<Stmt> {
    choose|v: Vec<Stmt>| #[trigger] block(v@) == b
}

/// A tree and what [`tree_of`] gives for its model have one model.
pub proof fn tree_of_model(v: Vec<Stmt>)
    ensures
        block(tree_of(block(v@))@) == block(v@),
{
}

proof fn first_from_same<R: Rule>(p: R, q: R, b: Block, i: int)
    requires
        forall|c: Block, k: int| #[trigger] p.at(c, k) == q.at(c, k),
    ensures
        first_from(p, b, i) == first_from(q, b, i),
    decreases b.len() - i,
{
    if 0 <= i < b.len() {
        assert(p.at(b, i) == q.at(b, i));
        first_from_same(p, q, b, i + 1);
    }
}

/// Scans with rules that always do the same do the same.
pub proof fn scan_same<R: Rule>(p: R, q: R)
    requires
        forall|c: Block, k: int| #[trigger] p.at(c, k) == q.at(c, k),
    ensures
        forall|c: Block| #[trigger] Scan(p).step(c) == Scan(q).step(c),
{
    assert forall|c: Block| #[trigger] Scan(p).step(c) == Scan(q).step(c) by {
        first_from_same(p, q, c, 0);
    }
}

proof fn last_before_same<R: Rule>(p: R, q: R, b: Block, i: int)
    requires
        forall|c: Block, k: int| #[trigger] p.at(c, k) == q.at(c, k),
    ensures
        last_before(p, b, i) == last_before(q, b, i),
    decreases i,
{
    if 0 < i <= b.len() {
        assert(p.at(b, i - 1) == q.at(b, i - 1));
        last_before_same(p, q, b, i - 1);
    }
}

/// Scans from the end with rules that always do the same do the same.
pub proof fn scan_back_same<R: Rule>(p: R, q: R)
    requires
        forall|c: Block, k: int| #[trigger] p.at(c, k) == q.at(c, k),
    ensures
        forall|c: Block| #[trigger] ScanBack(p).step(c) == ScanBack(q).step(c),
{
    assert forall|c: Block| #[trigger] ScanBack(p).step(c) == ScanBack(q).step(c) by {
        last_before_same(p, q, c, c.len() as int);
    }
}

proof fn first_label_same<R: LabelRule>(p: R, q: R, b: Block, i: int, ls: Seq<Text>, k: int)
    requires
        forall|c: Block, j: int, l: Text| #[trigger] p.at_label(c, j, l) == q.at_label(c, j, l),
    ensures
        first_label(p, b, i, ls, k) == first_label(q, b, i, ls, k),
    decreases ls.len() - k,
{
    if 0 <= k < ls.len() {
        assert(p.at_label(b, i, ls[k]) == q.at_label(b, i, ls[k]));
        first_label_same(p, q, b, i, ls, k + 1);
    }
}

/// Rules for labels that always do the same do the same when they try every label.
pub proof fn per_label_same<R: LabelRule>(p: R, q: R)
    requires
        forall|c: Block, j: int, l: Text| #[trigger] p.at_label(c, j, l) == q.at_label(c, j, l),
    ensures
        forall|c: Block, k: int| #[trigger] PerLabel(p).at(c, k) == PerLabel(q).at(c, k),
{
    assert forall|c: Block, k: int| #[trigger] PerLabel(p).at(c, k) == PerLabel(q).at(c, k) by {
        first_label_same(p, q, c, k, goto_names(c[k]), 0);
    }
}

/// Which labels are missing depends on the model of the tree alone.
pub proof fn per_missing_same<'a, R: NameRule>(p: PerMissing<'a, R>, q: PerMissing<'a, R>)
    requires
        p.0 == q.0,
        block(p.1@) == block(q.1@),
    ensures
        forall|c: Block| #[trigger] p.step(c) == q.step(c),
{
}

/// Repeats the step until it no longer applies.
pub fn settle<S: Step>(p: &S, b: Vec<Stmt>) -> (r: Vec<Stmt>)
    ensures
        block(r@) == fixpoint(*p, block(b@)),
{
    let mut cur = b;
    loop
        invariant
            fixpoint(*p, block(cur@)) == fixpoint(*p, block(b@)),
        decreases <S::M as Measure>::of(block(cur@)),
    {
        proof {
            p.shrinks(block(cur@));
        }
        match p.try_step(&cur) {
            Some(next) => {
                cur = next;
            },
            None => {
                return cur;
            },
        }
    }
}

/// Settles the nested blocks of `b`, then `b` itself.
pub fn rewrite_everywhere<S: Step>(p: &S, b: &[Stmt]) -> (r: Vec<Stmt>)
    ensures
        block(r@) == everywhere(*p, block(b@)),
    decreases b@,
{
    let mut out: Vec<Stmt> = Vec::new();
    let mut i: usize = 0;
    while i < b.len()
        invariant
            i <= b.len(),
            out.len() == i,
            forall|j: int| 0 <= j < i ==> (#[trigger] out@[j])@ == inside_stmt(*p, b@[j]@),
        decreases b.len() - i,
    {
        out.push(rewrite_inside_stmt(p, &b[i]));
        i += 1;
    }
    assert(block(out@) =~= inside(*p, block(b@)));
    settle(p, out)
}

fn rewrite_inside_stmt<S: Step>(p: &S, s: &Stmt) -> (r: Stmt)
    ensures
        r@ == inside_stmt(*p, s@),
    decreases s,
{
    if let Stmt::If { cond, then_body, else_body } = s {
        Stmt::If {
            cond: cond.clone(),
            then_body: rewrite_everywhere(p, then_body),
            else_body: rewrite_everywhere(p, else_body),
        }
    } else {
        match loop_body(s) {
            Some(body) => {
                let b = rewrite_everywhere(p, body);
                with_loop_body(s, b)
            },
            None => s.clone(),
        }
    }
}

/// The jumps of a statement of `b` are jumps of `b`.
pub proof fn jumps_of_part(b: Block, i: int)
    requires
        0 <= i < b.len(),
    ensures
        deep_stmt(any_goto(), b[i]) <= deep(any_goto(), b),
{
    deep_member(any_goto(), b, i);
}

/// Settles `b` itself, then the nested blocks of what comes out.
pub open spec fn outward<S: Step<M = Gotos>>(p: S, b: Block) -> Block
    decreases deep(any_goto(), b), b, 1nat,
{
    match p.step(b) {
        Some(c) => if deep(any_goto(), c) < deep(any_goto(), b) {
            outward(p, c)
        } else {
            c
        },
        None => outward_inside(p, b),
    }
}

/// Settles the nested blocks of `b`, each before those inside it.
pub open spec fn outward_inside<S: Step<M = Gotos>>(p: S, b: Block) -> Block
    decreases deep(any_goto(), b), b, 0nat,
{
    Seq::new(
        b.len(),
        |i: int|
            if 0 <= i < b.len() && deep_stmt(any_goto(), b[i]) <= deep(any_goto(), b) {
                outward_stmt(p, b[i])
            } else {
                StmtV::Break
            },
    )
}

pub open spec fn outward_stmt<S: Step<M = Gotos>>(p: S, s: StmtV) -> StmtV
    decreases deep_stmt(any_goto(), s), s, 0nat,
{
    match s {
        StmtV::If { cond, then_body, else_body } => StmtV::If {
            cond,
            then_body: outward(p, then_body),
            else_body: outward(p, else_body),
        },
        StmtV::Loop { head, body } => StmtV::Loop { head, body: outward(p, body) },
        _ => s,
    }
}

/// Steps that always do the same settle to the same block, outer blocks first.
pub proof fn outward_same<S: Step<M = Gotos>>(p: S, q: S, b: Block)
    requires
        forall|c: Block| #[trigger] p.step(c) == q.step(c),
    ensures
        outward(p, b) == outward(q, b),
    decreases deep(any_goto(), b), b, 1nat,
{
    assert(p.step(b) == q.step(b));
    p.shrinks(b);
    match p.step(b) {
        Some(c) => {
            outward_same(p, q, c);
        },
        None => {
            assert forall|i: int| 0 <= i < b.len() implies outward_stmt(p, #[trigger] b[i]) == outward_stmt(q, b[i]) by {
                jumps_of_part(b, i);
                outward_stmt_same(p, q, b[i]);
            }
            assert(outward_inside(p, b) =~= outward_inside(q, b));
        },
    }
}

proof fn outward_stmt_same<S: Step<M = Gotos>>(p: S, q: S, s: StmtV)
    requires
        forall|c: Block| #[trigger] p.step(c) == q.step(c),
    ensures
        outward_stmt(p, s) == outward_stmt(q, s),
    decreases deep_stmt(any_goto(), s), s, 0nat,
{
    match s {
        StmtV::If { then_body, else_body, .. } => {
            outward_same(p, q, then_body);
            outward_same(p, q, else_body);
        },
        StmtV::Loop { body, .. } => {
            outward_same(p, q, body);
        },
        _ => {},
    }
}

/// Settles `b` itself, then the nested blocks of what comes out.
pub fn rewrite_outward<S: Step<M = Gotos>>(p: &S, b: Vec<Stmt>) -> (r: Vec<Stmt>)
    ensures
        block(r@) == outward(*p, block(b@)),
    decreases deep(any_goto(), block(b@)), block(b@), 1nat,
{
    proof {
        p.shrinks(block(b@));
    }
    match p.try_step(&b) {
        Some(c) => rewrite_outward(p, c),
        None => {
            let ghost v = block(b@);
            let mut out: Vec<Stmt> = Vec::new();
            let mut i: usize = 0;
            while i < b.len()
                invariant
                    i <= b.len(),
                    v == block(b@),
                    out.len() == i,
                    forall|j: int| 0 <= j < i ==> (#[trigger] out@[j])@ == outward_stmt(*p, v[j]),
                decreases b.len() - i,
            {
                proof {
                    jumps_of_part(v, i as int);
                    assert(v[i as int] == b@[i as int]@);
                }
                out.push(rewrite_outward_stmt(p, &b[i]));
                i += 1;
            }
            proof {
                assert forall|j: int| 0 <= j < v.len() implies deep_stmt(any_goto(), #[trigger] v[j]) <= deep(
                    any_goto(),
                    v,
                ) by {
                    jumps_of_part(v, j);
                }
                assert(block(out@) =~= outward_inside(*p, v));
            }
            out
        },
    }
}

fn rewrite_outward_stmt<S: Step<M = Gotos>>(p: &S, s: &Stmt) -> (r: Stmt)
    ensures
        r@ == outward_stmt(*p, s@),
    decreases deep_stmt(any_goto(), s@), s@, 0nat,
{
    if let Stmt::If { cond, then_body, else_body } = s {
        Stmt::If {
            cond: cond.clone(),
            then_body: rewrite_outward(p, clone_block(then_body)),
            else_body: rewrite_outward(p, clone_block(else_body)),
        }
    } else {
        match loop_body(s) {
            Some(body) => {
                let b = rewrite_outward(p, clone_block(body));
                with_loop_body(s, b)
            },
            None => s.clone(),
        }
    }
}

/// Tries `A`, and where it does not apply, `B`.
pub struct Either<A, B>(pub A, pub B);

impl<A: Step, B: Step<M = A::M>> Step for Either<A, B> {
    type M = A::M;

    open spec fn step(&self, b: Block) -> Option<Block> {
        match self.0.step(b) {
            Some(c) => Some(c),
            None => self.1.step(b),
        }
    }

    proof fn shrinks(&self, b: Block) {
        self.0.shrinks(b);
        self.1.shrinks(b);
    }

    fn try_step(&self, b: &Vec<Stmt>) -> (r: Option<Vec<Stmt>>) {
        match self.0.try_step(b) {
            Some(c) => Some(c),
            None => self.1.try_step(b),
        }
    }
}

/// A rewriting rule that applies at a position.
pub trait Rule: Sized {
    type M: Measure;

    /// The block after rewriting at `i`, or `None` where the rule does not apply there.
    spec fn at(&self, b: Block, i: int) -> Option<Block>;

    proof fn shrinks_at(&self, b: Block, i: int)
        requires
            0 <= i < b.len(),
        ensures
            self.at(b, i) matches Some(c) ==> <Self::M as Measure>::of(c) < <Self::M as Measure>::of(b),
    ;

    fn try_at(&self, b: &Vec<Stmt>, i: usize) -> (r: Option<Vec<Stmt>>)
        requires
            i < b.len(),
        ensures
            opt_block(r) == self.at(block(b@), i as int),
    ;
}

/// Applies a rule at the first position from `i` on where it applies.
pub open spec fn first_from<R: Rule>(p: R, b: Block, i: int) -> Option<Block>
    decreases b.len() - i,
{
    if i < 0 || i >= b.len() {
        None
    } else {
        match p.at(b, i) {
            Some(c) => Some(c),
            None => first_from(p, b, i + 1),
        }
    }
}

/// Where no position from `i` on is rewritten, the rule applies at none of them.
pub proof fn first_from_none<R: Rule>(p: R, b: Block, i: int, k: int)
    requires
        0 <= i <= k < b.len(),
        first_from(p, b, i) is None,
    ensures
        p.at(b, k) is None,
    decreases b.len() - i,
{
    if i < k {
        first_from_none(p, b, i + 1, k);
    }
}

pub proof fn first_from_shrinks<R: Rule>(p: R, b: Block, i: int)
    requires
        0 <= i,
    ensures
        first_from(p, b, i) matches Some(c) ==> <R::M as Measure>::of(c) < <R::M as Measure>::of(b),
    decreases b.len() - i,
{
    if i < b.len() {
        p.shrinks_at(b, i);
        first_from_shrinks(p, b, i + 1);
    }
}

/// The step that applies a rule at the first position where it applies.
pub struct Scan<R>(pub R);

impl<R: Rule> Step for Scan<R> {
    type M = R::M;

    open spec fn step(&self, b: Block) -> Option<Block> {
        first_from(self.0, b, 0)
    }

    proof fn shrinks(&self, b: Block) {
        first_from_shrinks(self.0, b, 0);
    }

    fn try_step(&self, b: &Vec<Stmt>) -> (r: Option<Vec<Stmt>>) {
        let mut i: usize = 0;
        while i < b.len()
            invariant
                i <= b.len(),
                self.step(block(b@)) == first_from(self.0, block(b@), i as int),
            decreases b.len() - i,
        {
            match self.0.try_at(b, i) {
                Some(c) => {
                    return Some(c);
                },
                None => {},
            }
            i += 1;
        }
        None
    }
}

/// Applies a rule at the last position before `i` where it applies.
pub open spec fn last_before<R: Rule>(p: R, b: Block, i: int) -> Option<Block>
    decreases i,
{
    if i <= 0 || i > b.len() {
        None
    } else {
        match p.at(b, i - 1) {
            Some(c) => Some(c),
            None => last_before(p, b, i - 1),
        }
    }
}

pub proof fn last_before_shrinks<R: Rule>(p: R, b: Block, i: int)
    ensures
        last_before(p, b, i) matches Some(c) ==> <R::M as Measure>::of(c) < <R::M as Measure>::of(b),
    decreases i,
{
    if 0 < i <= b.len() {
        p.shrinks_at(b, i - 1);
        last_before_shrinks(p, b, i - 1);
    }
}

/// The step that applies a rule at the last position where it applies.
pub struct ScanBack<R>(pub R);

impl<R: Rule> Step for ScanBack<R> {
    type M = R::M;

    open spec fn step(&self, b: Block) -> Option<Block> {
        last_before(self.0, b, b.len() as int)
    }

    proof fn shrinks(&self, b: Block) {
        last_before_shrinks(self.0, b, b.len() as int);
    }

    fn try_step(&self, b: &Vec<Stmt>) -> (r: Option<Vec<Stmt>>) {
        let mut i: usize = b.len();
        while i > 0
            invariant
                i <= b.len(),
                self.step(block(b@)) == last_before(self.0, block(b@), i as int),
            decreases i,
        {
            match self.0.try_at(b, i - 1) {
                Some(c) => {
                    return Some(c);
                },
                None => {},
            }
            i -= 1;
        }
        None
    }
}

/// A rewriting rule that applies at a position, for a label that the statement there jumps to.
pub trait LabelRule: Sized {
    type M: Measure;

    spec fn at_label(&self, b: Block, i: int, l: Text) -> Option<Block>;

    proof fn shrinks_at_label(&self, b: Block, i: int, l: Text)
        requires
            0 <= i < b.len(),
            goto_names(b[i]).contains(l),
        ensures
            self.at_label(b, i, l) matches Some(c) ==> <Self::M as Measure>::of(c)
                < <Self::M as Measure>::of(b),
    ;

    fn try_at_label(&self, b: &Vec<Stmt>, i: usize, l: &str) -> (r: Option<Vec<Stmt>>)
        requires
            i < b.len(),
        ensures
            opt_block(r) == self.at_label(block(b@), i as int, l@),
    ;
}

/// Applies a rule for the first of `ls`, from `k` on, for which it applies.
pub open spec fn first_label<R: LabelRule>(p: R, b: Block, i: int, ls: Seq<Text>, k: int) -> Option<Block>
    decreases ls.len() - k,
{
    if k < 0 || k >= ls.len() {
        None
    } else {
        match p.at_label(b, i, ls[k]) {
            Some(c) => Some(c),
            None => first_label(p, b, i, ls, k + 1),
        }
    }
}

pub proof fn first_label_shrinks<R: LabelRule>(p: R, b: Block, i: int, ls: Seq<Text>, k: int)
    requires
        0 <= i < b.len(),
        0 <= k,
        forall|j: int| 0 <= j < ls.len() ==> goto_names(b[i]).contains(#[trigger] ls[j]),
    ensures
        first_label(p, b, i, ls, k) matches Some(c) ==> <R::M as Measure>::of(c)
            < <R::M as Measure>::of(b),
    decreases ls.len() - k,
{
    if k < ls.len() {
        p.shrinks_at_label(b, i, ls[k]);
        first_label_shrinks(p, b, i, ls, k + 1);
    }
}

/// The rule that tries, at each position, every label that the statement there jumps to, in
/// ascending order.
pub struct PerLabel<R>(pub R);

impl<R: LabelRule> Rule for PerLabel<R> {
    type M = R::M;

    open spec fn at(&self, b: Block, i: int) -> Option<Block> {
        first_label(self.0, b, i, goto_names(b[i]), 0)
    }

    proof fn shrinks_at(&self, b: Block, i: int) {
        let ls = goto_names(b[i]);
        assert forall|j: int| 0 <= j < ls.len() implies goto_names(b[i]).contains(#[trigger] ls[j]) by {}
        first_label_shrinks(self.0, b, i, ls, 0);
    }

    fn try_at(&self, b: &Vec<Stmt>, i: usize) -> (r: Option<Vec<Stmt>>) {
        let ls = goto_names_in_stmt(&b[i]);
        let mut k: usize = 0;
        while k < ls.len()
            invariant
                i < b.len(),
                k <= ls@.len(),
                ls@ == goto_names(block(b@)[i as int]),
                self.at(block(b@), i as int) == first_label(self.0, block(b@), i as int, ls@, k as int),
            decreases ls@.len() - k,
        {
            match self.0.try_at_label(b, i, ls.get(k)) {
                Some(c) => {
                    return Some(c);
                },
                None => {},
            }
            k += 1;
        }
        None
    }
}

/// A rewriting rule for one label.
pub trait NameRule: Sized {
    type M: Measure;

    spec fn for_label(&self, b: Block, l: Text) -> Option<Block>;

    proof fn shrinks_for(&self, b: Block, l: Text)
        ensures
            self.for_label(b, l) matches Some(c) ==> <Self::M as Measure>::of(c) < <Self::M as Measure>::of(b),
    ;

    fn try_for(&self, b: &Vec<Stmt>, l: &str) -> (r: Option<Vec<Stmt>>)
        ensures
            opt_block(r) == self.for_label(block(b@), l@),
    ;
}

/// Applies a rule for the first label of `ls`, from `k` on, that stands nowhere in `root` and for
/// which it applies.
pub open spec fn first_missing<R: NameRule>(p: R, root: Block, b: Block, ls: Seq<Text>, k: int) -> Option<Block>
    decreases ls.len() - k,
{
    if k < 0 || k >= ls.len() {
        None
    } else if labels(root, ls[k]) == 0 && p.for_label(b, ls[k]) is Some {
        p.for_label(b, ls[k])
    } else {
        first_missing(p, root, b, ls, k + 1)
    }
}

pub proof fn first_missing_shrinks<R: NameRule>(p: R, root: Block, b: Block, ls: Seq<Text>, k: int)
    requires
        0 <= k,
    ensures
        first_missing(p, root, b, ls, k) matches Some(c) ==> <R::M as Measure>::of(c) < <R::M as Measure>::of(b),
    decreases ls.len() - k,
{
    if k < ls.len() {
        p.shrinks_for(b, ls[k]);
        first_missing_shrinks(p, root, b, ls, k + 1);
    }
}

/// The step that tries every label that the block jumps to and that stands nowhere in the whole
/// tree, in ascending order.
pub struct PerMissing<'a, R>(pub R, pub &'a Vec<Stmt>);

impl<'a, R: NameRule> Step for PerMissing<'a, R> {
    type M = R::M;

    open spec fn step(&self, b: Block) -> Option<Block> {
        first_missing(self.0, block(self.1@), b, block_goto_names(b), 0)
    }

    proof fn shrinks(&self, b: Block) {
        first_missing_shrinks(self.0, block(self.1@), b, block_goto_names(b), 0);
    }

    fn try_step(&self, b: &Vec<Stmt>) -> (r: Option<Vec<Stmt>>) {
        let ls = goto_names_in_block(b);
        let mut k: usize = 0;
        while k < ls.len()
            invariant
                k <= ls@.len(),
                ls@ == block_goto_names(block(b@)),
                self.step(block(b@)) == first_missing(self.0, block(self.1@), block(b@), ls@, k as int),
            decreases ls@.len() - k,
        {
            if !has_label(self.1, ls.get(k)) {
                match self.0.try_for(b, ls.get(k)) {
                    Some(c) => {
                        return Some(c);
                    },
                    None => {},
                }
            }
            k += 1;
        }
        None
    }
}

/// Applies a rule for the first of `ls`, from `k` on, for which it applies.
pub open spec fn first_named<R: NameRule>(p: R, b: Block, ls: Seq<Text>, k: int) -> Option<Block>
    decreases ls.len() - k,
{
    if k < 0 || k >= ls.len() {
        None
    } else {
        match p.for_label(b, ls[k]) {
            Some(c) => Some(c),
            None => first_named(p, b, ls, k + 1),
        }
    }
}

pub proof fn first_named_shrinks<R: NameRule>(p: R, b: Block, ls: Seq<Text>, k: int)
    requires
        0 <= k,
    ensures
        first_named(p, b, ls, k) matches Some(c) ==> <R::M as Measure>::of(c) < <R::M as Measure>::of(b),
    decreases ls.len() - k,
{
    if k < ls.len() {
        p.shrinks_for(b, ls[k]);
        first_named_shrinks(p, b, ls, k + 1);
    }
}

/// The step that tries every label that stands in the block, in ascending order.
pub struct PerPresent<R>(pub R);

impl<R: NameRule> Step for PerPresent<R> {
    type M = R::M;

    open spec fn step(&self, b: Block) -> Option<Block> {
        first_named(self.0, b, label_names(b), 0)
    }

    proof fn shrinks(&self, b: Block) {
        first_named_shrinks(self.0, b, label_names(b), 0);
    }

    fn try_step(&self, b: &Vec<Stmt>) -> (r: Option<Vec<Stmt>>) {
        let ls = label_names_in_block(b);
        let mut k: usize = 0;
        while k < ls.len()
            invariant
                k <= ls@.len(),
                ls@ == label_names(block(b@)),
                self.step(block(b@)) == first_named(self.0, block(b@), ls@, k as int),
            decreases ls@.len() - k,
        {
            match self.0.try_for(b, ls.get(k)) {
                Some(c) => {
                    return Some(c);
                },
                None => {},
            }
            k += 1;
        }
        None
    }
}

/// A pass over one block whose nested blocks it has already been through.
pub trait Pass: Sized {
    spec fn rewrite(&self, b: Block) -> Block;

    fn run(&self, b: Vec<Stmt>) -> (r: Vec<Stmt>)
        ensures
            block(r@) == self.rewrite(block(b@)),
    ;
}

/// Applies the pass to the nested blocks of `b`, then to `b` itself.
pub open spec fn throughout<P: Pass>(p: P, b: Block) -> Block
    decreases b, 1nat,
{
    p.rewrite(within(p, b))
}

/// Applies the pass to the nested blocks of `b`.
pub open spec fn within<P: Pass>(p: P, b: Block) -> Block
    decreases b, 0nat,
{
    Seq::new(b.len(), |i: int| if 0 <= i < b.len() { within_stmt(p, b[i]) } else { StmtV::Break })
}

/// Applies the pass to the nested blocks of `s`.
pub open spec fn within_stmt<P: Pass>(p: P, s: StmtV) -> StmtV
    decreases s, 0nat,
{
    match s {
        StmtV::If { cond, then_body, else_body } => StmtV::If {
            cond,
            then_body: throughout(p, then_body),
            else_body: throughout(p, else_body),
        },
        StmtV::Loop { head, body } => StmtV::Loop { head, body: throughout(p, body) },
        _ => s,
    }
}

/// Passes that always do the same do the same throughout a tree.
pub proof fn throughout_same<P: Pass>(p: P, q: P, b: Block)
    requires
        forall|c: Block| #[trigger] p.rewrite(c) == q.rewrite(c),
    ensures
        throughout(p, b) == throughout(q, b),
    decreases b, 1nat,
{
    assert forall|i: int| 0 <= i < b.len() implies within_stmt(p, #[trigger] b[i]) == within_stmt(q, b[i]) by {
        within_stmt_same(p, q, b[i]);
    }
    assert(within(p, b) =~= within(q, b));
    assert(p.rewrite(within(p, b)) == q.rewrite(within(p, b)));
}

proof fn within_stmt_same<P: Pass>(p: P, q: P, s: StmtV)
    requires
        forall|c: Block| #[trigger] p.rewrite(c) == q.rewrite(c),
    ensures
        within_stmt(p, s) == within_stmt(q, s),
    decreases s, 0nat,
{
    match s {
        StmtV::If { then_body, else_body, .. } => {
            throughout_same(p, q, then_body);
            throughout_same(p, q, else_body);
        },
        StmtV::Loop { body, .. } => {
            throughout_same(p, q, body);
        },
        _ => {},
    }
}

/// Applies the pass to the nested blocks of `b`, then to `b` itself.
pub fn run_throughout<P: Pass>(p: &P, b: &[Stmt]) -> (r: Vec<Stmt>)
    ensures
        block(r@) == throughout(*p, block(b@)),
    decreases b@,
{
    let mut out: Vec<Stmt> = Vec::new();
    let mut i: usize = 0;
    while i < b.len()
        invariant
            i <= b.len(),
            out.len() == i,
            forall|j: int| 0 <= j < i ==> (#[trigger] out@[j])@ == within_stmt(*p, b@[j]@),
        decreases b.len() - i,
    {
        out.push(run_within_stmt(p, &b[i]));
        i += 1;
    }
    assert(block(out@) =~= within(*p, block(b@)));
    p.run(out)
}

fn run_within_stmt<P: Pass>(p: &P, s: &Stmt) -> (r: Stmt)
    ensures
        r@ == within_stmt(*p, s@),
    decreases s,
{
    if let Stmt::If { cond, then_body, else_body } = s {
        Stmt::If {
            cond: cond.clone(),
            then_body: run_throughout(p, then_body),
            else_body: run_throughout(p, else_body),
        }
    } else {
        match loop_body(s) {
            Some(body) => {
                let b = run_throughout(p, body);
                with_loop_body(s, b)
            },
            None => s.clone(),
        }
    }
}

} // verus!
