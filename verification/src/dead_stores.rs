//! Stores that nothing reads.
use vstd::prelude::*;

use crate::ast::{block, block_eq, loop_body, spec_splice, splice, with_loop_body, Block, ExprV, Stmt, StmtV};
use crate::inline::{body_protected, control_flow, is_control_flow, protected_in_body};
use crate::joins::Length;
use crate::jumps::{only, sole_assign, sole_var_assign};
use crate::markers::{assigns, directly_writes_var};
use crate::names::NameSet;
use crate::naming::{is_pure, pure};
use crate::query::{nonlocal_flow, one_if, reads_of, stmt_reads, stmt_reads_var, NonlocalFlow, ReadsOf};
use crate::rules::{first_from, first_from_none, fixpoint, fixpoint_settles, settle, Rule, Scan, Step};
use crate::sweeps::{before, push_stmt, selected, selected_from};
use crate::text::Text;
use crate::weight::{deep, deep_at, deep_concat, deep_one, deep_stmt, occurs, occurs_in_range};

verus! {

// ---- stores that are never read -------------------------------------------------------------------------

/// Whether `s` assigns a variable that nothing in `root` reads.
pub open spec fn unread(s: StmtV, root: Block, protected: Seq<Text>) -> bool {
    sole_assign(s) matches Some((n, _)) && !protected.contains(n) && deep(reads_of(n), root) == 0
}

/// What stays of a store that is never read: the call, where its value has an effect.
pub open spec fn effect_of(v: ExprV) -> Block {
    if pure(v) {
        Seq::empty()
    } else {
        only(StmtV::Call(v))
    }
}

/// `b` without the assignments to variables that nothing in `root` reads.
pub open spec fn without_unread(b: Block, root: Block, protected: Seq<Text>) -> Block
    decreases b,
{
    if b.len() == 0 {
        b
    } else {
        without_unread(b.drop_last(), root, protected) + unread_in(b.last(), root, protected)
    }
}

pub open spec fn unread_in(s: StmtV, root: Block, protected: Seq<Text>) -> Block
    decreases s,
{
    if unread(s, root, protected) {
        effect_of(sole_assign(s)->Some_0.1)
    } else {
        match s {
            StmtV::If { cond, then_body, else_body } => only(
                StmtV::If {
                    cond,
                    then_body: without_unread(then_body, root, protected),
                    else_body: without_unread(else_body, root, protected),
                },
            ),
            StmtV::Loop { head, body } => only(StmtV::Loop { head, body: without_unread(body, root, protected) }),
            _ => only(s),
        }
    }
}

fn is_unread(s: &Stmt, root: &[Stmt], protected: &NameSet) -> (r: bool)
    ensures
        r == unread(s@, block(root@), protected@),
{
    match sole_var_assign(s) {
        Some((n, _)) => !protected.contains(n) && !occurs(&ReadsOf { name: n }, root),
        None => false,
    }
}

fn remove_unread(b: &[Stmt], root: &[Stmt], protected: &NameSet) -> (r: Vec<Stmt>)
    ensures
        block(r@) == without_unread(block(b@), block(root@), protected@),
    decreases b@,
{
    let ghost v = block(b@);
    let mut out: Vec<Stmt> = Vec::new();
    let mut i: usize = 0;
    assert(block(out@) =~= Seq::<StmtV>::empty());
    while i < b.len()
        invariant
            i <= b.len(),
            v == block(b@),
            block(out@) == without_unread(v.take(i as int), block(root@), protected@),
        decreases b.len() - i,
    {
        proof {
            let t = v.take(i + 1);
            assert(t.drop_last() =~= v.take(i as int));
            assert(t.last() == v[i as int]);
            assert(v[i as int] == b@[i as int]@);
        }
        remove_unread_in(&b[i], root, protected, &mut out);
        i += 1;
    }
    assert(v.take(i as int) =~= v);
    out
}

fn remove_unread_in(s: &Stmt, root: &[Stmt], protected: &NameSet, out: &mut Vec<Stmt>)
    ensures
        block(final(out)@) == block(old(out)@) + unread_in(s@, block(root@), protected@),
    decreases s,
{
    let ghost o = block(out@);
    if is_unread(s, root, protected) {
        if let Some((_, v)) = sole_var_assign(s) {
            if is_pure(v) {
                assert(o + Seq::<StmtV>::empty() =~= o);
            } else {
                push_stmt(out, Stmt::Call(v.clone()));
            }
        }
    } else if let Stmt::If { cond, then_body, else_body } = s {
        let t = remove_unread(then_body, root, protected);
        let e = remove_unread(else_body, root, protected);
        push_stmt(out, Stmt::If { cond: cond.clone(), then_body: t, else_body: e });
    } else {
        match loop_body(s) {
            Some(body) => {
                let t = remove_unread(body, root, protected);
                push_stmt(out, with_loop_body(s, t));
            },
            None => push_stmt(out, s.clone()),
        }
    }
}

// ---- stores that are overwritten ------------------------------------------------------------------------

/// Whether, from `k` on, `n` is assigned before anything reads it or control may leave.
pub open spec fn overwritten(b: Block, k: int, n: Text) -> bool
    decreases b.len() - k,
{
    if k < 0 || k >= b.len() || stmt_reads(b[k], n) {
        false
    } else if assigns(b[k], n) {
        true
    } else {
        !control_flow(b[k]) && overwritten(b, k + 1, n)
    }
}

/// Whether the statement at `i` stores a value that is overwritten before it is read.
pub open spec fn wasted(b: Block, i: int, protected: Seq<Text>) -> bool {
    sole_assign(b[i]) matches Some((n, v)) && !protected.contains(n) && pure(v) && overwritten(b, i + 1, n)
}

/// `b` from `i` on, without such stores.
pub open spec fn without_wasted(b: Block, i: int, protected: Seq<Text>) -> Block
    decreases b.len() - i,
{
    if i < 0 || i >= b.len() {
        Seq::empty()
    } else if wasted(b, i, protected) {
        without_wasted(b, i + 1, protected)
    } else {
        before(b[i], without_wasted(b, i + 1, protected))
    }
}

/// `b` without overwritten stores, in its nested blocks first.
pub open spec fn without_overwritten(b: Block, protected: Seq<Text>) -> Block
    decreases b, 1nat,
{
    without_wasted(without_overwritten_inside(b, protected), 0, protected)
}

pub open spec fn without_overwritten_inside(b: Block, protected: Seq<Text>) -> Block
    decreases b, 0nat,
{
    Seq::new(b.len(), |i: int| if 0 <= i < b.len() { overwritten_in(b[i], protected) } else { StmtV::Break })
}

pub open spec fn overwritten_in(s: StmtV, protected: Seq<Text>) -> StmtV
    decreases s, 0nat,
{
    match s {
        StmtV::If { cond, then_body, else_body } => StmtV::If {
            cond,
            then_body: without_overwritten(then_body, protected),
            else_body: without_overwritten(else_body, protected),
        },
        StmtV::Loop { head, body } => StmtV::Loop {
            head,
            body: without_overwritten(body, body_protected(head, protected)),
        },
        _ => s,
    }
}

fn is_overwritten(b: &Vec<Stmt>, from: usize, n: &str) -> (r: bool)
    requires
        from <= b.len(),
    ensures
        r == overwritten(block(b@), from as int, n@),
{
    let mut k: usize = from;
    while k < b.len()
        invariant
            from <= k <= b.len(),
            overwritten(block(b@), from as int, n@) == overwritten(block(b@), k as int, n@),
        decreases b.len() - k,
    {
        if stmt_reads_var(&b[k], n) {
            return false;
        }
        if directly_writes_var(&b[k], n) {
            return true;
        }
        if is_control_flow(&b[k]) {
            return false;
        }
        k += 1;
    }
    false
}

fn is_wasted(b: &Vec<Stmt>, i: usize, protected: &NameSet) -> (r: bool)
    requires
        i < b.len(),
    ensures
        r == wasted(block(b@), i as int, protected@),
{
    match sole_var_assign(&b[i]) {
        Some((n, v)) => !protected.contains(n) && is_pure(v) && is_overwritten(b, i + 1, n),
        None => false,
    }
}

fn sweep_wasted(b: &Vec<Stmt>, protected: &NameSet) -> (r: Vec<Stmt>)
    ensures
        block(r@) == without_wasted(block(b@), 0, protected@),
{
    let ghost v = block(b@);
    let mut out: Vec<Stmt> = Vec::new();
    let mut i: usize = 0;
    assert(without_wasted(v, 0, protected@) =~= block(out@) + without_wasted(v, 0, protected@));
    while i < b.len()
        invariant
            i <= b.len(),
            v == block(b@),
            without_wasted(v, 0, protected@) == block(out@) + without_wasted(v, i as int, protected@),
        decreases b.len() - i,
    {
        assert(v[i as int] == b@[i as int]@);
        if !is_wasted(b, i, protected) {
            let ghost o = block(out@);
            let ghost rest = without_wasted(v, i + 1, protected@);
            push_stmt(&mut out, b[i].clone());
            assert(o + before(v[i as int], rest) =~= block(out@) + rest);
        }
        i += 1;
    }
    assert(block(out@) + Seq::<StmtV>::empty() =~= block(out@));
    out
}

fn remove_overwritten(b: &[Stmt], protected: &NameSet) -> (r: Vec<Stmt>)
    ensures
        block(r@) == without_overwritten(block(b@), protected@),
    decreases b@,
{
    let mut out: Vec<Stmt> = Vec::new();
    let mut i: usize = 0;
    while i < b.len()
        invariant
            i <= b.len(),
            out.len() == i,
            forall|j: int| 0 <= j < i ==> (#[trigger] out@[j])@ == overwritten_in(b@[j]@, protected@),
        decreases b.len() - i,
    {
        out.push(remove_overwritten_in(&b[i], protected));
        i += 1;
    }
    assert(block(out@) =~= without_overwritten_inside(block(b@), protected@));
    sweep_wasted(&out, protected)
}

fn remove_overwritten_in(s: &Stmt, protected: &NameSet) -> (r: Stmt)
    ensures
        r@ == overwritten_in(s@, protected@),
    decreases s,
{
    if let Stmt::If { cond, then_body, else_body } = s {
        Stmt::If {
            cond: cond.clone(),
            then_body: remove_overwritten(then_body, protected),
            else_body: remove_overwritten(else_body, protected),
        }
    } else {
        match loop_body(s) {
            Some(body) => {
                let p = protected_in_body(s, protected);
                let b = remove_overwritten(body, &p);
                with_loop_body(s, b)
            },
            None => s.clone(),
        }
    }
}

// ---- both, as long as they find something -----------------------------------------------------------------

/// Weighs the assignments to a single variable.
pub open spec fn store() -> spec_fn(StmtV) -> nat {
    |s: StmtV| one_if(sole_assign(s) is Some)
}

/// Removing unread stores removes stores, or changes nothing.
proof fn without_unread_fewer(b: Block, root: Block, protected: Seq<Text>)
    ensures
        deep(store(), without_unread(b, root, protected)) < deep(store(), b) || without_unread(b, root, protected) == b,
    decreases b,
{
    if b.len() > 0 {
        let front = b.drop_last();
        let f = without_unread(front, root, protected);
        let l = unread_in(b.last(), root, protected);
        without_unread_fewer(front, root, protected);
        unread_in_fewer(b.last(), root, protected);
        deep_concat(store(), f, l);
        if f == front && l == only(b.last()) {
            assert(f + l =~= b);
        }
        if l == only(b.last()) {
            deep_one(store(), b.last());
        }
    }
}

proof fn unread_in_fewer(s: StmtV, root: Block, protected: Seq<Text>)
    ensures
        deep(store(), unread_in(s, root, protected)) < deep_stmt(store(), s) || unread_in(s, root, protected) == only(s),
    decreases s,
{
    if unread(s, root, protected) {
        let v = sole_assign(s)->Some_0.1;
        deep_one(store(), StmtV::Call(v));
        assert(store()(s) == 1);
        assert(deep(store(), Seq::<StmtV>::empty()) == 0);
    } else {
        match s {
            StmtV::If { cond, then_body, else_body } => {
                without_unread_fewer(then_body, root, protected);
                without_unread_fewer(else_body, root, protected);
                let t = without_unread(then_body, root, protected);
                let e = without_unread(else_body, root, protected);
                deep_one(store(), StmtV::If { cond, then_body: t, else_body: e });
            },
            StmtV::Loop { head, body } => {
                without_unread_fewer(body, root, protected);
                deep_one(store(), StmtV::Loop { head, body: without_unread(body, root, protected) });
            },
            _ => {},
        }
    }
}

proof fn without_wasted_fewer(b: Block, i: int, protected: Seq<Text>)
    requires
        0 <= i <= b.len(),
    ensures
        deep(store(), without_wasted(b, i, protected)) < deep(store(), b.skip(i)) || without_wasted(b, i, protected)
            == b.skip(i),
    decreases b.len() - i,
{
    if i < b.len() {
        without_wasted_fewer(b, i + 1, protected);
        let rest = without_wasted(b, i + 1, protected);
        assert(b.skip(i) =~= only(b[i]) + b.skip(i + 1));
        deep_concat(store(), only(b[i]), b.skip(i + 1));
        deep_one(store(), b[i]);
        if wasted(b, i, protected) {
            assert(store()(b[i]) == 1);
        } else {
            assert(before(b[i], rest) =~= only(b[i]) + rest);
            deep_concat(store(), only(b[i]), rest);
        }
    } else {
        assert(b.skip(i) =~= Seq::<StmtV>::empty());
    }
}

proof fn without_overwritten_fewer(b: Block, protected: Seq<Text>)
    ensures
        deep(store(), without_overwritten(b, protected)) < deep(store(), b) || without_overwritten(b, protected) == b,
    decreases b, 1nat,
{
    let inner = without_overwritten_inside(b, protected);
    without_overwritten_inside_fewer(b, b.len() as int, protected);
    without_wasted_fewer(inner, 0, protected);
    assert(inner.skip(0) =~= inner);
    assert(inner.take(b.len() as int) =~= inner);
    assert(b.take(b.len() as int) =~= b);
}

proof fn without_overwritten_inside_fewer(b: Block, k: int, protected: Seq<Text>)
    requires
        0 <= k <= b.len(),
    ensures
        ({
            let c = without_overwritten_inside(b, protected).take(k);
            deep(store(), c) < deep(store(), b.take(k)) || c == b.take(k)
        }),
    decreases b, 0nat, k,
{
    let c = without_overwritten_inside(b, protected);
    if k > 0 {
        without_overwritten_inside_fewer(b, k - 1, protected);
        overwritten_in_fewer(b[k - 1], protected);
        assert(c.take(k).drop_last() =~= c.take(k - 1));
        assert(b.take(k).drop_last() =~= b.take(k - 1));
        assert(c.take(k).last() == c[k - 1]);
        assert(b.take(k).last() == b[k - 1]);
        if c.take(k - 1) == b.take(k - 1) && c[k - 1] == b[k - 1] {
            assert(c.take(k) =~= c.take(k - 1).push(c[k - 1]));
            assert(b.take(k) =~= b.take(k - 1).push(b[k - 1]));
        }
    } else {
        assert(c.take(k) =~= b.take(k));
    }
}

proof fn overwritten_in_fewer(s: StmtV, protected: Seq<Text>)
    ensures
        deep_stmt(store(), overwritten_in(s, protected)) < deep_stmt(store(), s) || overwritten_in(s, protected) == s,
    decreases s, 0nat,
{
    match s {
        StmtV::If { then_body, else_body, .. } => {
            without_overwritten_fewer(then_body, protected);
            without_overwritten_fewer(else_body, protected);
        },
        StmtV::Loop { head, body } => {
            without_overwritten_fewer(body, body_protected(head, protected));
        },
        _ => {},
    }
}

/// One round of removing stores.
pub open spec fn fewer_stores(b: Block, protected: Seq<Text>) -> Block {
    without_overwritten(without_unread(b, b, protected), protected)
}

/// A round removes stores, or changes nothing.
pub proof fn fewer_stores_fewer(b: Block, protected: Seq<Text>)
    ensures
        deep(store(), fewer_stores(b, protected)) < deep(store(), b) || fewer_stores(b, protected) == b,
{
    without_unread_fewer(b, b, protected);
    without_overwritten_fewer(without_unread(b, b, protected), protected);
}

/// `b` after as many rounds as find something.
pub open spec fn without_dead_stores(b: Block, protected: Seq<Text>) -> Block
    decreases deep(store(), b),
{
    if fewer_stores(b, protected) == b {
        b
    } else {
        proof {
            fewer_stores_fewer(b, protected);
        }
        without_dead_stores(fewer_stores(b, protected), protected)
    }
}

/// Drops stores that are never read, or that are overwritten before they are read; of a value
/// that has an effect the call stays. Stores to `protected` names stay.
pub fn dead_store_elim(root: &mut Vec<Stmt>, protected: &NameSet)
    ensures
        block(final(root)@) == without_dead_stores(block(old(root)@), protected@),
{
    let ghost b0 = block(root@);
    loop
        invariant
            b0 == block(old(root)@),
            without_dead_stores(b0, protected@) == without_dead_stores(block(root@), protected@),
        decreases deep(store(), block(root@)),
    {
        proof {
            fewer_stores_fewer(block(root@), protected@);
        }
        let next = remove_overwritten(&remove_unread(root, root, protected), protected);
        if block_eq(&next, root) {
            return;
        }
        *root = next;
    }
}

/// A second elimination of dead stores finds nothing.
pub proof fn without_dead_stores_idempotent(b: Block, protected: Seq<Text>)
    ensures
        without_dead_stores(without_dead_stores(b, protected), protected) == without_dead_stores(b, protected),
    decreases deep(store(), b),
{
    if fewer_stores(b, protected) != b {
        fewer_stores_fewer(b, protected);
        without_dead_stores_idempotent(fewer_stores(b, protected), protected);
    }
}

/// Weighs the stores of variables that nothing in `root` reads.
pub open spec fn never_read(root: Block, protected: Seq<Text>) -> spec_fn(StmtV) -> nat {
    |s: StmtV| one_if(unread(s, root, protected))
}

/// Removing unread stores removes those stores and no others.
proof fn without_unread_exact(b: Block, root: Block, protected: Seq<Text>)
    ensures
        deep(store(), without_unread(b, root, protected)) + deep(never_read(root, protected), b) == deep(store(), b),
    decreases b,
{
    if b.len() > 0 {
        without_unread_exact(b.drop_last(), root, protected);
        unread_in_exact(b.last(), root, protected);
        deep_concat(store(), without_unread(b.drop_last(), root, protected), unread_in(b.last(), root, protected));
    }
}

proof fn unread_in_exact(s: StmtV, root: Block, protected: Seq<Text>)
    ensures
        deep(store(), unread_in(s, root, protected)) + deep_stmt(never_read(root, protected), s) == deep_stmt(store(), s),
    decreases s,
{
    if unread(s, root, protected) {
        let v = sole_assign(s)->Some_0.1;
        deep_one(store(), StmtV::Call(v));
        assert(store()(s) == 1);
        assert(deep(store(), Seq::<StmtV>::empty()) == 0);
    } else {
        match s {
            StmtV::If { cond, then_body, else_body } => {
                without_unread_exact(then_body, root, protected);
                without_unread_exact(else_body, root, protected);
                let t = without_unread(then_body, root, protected);
                let e = without_unread(else_body, root, protected);
                deep_one(store(), StmtV::If { cond, then_body: t, else_body: e });
            },
            StmtV::Loop { head, body } => {
                without_unread_exact(body, root, protected);
                deep_one(store(), StmtV::Loop { head, body: without_unread(body, root, protected) });
            },
            _ => {
                deep_one(store(), s);
            },
        }
    }
}

/// Whether no block of `b` holds a store that is overwritten before it is read.
pub open spec fn nothing_wasted(b: Block, protected: Seq<Text>) -> bool
    decreases b, 1nat,
{
    forall|i: int| 0 <= i < b.len() ==> !wasted(b, i, protected) && nothing_wasted_in(#[trigger] b[i], protected)
}

pub open spec fn nothing_wasted_in(s: StmtV, protected: Seq<Text>) -> bool
    decreases s, 0nat,
{
    match s {
        StmtV::If { then_body, else_body, .. } => nothing_wasted(then_body, protected) && nothing_wasted(
            else_body,
            protected,
        ),
        StmtV::Loop { head, body } => nothing_wasted(body, body_protected(head, protected)),
        _ => true,
    }
}

proof fn without_wasted_len(b: Block, i: int, protected: Seq<Text>)
    requires
        0 <= i <= b.len(),
    ensures
        without_wasted(b, i, protected).len() <= b.len() - i,
        without_wasted(b, i, protected).len() == b.len() - i ==> forall|k: int|
            i <= k < b.len() ==> !#[trigger] wasted(b, k, protected),
    decreases b.len() - i,
{
    if i < b.len() {
        without_wasted_len(b, i + 1, protected);
    }
}

proof fn settled_wastes_nothing(b: Block, protected: Seq<Text>)
    requires
        without_overwritten(b, protected) == b,
    ensures
        nothing_wasted(b, protected),
    decreases b,
{
    let c = without_overwritten_inside(b, protected);
    without_overwritten_inside_fewer(b, b.len() as int, protected);
    without_wasted_fewer(c, 0, protected);
    assert(c.skip(0) =~= c);
    assert(c.take(b.len() as int) =~= c);
    assert(b.take(b.len() as int) =~= b);
    assert(c == b);
    without_wasted_len(b, 0, protected);
    assert forall|i: int| 0 <= i < b.len() implies !wasted(b, i, protected) && nothing_wasted_in(
        #[trigger] b[i],
        protected,
    ) by {
        assert(c[i] == overwritten_in(b[i], protected));
        assert(overwritten_in(b[i], protected) == b[i]);
        match b[i] {
            StmtV::If { then_body, else_body, .. } => {
                settled_wastes_nothing(then_body, protected);
                settled_wastes_nothing(else_body, protected);
            },
            StmtV::Loop { head, body } => {
                settled_wastes_nothing(body, body_protected(head, protected));
            },
            _ => {},
        }
    }
}

/// Eliminating dead stores leaves no store, at any depth, of an unprotected variable that nothing
/// reads, and none that is overwritten in its block before it is read.
pub proof fn no_dead_store_left(b: Block, protected: Seq<Text>)
    ensures
        ({
            let d = without_dead_stores(b, protected);
            &&& deep(never_read(d, protected), d) == 0
            &&& nothing_wasted(d, protected)
        }),
    decreases deep(store(), b),
{
    fewer_stores_fewer(b, protected);
    if fewer_stores(b, protected) != b {
        no_dead_store_left(fewer_stores(b, protected), protected);
    } else {
        let c = without_unread(b, b, protected);
        without_unread_fewer(b, b, protected);
        without_overwritten_fewer(c, protected);
        assert(c == b);
        without_unread_exact(b, b, protected);
        settled_wastes_nothing(b, protected);
    }
}

// ---- stores after the last read -------------------------------------------------------------------------

/// Drops a pure store that nothing after it reads.
pub struct DeadAfter<'a> {
    pub protected: &'a NameSet,
}

/// Whether the statement at `i` stores a value that nothing after it reads.
pub open spec fn dead_after(b: Block, i: int, protected: Seq<Text>) -> bool {
    let rest = b.subrange(i + 1, b.len() as int);
    sole_assign(b[i]) matches Some((n, v)) && !protected.contains(n) && pure(v) && deep(reads_of(n), rest) == 0 && deep(
        nonlocal_flow(),
        rest,
    ) == 0
}

impl<'a> Rule for DeadAfter<'a> {
    type M = Length;

    open spec fn at(&self, b: Block, i: int) -> Option<Block> {
        if dead_after(b, i, self.protected@) {
            Some(spec_splice(b, i, i + 1, Seq::empty()))
        } else {
            None
        }
    }

    proof fn shrinks_at(&self, b: Block, i: int) {
    }

    fn try_at(&self, b: &Vec<Stmt>, i: usize) -> (r: Option<Vec<Stmt>>) {
        let n: usize = b.len();
        match sole_var_assign(&b[i]) {
            Some((name, v)) => {
                if !self.protected.contains(name) && is_pure(v) && !occurs_in_range(&ReadsOf { name }, b, i + 1, n)
                    && !occurs_in_range(&NonlocalFlow, b, i + 1, n) {
                    Some(splice(b, i, i + 1, crate::ast::none()))
                } else {
                    None
                }
            },
            None => None,
        }
    }
}

/// Drops pure stores at the top level that nothing after them reads.
pub fn remove_dead_pure_stores_after_last_read(root: &mut Vec<Stmt>, protected: &NameSet)
    ensures
        block(final(root)@) == fixpoint(Scan(DeadAfter { protected }), block(old(root)@)),
{
    let b = crate::ast::clone_block(root);
    *root = settle(&Scan(DeadAfter { protected }), b);
}

/// What is left holds no pure store that nothing after it reads.
pub proof fn no_dead_after(protected: &NameSet, b: Block, i: int)
    requires
        0 <= i < fixpoint(Scan(DeadAfter { protected }), b).len(),
    ensures
        !dead_after(fixpoint(Scan(DeadAfter { protected }), b), i, protected@),
{
    let p = Scan(DeadAfter { protected });
    fixpoint_settles(p, b);
    first_from_none(p.0, fixpoint(p, b), 0, i);
}

/// Whether the statement at `k` is a pure store to an unprotected name such that no statement after
/// it that is to keep reads the name or may leave the block.
pub open spec fn unread_by_kept(b: Block, keep: Seq<bool>, k: int, protected: Seq<Text>) -> bool {
    sole_assign(b[k]) matches Some((n, v)) && {
        &&& !protected.contains(n)
        &&& pure(v)
        &&& forall|j: int|
            k < j < b.len() && #[trigger] keep[j] ==> deep_stmt(reads_of(n), b[j]) == 0 && deep_stmt(
                nonlocal_flow(),
                b[j],
            ) == 0
    }
}

/// Whether dropping the statements of `b` that are not to keep drops only stores that go unread.
pub open spec fn drops_unread(b: Block, keep: Seq<bool>, protected: Seq<Text>) -> bool {
    keep.len() == b.len() && forall|k: int|
        0 <= k < b.len() && !(#[trigger] keep[k]) ==> unread_by_kept(b, keep, k, protected)
}

proof fn selected_later(b: Block, keep: Seq<bool>, i: int, k: int)
    requires
        keep.len() + 1 == b.len(),
        0 <= i < k <= b.len(),
    ensures
        selected_from(b, keep.insert(i, false), k) == selected_from(b.remove(i), keep, k - 1),
    decreases b.len() - k,
{
    if k < b.len() {
        selected_later(b, keep, i, k + 1);
        assert(keep.insert(i, false)[k] == keep[k - 1]);
        assert(b.remove(i)[k - 1] == b[k]);
    }
}

proof fn selected_without(b: Block, keep: Seq<bool>, i: int, k: int)
    requires
        keep.len() + 1 == b.len(),
        0 <= k <= i < b.len(),
    ensures
        selected_from(b, keep.insert(i, false), k) == selected_from(b.remove(i), keep, k),
    decreases i - k,
{
    if k < i {
        selected_without(b, keep, i, k + 1);
        assert(keep.insert(i, false)[k] == keep[k]);
        assert(b.remove(i)[k] == b[k]);
    } else {
        selected_later(b, keep, i, i + 1);
        assert(keep.insert(i, false)[i] == false);
    }
}

proof fn selected_whole(b: Block, keep: Seq<bool>, k: int)
    requires
        keep.len() == b.len(),
        forall|i: int| 0 <= i < b.len() ==> #[trigger] keep[i],
        0 <= k <= b.len(),
    ensures
        selected_from(b, keep, k) == b.skip(k),
    decreases b.len() - k,
{
    if k < b.len() {
        selected_whole(b, keep, k + 1);
        assert(keep[k]);
    }
    assert(selected_from(b, keep, k) =~= b.skip(k));
}

pub proof fn first_dead_after(protected: &NameSet, b: Block, k: int)
    requires
        0 <= k,
    ensures
        first_from(DeadAfter { protected }, b, k) matches Some(c) ==> exists|i: int|
            0 <= i < b.len() && #[trigger] dead_after(b, i, protected@) && c == b.remove(i),
    decreases b.len() - k,
{
    if k < b.len() {
        if dead_after(b, k, protected@) {
            assert(spec_splice(b, k, k + 1, Seq::empty()) =~= b.remove(k));
        } else {
            first_dead_after(protected, b, k + 1);
        }
    }
}

/// What is dropped are pure stores at the top level, to unprotected names that no later statement
/// that stays reads. What stays keeps its order.
pub proof fn drops_only_unread(protected: &NameSet, b: Block)
    ensures
        exists|keep: Seq<bool>|
            #[trigger] drops_unread(b, keep, protected@) && fixpoint(Scan(DeadAfter { protected }), b) == selected(
                b,
                keep,
            ),
    decreases b.len(),
{
    let p = Scan(DeadAfter { protected });
    let r = fixpoint(p, b);
    match p.step(b) {
        Some(c) => {
            first_dead_after(protected, b, 0);
            let i = choose|i: int| 0 <= i < b.len() && #[trigger] dead_after(b, i, protected@) && c == b.remove(i);
            drops_only_unread(protected, c);
            let inner = choose|keep: Seq<bool>|
                #[trigger] drops_unread(c, keep, protected@) && fixpoint(p, c) == selected(c, keep);
            let keep = inner.insert(i, false);
            selected_without(b, inner, i, 0);
            assert(r == selected(b, keep));
            assert forall|k: int| 0 <= k < b.len() && !(#[trigger] keep[k]) implies unread_by_kept(
                b,
                keep,
                k,
                protected@,
            ) by {
                let n = sole_assign(b[k])->Some_0.0;
                if k == i {
                    let rest = b.subrange(i + 1, b.len() as int);
                    assert forall|j: int| k < j < b.len() && #[trigger] keep[j] implies deep_stmt(reads_of(n), b[j])
                        == 0 && deep_stmt(nonlocal_flow(), b[j]) == 0 by {
                        deep_at(reads_of(n), rest, j - i - 1);
                        deep_at(nonlocal_flow(), rest, j - i - 1);
                    }
                } else {
                    let x = if k < i {
                        k
                    } else {
                        k - 1
                    };
                    assert(keep[k] == inner[x]);
                    assert(c[x] == b[k]);
                    assert(unread_by_kept(c, inner, x, protected@));
                    assert forall|j: int| k < j < b.len() && #[trigger] keep[j] implies deep_stmt(reads_of(n), b[j])
                        == 0 && deep_stmt(nonlocal_flow(), b[j]) == 0 by {
                        let y = if j < i {
                            j
                        } else {
                            j - 1
                        };
                        assert(j != i);
                        assert(keep[j] == inner[y]);
                        assert(c[y] == b[j]);
                    }
                }
            }
            assert(drops_unread(b, keep, protected@));
        },
        None => {
            let keep = Seq::new(b.len(), |i: int| true);
            selected_whole(b, keep, 0);
            assert(b.skip(0) =~= b);
            assert(drops_unread(b, keep, protected@));
        },
    }
}

} // verus!
