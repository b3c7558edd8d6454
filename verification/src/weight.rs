//! Sums over all statements of a block, nested ones included.
//!
//! Most questions that the passes ask ("does this block jump to `L`?", "how often is `x` read?")
//! are sums of a weight over every statement, however deeply it is nested.
use vstd::prelude::*;

use crate::ast::{block, loop_body, range, spec_splice, Block, Stmt, StmtV};

verus! {

/// The sum of `w` over all statements of `b`.
pub open spec fn deep(w: spec_fn(StmtV) -> nat, b: Block) -> nat
    decreases b,
{
    if b.len() == 0 {
        0
    } else {
        deep(w, b.drop_last()) + deep_stmt(w, b.last())
    }
}

/// The sum of `w` over `s` and all statements inside it.
pub open spec fn deep_stmt(w: spec_fn(StmtV) -> nat, s: StmtV) -> nat
    decreases s,
{
    w(s) + match s {
        StmtV::If { then_body, else_body, .. } => deep(w, then_body) + deep(w, else_body),
        StmtV::Loop { body, .. } => deep(w, body),
        _ => 0,
    }
}

/// The smaller of two numbers.
pub open spec fn at_most(n: nat, cap: nat) -> nat {
    if n <= cap {
        n
    } else {
        cap
    }
}

pub proof fn deep_one(w: spec_fn(StmtV) -> nat, s: StmtV)
    ensures
        deep(w, seq![s]) == deep_stmt(w, s),
{
    assert(seq![s].drop_last() =~= Seq::<StmtV>::empty());
    assert(seq![s].last() == s);
    assert(deep(w, Seq::<StmtV>::empty()) == 0);
}

pub proof fn deep_push(w: spec_fn(StmtV) -> nat, b: Block, s: StmtV)
    ensures
        deep(w, b.push(s)) == deep(w, b) + deep_stmt(w, s),
{
    assert(b.push(s).drop_last() =~= b);
}

pub proof fn deep_concat(w: spec_fn(StmtV) -> nat, a: Block, b: Block)
    ensures
        deep(w, a + b) == deep(w, a) + deep(w, b),
    decreases b.len(),
{
    if b.len() == 0 {
        assert(a + b =~= a);
    } else {
        deep_concat(w, a, b.drop_last());
        assert((a + b).drop_last() =~= a + b.drop_last());
        assert((a + b).last() == b.last());
    }
}

/// A block splits at any position.
pub proof fn deep_split(w: spec_fn(StmtV) -> nat, b: Block, i: int)
    requires
        0 <= i <= b.len(),
    ensures
        deep(w, b) == deep(w, b.subrange(0, i)) + deep(w, b.subrange(i, b.len() as int)),
{
    assert(b =~= b.subrange(0, i) + b.subrange(i, b.len() as int));
    deep_concat(w, b.subrange(0, i), b.subrange(i, b.len() as int));
}

/// A block splits around any statement.
pub proof fn deep_at(w: spec_fn(StmtV) -> nat, b: Block, i: int)
    requires
        0 <= i < b.len(),
    ensures
        deep(w, b) == deep(w, b.subrange(0, i)) + deep_stmt(w, b[i]) + deep(
            w,
            b.subrange(i + 1, b.len() as int),
        ),
{
    deep_split(w, b, i);
    let t = b.subrange(i, b.len() as int);
    deep_split(w, t, 1);
    assert(t.subrange(0, 1) =~= seq![b[i]]);
    assert(t.subrange(1, t.len() as int) =~= b.subrange(i + 1, b.len() as int));
    deep_one(w, b[i]);
}

/// The part of a block from `i` to `k` splits at `j`.
pub proof fn deep_range(w: spec_fn(StmtV) -> nat, b: Block, i: int, j: int, k: int)
    requires
        0 <= i <= j <= k <= b.len(),
    ensures
        deep(w, b.subrange(i, k)) == deep(w, b.subrange(i, j)) + deep(w, b.subrange(j, k)),
{
    let t = b.subrange(i, k);
    deep_split(w, t, j - i);
    assert(t.subrange(0, j - i) =~= b.subrange(i, j));
    assert(t.subrange(j - i, t.len() as int) =~= b.subrange(j, k));
}

pub proof fn deep_range_one(w: spec_fn(StmtV) -> nat, b: Block, i: int)
    requires
        0 <= i < b.len(),
    ensures
        deep(w, b.subrange(i, i + 1)) == deep_stmt(w, b[i]),
{
    assert(b.subrange(i, i + 1) =~= seq![b[i]]);
    deep_one(w, b[i]);
}

/// What a splice does to the sum.
pub proof fn deep_splice(w: spec_fn(StmtV) -> nat, b: Block, lo: int, hi: int, mid: Block)
    requires
        0 <= lo <= hi <= b.len(),
    ensures
        deep(w, spec_splice(b, lo, hi, mid)) + deep(w, b.subrange(lo, hi)) == deep(w, b) + deep(w, mid),
{
    let l = b.subrange(0, lo);
    let r = b.subrange(hi, b.len() as int);
    deep_concat(w, l + mid, r);
    deep_concat(w, l, mid);
    deep_split(w, b, hi);
    deep_range(w, b, 0, lo, hi);
}

/// No statement of a block weighs more than the block.
pub proof fn deep_member(w: spec_fn(StmtV) -> nat, b: Block, i: int)
    requires
        0 <= i < b.len(),
    ensures
        deep_stmt(w, b[i]) <= deep(w, b),
{
    deep_at(w, b, i);
}

/// A larger weight gives a larger sum.
pub proof fn deep_le(v: spec_fn(StmtV) -> nat, w: spec_fn(StmtV) -> nat, b: Block)
    requires
        forall|s: StmtV| #[trigger] v(s) <= w(s),
    ensures
        deep(v, b) <= deep(w, b),
    decreases b,
{
    if b.len() > 0 {
        deep_le(v, w, b.drop_last());
        deep_stmt_le(v, w, b.last());
    }
}

pub proof fn deep_stmt_le(v: spec_fn(StmtV) -> nat, w: spec_fn(StmtV) -> nat, s: StmtV)
    requires
        forall|s: StmtV| #[trigger] v(s) <= w(s),
    ensures
        deep_stmt(v, s) <= deep_stmt(w, s),
    decreases s,
{
    match s {
        StmtV::If { then_body, else_body, .. } => {
            deep_le(v, w, then_body);
            deep_le(v, w, else_body);
        },
        StmtV::Loop { body, .. } => {
            deep_le(v, w, body);
        },
        _ => {},
    }
}

/// A weight that can be computed.
pub trait Weigh {
    /// The weight of one statement, without those inside it.
    spec fn weight(&self) -> spec_fn(StmtV) -> nat;

    /// The weight of one statement, cut off at `cap`.
    fn weigh(&self, s: &Stmt, cap: usize) -> (r: usize)
        ensures
            r == at_most((self.weight())(s@), cap as nat),
    ;
}

/// The sum of two numbers, cut off at `cap`.
pub fn cut_off(a: usize, b: usize, cap: usize) -> (r: usize)
    requires
        a <= cap,
        b <= cap,
    ensures
        r == at_most((a + b) as nat, cap as nat),
{
    if b > cap - a {
        cap
    } else {
        a + b
    }
}

/// The sum of `m` over `b`, cut off at `cap`.
pub fn count_up_to<M: Weigh>(m: &M, b: &[Stmt], cap: usize) -> (r: usize)
    ensures
        r == at_most(deep(m.weight(), block(b@)), cap as nat),
    decreases b@,
{
    let ghost v = block(b@);
    let ghost w = m.weight();
    let mut n: usize = 0;
    let mut i: usize = 0;
    assert(v.take(0) =~= Seq::<StmtV>::empty());
    while i < b.len()
        invariant
            i <= b.len(),
            v == block(b@),
            w == m.weight(),
            n == at_most(deep(w, v.take(i as int)), cap as nat),
        decreases b.len() - i,
    {
        let k: usize = count_stmt_up_to(m, &b[i], cap);
        proof {
            let t = v.take(i + 1);
            assert(t.drop_last() =~= v.take(i as int));
            assert(t.last() == v[i as int]);
        }
        n = cut_off(n, k, cap);
        i += 1;
    }
    assert(v.take(i as int) =~= v);
    n
}

/// The sum of `m` over `s` and what is inside it, cut off at `cap`.
pub fn count_stmt_up_to<M: Weigh>(m: &M, s: &Stmt, cap: usize) -> (r: usize)
    ensures
        r == at_most(deep_stmt(m.weight(), s@), cap as nat),
    decreases s,
{
    let k: usize = m.weigh(s, cap);
    if let Stmt::If { then_body, else_body, .. } = s {
        let a: usize = count_up_to(m, then_body, cap);
        let b: usize = count_up_to(m, else_body, cap);
        cut_off(k, cut_off(a, b, cap), cap)
    } else {
        match loop_body(s) {
            Some(body) => {
                let a: usize = count_up_to(m, body, cap);
                cut_off(k, a, cap)
            },
            None => k,
        }
    }
}

/// Whether `m` weighs anything in `b`.
pub fn occurs<M: Weigh>(m: &M, b: &[Stmt]) -> (r: bool)
    ensures
        r == (deep(m.weight(), block(b@)) > 0),
{
    count_up_to(m, b, 1) == 1
}

/// Whether `m` weighs anything in `s` or inside it.
pub fn occurs_in_stmt<M: Weigh>(m: &M, s: &Stmt) -> (r: bool)
    ensures
        r == (deep_stmt(m.weight(), s@) > 0),
{
    count_stmt_up_to(m, s, 1) == 1
}

/// Whether `m` weighs anything in `b[lo..hi]`.
pub fn occurs_in_range<M: Weigh>(m: &M, b: &[Stmt], lo: usize, hi: usize) -> (r: bool)
    requires
        lo <= hi <= b@.len(),
    ensures
        r == (deep(m.weight(), block(b@).subrange(lo as int, hi as int)) > 0),
{
    occurs(m, range(b, lo, hi))
}

/// Puts a mark on `marks` for every statement of `b` that `m` weighs.
pub fn mark_all<M: Weigh>(m: &M, b: &[Stmt], marks: &mut Vec<bool>)
    requires
        forall|s: StmtV| (#[trigger] (m.weight())(s)) <= 1,
    ensures
        final(marks)@.len() == old(marks)@.len() + deep(m.weight(), block(b@)),
    decreases b@,
{
    let ghost v = block(b@);
    let ghost k = marks@.len();
    let mut i: usize = 0;
    while i < b.len()
        invariant
            i <= b.len(),
            v == block(b@),
            forall|s: StmtV| (#[trigger] (m.weight())(s)) <= 1,
            marks@.len() == k + deep(m.weight(), v.take(i as int)),
        decreases b.len() - i,
    {
        proof {
            let t = v.take(i + 1);
            assert(t.drop_last() =~= v.take(i as int));
            assert(t.last() == v[i as int]);
        }
        mark_stmt(m, &b[i], marks);
        i += 1;
    }
    assert(v.take(i as int) =~= v);
}

/// Puts a mark on `marks` for `s` and every statement inside it that `m` weighs.
pub fn mark_stmt<M: Weigh>(m: &M, s: &Stmt, marks: &mut Vec<bool>)
    requires
        forall|s: StmtV| (#[trigger] (m.weight())(s)) <= 1,
    ensures
        final(marks)@.len() == old(marks)@.len() + deep_stmt(m.weight(), s@),
    decreases s,
{
    assert((m.weight())(s@) <= 1);
    if m.weigh(s, 1) == 1 {
        marks.push(true);
    }
    if let Stmt::If { then_body, else_body, .. } = s {
        mark_all(m, then_body, marks);
        mark_all(m, else_body, marks);
    } else {
        match loop_body(s) {
            Some(body) => mark_all(m, body, marks),
            None => {},
        }
    }
}

} // verus!
