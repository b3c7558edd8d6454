//! A measure of how much there is to run through in a block.
//!
//! Statements in a row multiply, branches add up. Moving what follows an `if` into its branches
//! makes the measure smaller, although it copies statements.
use vstd::prelude::*;

use crate::ast::{spec_splice, Block, StmtV};
use crate::rules::Measure;

verus! {

/// The product of the statements' measures.
pub open spec fn paths(b: Block) -> nat
    decreases b,
{
    if b.len() == 0 {
        1
    } else {
        paths(b.drop_last()) * stmt_paths(b.last())
    }
}

pub open spec fn stmt_paths(s: StmtV) -> nat
    decreases s,
{
    match s {
        StmtV::If { then_body, else_body, .. } => paths(then_body) + paths(else_body) + 1,
        StmtV::Loop { body, .. } => paths(body) + 1,
        _ => 2,
    }
}

/// [`paths`] as a measure.
pub struct Paths;

impl Measure for Paths {
    open spec fn of(b: Block) -> nat {
        paths(b)
    }
}

pub proof fn paths_positive(b: Block)
    ensures
        paths(b) >= 1,
        b.len() > 0 ==> paths(b) >= 2,
    decreases b,
{
    if b.len() > 0 {
        let p = paths(b.drop_last());
        let q = stmt_paths(b.last());
        paths_positive(b.drop_last());
        stmt_paths_positive(b.last());
        assert(p * q >= 2) by (nonlinear_arith)
            requires
                p >= 1,
                q >= 2,
        ;
    }
}

pub proof fn stmt_paths_positive(s: StmtV)
    ensures
        stmt_paths(s) >= 2,
    decreases s,
{
    match s {
        StmtV::If { then_body, else_body, .. } => {
            paths_positive(then_body);
            paths_positive(else_body);
        },
        StmtV::Loop { body, .. } => {
            paths_positive(body);
        },
        _ => {},
    }
}

pub proof fn paths_one(s: StmtV)
    ensures
        paths(seq![s]) == stmt_paths(s),
{
    assert(seq![s].drop_last() =~= Seq::<StmtV>::empty());
    assert(paths(Seq::<StmtV>::empty()) == 1);
    assert(seq![s].last() == s);
    assert(1 * stmt_paths(s) == stmt_paths(s)) by (nonlinear_arith);
}

pub proof fn paths_concat(a: Block, b: Block)
    ensures
        paths(a + b) == paths(a) * paths(b),
    decreases b.len(),
{
    if b.len() == 0 {
        assert(a + b =~= a);
        assert(paths(a) * 1 == paths(a)) by (nonlinear_arith);
    } else {
        paths_concat(a, b.drop_last());
        assert((a + b).drop_last() =~= a + b.drop_last());
        let x = paths(a);
        let y = paths(b.drop_last());
        let z = stmt_paths(b.last());
        assert((x * y) * z == x * (y * z)) by (nonlinear_arith);
    }
}

pub proof fn paths_split(b: Block, i: int)
    requires
        0 <= i <= b.len(),
    ensures
        paths(b) == paths(b.subrange(0, i)) * paths(b.subrange(i, b.len() as int)),
{
    assert(b =~= b.subrange(0, i) + b.subrange(i, b.len() as int));
    paths_concat(b.subrange(0, i), b.subrange(i, b.len() as int));
}

/// The part of a block from `i` to `k` splits at `j`.
pub proof fn paths_range(b: Block, i: int, j: int, k: int)
    requires
        0 <= i <= j <= k <= b.len(),
    ensures
        paths(b.subrange(i, k)) == paths(b.subrange(i, j)) * paths(b.subrange(j, k)),
{
    assert(b.subrange(i, k) =~= b.subrange(i, j) + b.subrange(j, k));
    paths_concat(b.subrange(i, j), b.subrange(j, k));
}

pub proof fn paths_range_one(b: Block, i: int)
    requires
        0 <= i < b.len(),
    ensures
        paths(b.subrange(i, i + 1)) == stmt_paths(b[i]),
{
    assert(b.subrange(i, i + 1) =~= seq![b[i]]);
    paths_one(b[i]);
}

/// Replacing a stretch by one with a smaller measure makes the block's measure smaller.
pub proof fn paths_splice(b: Block, lo: int, hi: int, mid: Block)
    requires
        0 <= lo <= hi <= b.len(),
        paths(mid) < paths(b.subrange(lo, hi)),
    ensures
        paths(spec_splice(b, lo, hi, mid)) < paths(b),
{
    let l = b.subrange(0, lo);
    let m = b.subrange(lo, hi);
    let r = b.subrange(hi, b.len() as int);
    paths_concat(l + mid, r);
    paths_concat(l, mid);
    paths_split(b, hi);
    paths_range(b, 0, lo, hi);
    paths_positive(l);
    paths_positive(r);
    let x = paths(l);
    let y = paths(mid);
    let z = paths(m);
    let w = paths(r);
    assert(x * y * w < x * z * w) by (nonlinear_arith)
        requires
            y < z,
            x >= 1,
            w >= 1,
    ;
}

/// A longer stretch has the larger measure.
pub proof fn paths_subrange_le(b: Block, i: int, j: int, k: int)
    requires
        0 <= i <= j <= k <= b.len(),
    ensures
        paths(b.subrange(i, j)) <= paths(b.subrange(i, k)),
        paths(b.subrange(j, k)) <= paths(b.subrange(i, k)),
{
    paths_range(b, i, j, k);
    paths_positive(b.subrange(i, j));
    paths_positive(b.subrange(j, k));
    let x = paths(b.subrange(i, j));
    let y = paths(b.subrange(j, k));
    assert(x <= x * y && y <= x * y) by (nonlinear_arith)
        requires
            x >= 1,
            y >= 1,
    ;
}

} // verus!
