//! Assignments of string literals that nothing reads.
use vstd::prelude::*;

use crate::ast::{block, loop_body, range, with_loop_body, Block, Expr, ExprV, LoopHead, Stmt, StmtV};
use crate::jumps::{sole_assign, sole_var_assign};
use crate::names::NameSet;
use crate::query::{bare_targets, is_one_of, nonlocal_flow, own_reads, own_reads_up_to, var_names, NonlocalFlow};
use crate::sweeps::{before, push_stmt, terminator};
use crate::text::Text;
use crate::weight::{deep_stmt, occurs_in_stmt};

verus! {

/// What happens first to a variable.
#[derive(Debug, Clone, Copy, PartialEq, Eq, Structural)]
pub enum MarkerFlow {
    /// It is read.
    Read,
    /// It is written, or control leaves.
    Killed,
    /// Neither.
    Open,
}

/// Whether `s` itself assigns to `n`.
pub open spec fn assigns(s: StmtV, n: Text) -> bool {
    match s {
        StmtV::Assign { targets, .. } => var_names(targets).contains(n),
        StmtV::Local { names, .. } => names.contains(n),
        _ => false,
    }
}

/// Whether `s` itself assigns to `n`.
pub fn directly_writes_var(s: &Stmt, n: &str) -> (r: bool)
    ensures
        r == assigns(s@, n@),
{
    match s {
        Stmt::Assign { targets, .. } => {
            let ts = bare_targets(targets);
            is_one_of(&ts, n)
        },
        Stmt::Local { names, .. } => is_one_of(names, n),
        _ => false,
    }
}

/// What `s` does first to `n`.
pub open spec fn stmt_flow(s: StmtV, n: Text) -> MarkerFlow
    decreases s,
{
    if own_reads(s, n) > 0 {
        MarkerFlow::Read
    } else if assigns(s, n) || terminator(s) {
        MarkerFlow::Killed
    } else {
        match s {
            StmtV::If { then_body, else_body, .. } => {
                let t = block_flow(then_body, n);
                let e = block_flow(else_body, n);
                if t == MarkerFlow::Read || e == MarkerFlow::Read {
                    MarkerFlow::Read
                } else if t == MarkerFlow::Killed && e == MarkerFlow::Killed {
                    MarkerFlow::Killed
                } else {
                    MarkerFlow::Open
                }
            },
            StmtV::Loop { head: LoopHead::Repeat(_), body } => if block_flow(body, n) == MarkerFlow::Read {
                MarkerFlow::Read
            } else if surely_killed(body, n) {
                MarkerFlow::Killed
            } else {
                MarkerFlow::Open
            },
            StmtV::Loop { body, .. } => if block_flow(body, n) == MarkerFlow::Read {
                MarkerFlow::Read
            } else {
                MarkerFlow::Open
            },
            _ => MarkerFlow::Open,
        }
    }
}

/// Whether every way through `s` assigns `n` or returns.
pub open spec fn stmt_surely_kills(s: StmtV, n: Text) -> bool
    decreases s,
{
    assigns(s, n) || match s {
        StmtV::Return(_) => true,
        StmtV::If { then_body, else_body, .. } => surely_killed(then_body, n) && surely_killed(else_body, n),
        StmtV::Loop { head: LoopHead::Repeat(_), body } => surely_killed(body, n),
        _ => false,
    }
}

/// Whether every way through `b` assigns `n` or returns before it can jump, break or continue.
pub open spec fn surely_killed(b: Block, n: Text) -> bool
    decreases b,
{
    b.len() > 0 && (stmt_surely_kills(b[0], n) || (deep_stmt(nonlocal_flow(), b[0]) == 0 && surely_killed(
        b.subrange(1, b.len() as int),
        n,
    )))
}

fn stmt_kills_surely(s: &Stmt, n: &str) -> (r: bool)
    ensures
        r == stmt_surely_kills(s@, n@),
    decreases s,
{
    if directly_writes_var(s, n) {
        return true;
    }
    match s {
        Stmt::Return(_) => true,
        Stmt::If { then_body, else_body, .. } => kills_surely(then_body, n) && kills_surely(else_body, n),
        Stmt::Repeat { body, .. } => kills_surely(body, n),
        _ => false,
    }
}

fn kills_surely(b: &[Stmt], n: &str) -> (r: bool)
    ensures
        r == surely_killed(block(b@), n@),
    decreases b@,
{
    let k: usize = b.len();
    if k == 0 {
        return false;
    }
    assert(block(b@)[0] == b@[0]@);
    stmt_kills_surely(&b[0], n) || (!occurs_in_stmt(&NonlocalFlow, &b[0]) && kills_surely(range(b, 1, k), n))
}

/// What the statements of `b`, in a row, do first to `n`.
pub open spec fn block_flow(b: Block, n: Text) -> MarkerFlow
    decreases b,
{
    if b.len() == 0 {
        MarkerFlow::Open
    } else {
        match stmt_flow(b[0], n) {
            MarkerFlow::Open => block_flow(b.subrange(1, b.len() as int), n),
            f => f,
        }
    }
}

/// What the blocks, in a row, do first to `n`.
pub open spec fn blocks_flow(bs: Seq<Block>, n: Text) -> MarkerFlow
    decreases bs.len(),
{
    if bs.len() == 0 {
        MarkerFlow::Open
    } else {
        match block_flow(bs[0], n) {
            MarkerFlow::Open => blocks_flow(bs.subrange(1, bs.len() as int), n),
            f => f,
        }
    }
}

fn marker_stmt_flow(s: &Stmt, n: &str) -> (r: MarkerFlow)
    ensures
        r == stmt_flow(s@, n@),
    decreases s,
{
    if own_reads_up_to(s, n, 1) == 1 {
        return MarkerFlow::Read;
    }
    if directly_writes_var(s, n) || matches!(s, Stmt::Return(_) | Stmt::Break | Stmt::Continue | Stmt::Goto(_)) {
        return MarkerFlow::Killed;
    }
    match s {
        Stmt::If { then_body, else_body, .. } => {
            let t = marker_block_flow(then_body, n);
            let e = marker_block_flow(else_body, n);
            if t == MarkerFlow::Read || e == MarkerFlow::Read {
                MarkerFlow::Read
            } else if t == MarkerFlow::Killed && e == MarkerFlow::Killed {
                MarkerFlow::Killed
            } else {
                MarkerFlow::Open
            }
        },
        Stmt::Repeat { body, .. } => if marker_block_flow(body, n) == MarkerFlow::Read {
            MarkerFlow::Read
        } else if kills_surely(body, n) {
            MarkerFlow::Killed
        } else {
            MarkerFlow::Open
        },
        _ => match loop_body(s) {
            Some(body) => if marker_block_flow(body, n) == MarkerFlow::Read {
                MarkerFlow::Read
            } else {
                MarkerFlow::Open
            },
            None => MarkerFlow::Open,
        },
    }
}

fn marker_block_flow(b: &[Stmt], n: &str) -> (r: MarkerFlow)
    ensures
        r == block_flow(block(b@), n@),
    decreases b@,
{
    let k: usize = b.len();
    if k == 0 {
        return MarkerFlow::Open;
    }
    assert(block(b@)[0] == b@[0]@);
    match marker_stmt_flow(&b[0], n) {
        MarkerFlow::Open => marker_block_flow(range(b, 1, k), n),
        f => f,
    }
}

/// The models of several slices.
pub open spec fn slices(s: Seq<&[Stmt]>) -> Seq<Block> {
    Seq::new(s.len(), |i: int| block(s[i]@))
}

fn marker_blocks_flow(bs: &Vec<&[Stmt]>, n: &str) -> (r: MarkerFlow)
    ensures
        r == blocks_flow(slices(bs@), n@),
{
    let ghost v = slices(bs@);
    let mut i: usize = 0;
    assert(v.subrange(0, v.len() as int) =~= v);
    while i < bs.len()
        invariant
            i <= bs.len(),
            v == slices(bs@),
            blocks_flow(v, n@) == blocks_flow(v.subrange(i as int, v.len() as int), n@),
        decreases bs.len() - i,
    {
        proof {
            let t = v.subrange(i as int, v.len() as int);
            assert(t[0] == block(bs@[i as int]@));
            assert(t.subrange(1, t.len() as int) =~= v.subrange(i + 1, v.len() as int));
        }
        match marker_block_flow(bs[i], n) {
            MarkerFlow::Open => {},
            f => {
                return f;
            },
        }
        i += 1;
    }
    MarkerFlow::Open
}

/// Whether the statement at `i` assigns a string literal that nothing reads before it is
/// overwritten or control leaves; `cont` is what runs after `b`. What is assigned to a `protected`
/// name may be read elsewhere.
pub open spec fn dead_marker(b: Block, i: int, cont: Seq<Block>, protected: Seq<Text>) -> bool {
    sole_assign(b[i]) matches Some((n, ExprV::Str(_))) && !protected.contains(n) && blocks_flow(
        seq![b.subrange(i + 1, b.len() as int)] + cont,
        n,
    ) == MarkerFlow::Killed
}

/// `b` from `i` on, without such assignments.
pub open spec fn without_markers(b: Block, i: int, cont: Seq<Block>, protected: Seq<Text>) -> Block
    decreases b.len() - i,
{
    if i < 0 || i >= b.len() {
        Seq::empty()
    } else if dead_marker(b, i, cont, protected) {
        without_markers(b, i + 1, cont, protected)
    } else {
        before(b[i], without_markers(b, i + 1, cont, protected))
    }
}

/// `b`, which `cont` follows, without dead markers, also in its nested blocks.
pub open spec fn markers_removed(b: Block, cont: Seq<Block>, protected: Seq<Text>) -> Block
    decreases b, 1nat,
{
    without_markers(markers_removed_inside(b, cont, protected), 0, cont, protected)
}

pub open spec fn markers_removed_inside(b: Block, cont: Seq<Block>, protected: Seq<Text>) -> Block
    decreases b, 0nat,
{
    Seq::new(
        b.len(),
        |i: int|
            if 0 <= i < b.len() {
                markers_removed_in(b[i], seq![b.subrange(i + 1, b.len() as int)] + cont, protected)
            } else {
                StmtV::Break
            },
    )
}

/// A branch goes on with what follows its `if`; what follows a loop's body is not looked at.
pub open spec fn markers_removed_in(s: StmtV, cont: Seq<Block>, protected: Seq<Text>) -> StmtV
    decreases s, 0nat,
{
    match s {
        StmtV::If { cond, then_body, else_body } => StmtV::If {
            cond,
            then_body: markers_removed(then_body, cont, protected),
            else_body: markers_removed(else_body, cont, protected),
        },
        StmtV::Loop { head, body } => StmtV::Loop { head, body: markers_removed(body, Seq::empty(), protected) },
        _ => s,
    }
}

/// `first`, and the blocks of `cont` after it.
pub fn extended<'a>(first: &'a [Stmt], cont: &Vec<&'a [Stmt]>) -> (r: Vec<&'a [Stmt]>)
    ensures
        slices(r@) == seq![block(first@)] + slices(cont@),
{
    let mut out: Vec<&'a [Stmt]> = Vec::new();
    out.push(first);
    let mut i: usize = 0;
    while i < cont.len()
        invariant
            i <= cont.len(),
            out@.len() == i + 1,
            out@[0] == first,
            forall|j: int| 0 <= j < i ==> #[trigger] out@[j + 1] == cont@[j],
        decreases cont.len() - i,
    {
        out.push(cont[i]);
        i += 1;
    }
    assert forall|k: int| 0 <= k < out@.len() implies slices(out@)[k] == (seq![block(first@)] + slices(cont@))[k] by {
        if k > 0 {
            assert(out@[(k - 1) + 1] == cont@[k - 1]);
        }
    }
    assert(slices(out@) =~= seq![block(first@)] + slices(cont@));
    out
}

fn remove_markers_with_continuation<'a>(b: &'a [Stmt], cont: &Vec<&'a [Stmt]>, protected: &NameSet) -> (r: Vec<Stmt>)
    ensures
        block(r@) == markers_removed(block(b@), slices(cont@), protected@),
    decreases b@, 1nat,
{
    let n: usize = b.len();
    let ghost v = block(b@);
    let ghost c = slices(cont@);
    let mut inner: Vec<Stmt> = Vec::new();
    let mut i: usize = 0;
    while i < n
        invariant
            i <= n,
            n == b.len(),
            v == block(b@),
            c == slices(cont@),
            inner.len() == i,
            forall|j: int|
                0 <= j < i ==> (#[trigger] inner@[j])@ == markers_removed_in(
                    v[j],
                    seq![v.subrange(j + 1, v.len() as int)] + c,
                    protected@,
                ),
        decreases n - i,
    {
        assert(v[i as int] == b@[i as int]@);
        let child = extended(range(b, i + 1, n), cont);
        inner.push(remove_markers_in(&b[i], &child, protected));
        i += 1;
    }
    assert(block(inner@) =~= markers_removed_inside(v, c, protected@));
    sweep_markers(&inner, cont, protected)
}

fn remove_markers_in<'a>(s: &'a Stmt, cont: &Vec<&'a [Stmt]>, protected: &NameSet) -> (r: Stmt)
    ensures
        r@ == markers_removed_in(s@, slices(cont@), protected@),
    decreases s, 0nat,
{
    if let Stmt::If { cond, then_body, else_body } = s {
        Stmt::If {
            cond: cond.clone(),
            then_body: remove_markers_with_continuation(then_body, cont, protected),
            else_body: remove_markers_with_continuation(else_body, cont, protected),
        }
    } else {
        match loop_body(s) {
            Some(body) => {
                let nothing: Vec<&'a [Stmt]> = Vec::new();
                assert(slices(nothing@) =~= Seq::<Block>::empty());
                let b = remove_markers_with_continuation(body, &nothing, protected);
                with_loop_body(s, b)
            },
            None => s.clone(),
        }
    }
}

fn is_dead_marker(b: &Vec<Stmt>, i: usize, cont: &Vec<&[Stmt]>, protected: &NameSet) -> (r: bool)
    requires
        i < b.len(),
    ensures
        r == dead_marker(block(b@), i as int, slices(cont@), protected@),
{
    let n: usize = b.len();
    match sole_var_assign(&b[i]) {
        Some((name, e)) => {
            if !matches!(e, Expr::Str(_)) || protected.contains(name) {
                return false;
            }
            let rest = range(b, i + 1, n);
            let ghost all = seq![block(rest@)] + slices(cont@);
            assert(all[0] == block(rest@));
            assert(all.subrange(1, all.len() as int) =~= slices(cont@));
            let f = match marker_block_flow(rest, name) {
                MarkerFlow::Open => marker_blocks_flow(cont, name),
                f => f,
            };
            f == MarkerFlow::Killed
        },
        None => false,
    }
}

fn sweep_markers(b: &Vec<Stmt>, cont: &Vec<&[Stmt]>, protected: &NameSet) -> (r: Vec<Stmt>)
    ensures
        block(r@) == without_markers(block(b@), 0, slices(cont@), protected@),
{
    let ghost v = block(b@);
    let ghost c = slices(cont@);
    let mut out: Vec<Stmt> = Vec::new();
    let mut i: usize = 0;
    assert(block(out@) + without_markers(v, 0, c, protected@) =~= without_markers(v, 0, c, protected@));
    while i < b.len()
        invariant
            i <= b.len(),
            v == block(b@),
            c == slices(cont@),
            without_markers(v, 0, c, protected@) == block(out@) + without_markers(v, i as int, c, protected@),
        decreases b.len() - i,
    {
        assert(v[i as int] == b@[i as int]@);
        if !is_dead_marker(b, i, cont, protected) {
            let ghost o = block(out@);
            let ghost rest = without_markers(v, i + 1, c, protected@);
            push_stmt(&mut out, b[i].clone());
            assert(o + before(v[i as int], rest) =~= block(out@) + rest);
        }
        i += 1;
    }
    assert(block(out@) + Seq::<StmtV>::empty() =~= block(out@));
    out
}

/// Removes assignments of string literals to variables that are overwritten, or left behind,
/// before anything reads them. Assignments to `protected` names stay.
pub fn remove_unseen_literal_markers(root: &mut Vec<Stmt>, protected: &NameSet)
    ensures
        block(final(root)@) == markers_removed(block(old(root)@), Seq::empty(), protected@),
{
    let out = {
        let nothing: Vec<&[Stmt]> = Vec::new();
        assert(slices(nothing@) =~= Seq::<Block>::empty());
        remove_markers_with_continuation(root, &nothing, protected)
    };
    *root = out;
}

/// Removes assignments of string literals to variables that are overwritten, or left behind,
/// before anything reads them.
pub fn remove_dead_literal_markers(root: &mut Vec<Stmt>)
    ensures
        block(final(root)@) == markers_removed(block(old(root)@), Seq::empty(), Seq::empty()),
{
    remove_unseen_literal_markers(root, &NameSet::new());
}

} // verus!
