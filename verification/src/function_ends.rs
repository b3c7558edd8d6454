//! Jumps to where the function ends.
use vstd::prelude::*;

use crate::ast::{
    block, clone_block, clone_exprs, concat, copy_range, exprs, exprs_eq, is_goto_to, is_label_of, loop_body, one,
    range, spec_splice, splice, with_loop_body, Block, Expr, ExprV, Stmt, StmtV,
};
use crate::back_loops::ends_with_goto;
use crate::conditions::{direct_local_scope_safe, scope_safe};
use crate::jumps::{
    block_ends_terminated, has_goto_in_nested_loop, jumps_from_loop, only, replace_gotos, terminated,
    with_gotos_replaced,
};
use crate::query::{
    goto_to, gotos, has_goto, has_label, label_names, label_names_in_block, label_names_members, label_of, labels,
    one_if, opt_index,
};
use crate::skips::{find_goto, position_of_goto};
use crate::text::{str_eq, Text};
use crate::weight::{deep, deep_concat, deep_one, deep_stmt};

verus! {

/// `return` without values.
pub open spec fn bare_return() -> StmtV {
    StmtV::Return(Seq::empty())
}

fn empty_return() -> (r: Stmt)
    ensures
        r@ == bare_return(),
{
    let vs: Vec<Expr> = Vec::new();
    assert(exprs(vs@) =~= Seq::<ExprV>::empty());
    Stmt::Return(vs)
}

pub fn is_empty_return(s: &Stmt) -> (r: bool)
    ensures
        r == (s@ == bare_return()),
{
    match s {
        Stmt::Return(vs) => {
            assert(exprs(vs@).len() == vs@.len());
            if vs.len() == 0 {
                assert(exprs(vs@) =~= Seq::<ExprV>::empty());
                true
            } else {
                false
            }
        },
        _ => false,
    }
}

/// The position of the last statement before a final bare `return`.
pub open spec fn last_before_return(b: Block) -> int {
    if b.len() >= 2 && b.last() == bare_return() {
        b.len() - 2
    } else {
        b.len() - 1
    }
}

// ---- a label at the very end ---------------------------------------------------------------------

/// The position and the name of a label that is the last statement, or the last before a bare
/// `return`.
pub open spec fn terminal_label(b: Block) -> Option<(int, Text)> {
    if b.len() > 0 && b.last() is Label {
        Some((b.len() - 1, b.last()->Label_0))
    } else {
        let k = last_before_return(b);
        if k >= 0 && b[k] is Label {
            Some((k, b[k]->Label_0))
        } else {
            None
        }
    }
}

/// `b` with the jumps to a terminal label turned into `return`, and without that label.
pub open spec fn terminal_gotos_returned(b: Block) -> Block {
    match terminal_label(b) {
        None => b,
        Some((k, l)) => if gotos(b, l) == 0 {
            b
        } else {
            replace_gotos(spec_splice(b, k, k + 1, Seq::empty()), l, only(bare_return()))
        },
    }
}

/// Turns jumps to a label at the end of the function into `return`.
pub fn replace_terminal_label_gotos_with_return(root: &mut Vec<Stmt>)
    ensures
        block(final(root)@) == terminal_gotos_returned(block(old(root)@)),
{
    let n: usize = root.len();
    if n == 0 {
        return;
    }
    assert(block(root@).last() == root@[n - 1]@);
    let mut k: usize = n - 1;
    if !matches!(root[n - 1], Stmt::Label(_)) && n >= 2 && is_empty_return(&root[n - 1]) {
        k = n - 2;
    }
    assert(block(root@)[k as int] == root@[k as int]@);
    let l = match &root[k] {
        Stmt::Label(l) => l.clone(),
        _ => {
            return;
        },
    };
    if !has_goto(root, &l) {
        return;
    }
    let rest = splice(root, k, k + 1, crate::ast::none());
    let ret = one(empty_return());
    *root = with_gotos_replaced(&rest, &l, &ret);
}

// ---- a small common epilogue -----------------------------------------------------------------------

/// Whether `s` may stand in an epilogue.
pub open spec fn simple(s: StmtV) -> bool {
    s is Assign || s is Call || s is Return
}

/// Whether `tail` is a small epilogue.
pub open spec fn epilogue(tail: Block) -> bool {
    0 < tail.len() <= 8 && forall|i: int| 0 <= i < tail.len() ==> simple(#[trigger] tail[i])
}

fn is_epilogue(tail: &[Stmt]) -> (r: bool)
    ensures
        r == epilogue(block(tail@)),
{
    if tail.len() == 0 || tail.len() > 8 {
        return false;
    }
    let ghost v = block(tail@);
    let mut i: usize = 0;
    while i < tail.len()
        invariant
            i <= tail.len(),
            v == block(tail@),
            forall|j: int| 0 <= j < i ==> simple(#[trigger] v[j]),
        decreases tail.len() - i,
    {
        assert(v[i as int] == tail@[i as int]@);
        if !matches!(tail[i], Stmt::Assign { .. } | Stmt::Call(_) | Stmt::Return(_)) {
            return false;
        }
        i += 1;
    }
    true
}

/// Whether at `k` stands a label that is jumped to from before and that a small epilogue follows.
pub open spec fn leads_epilogue(b: Block, k: int) -> bool {
    b[k] matches StmtV::Label(l) && epilogue(b.subrange(k + 1, b.len() as int)) && gotos(b.subrange(0, k), l) > 0
}

/// The first position from `k` on at which such a label stands.
pub open spec fn find_epilogue(b: Block, k: int) -> Option<int>
    decreases b.len() - k,
{
    if k < 0 || k >= b.len() {
        None
    } else if leads_epilogue(b, k) {
        Some(k)
    } else {
        find_epilogue(b, k + 1)
    }
}

fn position_of_epilogue(b: &[Stmt]) -> (r: Option<usize>)
    ensures
        opt_index(r) == find_epilogue(block(b@), 0),
        r matches Some(k) ==> k < b.len() && block(b@)[k as int] is Label && leads_epilogue(block(b@), k as int),
{
    let n: usize = b.len();
    let mut k: usize = 0;
    while k < n
        invariant
            k <= n,
            n == b.len(),
            find_epilogue(block(b@), 0) == find_epilogue(block(b@), k as int),
        decreases n - k,
    {
        assert(block(b@)[k as int] == b@[k as int]@);
        if let Stmt::Label(l) = &b[k] {
            if is_epilogue(range(b, k + 1, n)) && has_goto(range(b, 0, k), l) {
                return Some(k);
            }
        }
        k += 1;
    }
    None
}

/// `tail` with a `return` at its end.
pub open spec fn returning(tail: Block) -> Block {
    if terminated(tail) {
        tail
    } else {
        tail.push(bare_return())
    }
}

/// Whether `tail` can be copied to the jumps to `l` in `front`: it reads no `local` that comes
/// after the first of them.
pub open spec fn copyable_to(front: Block, l: Text, tail: Block) -> bool {
    match find_goto(front, 0, front.len() as int, l) {
        Some(f) => scope_safe(front.subrange(f + 1, front.len() as int), tail),
        None => false,
    }
}

fn can_copy_to(front: &[Stmt], l: &str, tail: &[Stmt]) -> (r: bool)
    ensures
        r == copyable_to(block(front@), l@, block(tail@)),
{
    let n: usize = front.len();
    match position_of_goto(front, 0, n, l) {
        Some(f) => direct_local_scope_safe(range(front, f + 1, n), tail),
        None => false,
    }
}

/// `b` with its epilogue copied to the jumps to it.
pub open spec fn epilogue_copied(b: Block) -> Block {
    match find_epilogue(b, 0) {
        None => b,
        Some(k) => {
            let l = b[k]->Label_0;
            let all = b.subrange(0, k);
            let front = if ends_with_goto(all, l) {
                all.drop_last()
            } else {
                all
            };
            let tail = b.subrange(k + 1, b.len() as int);
            if gotos(front, l) == 0 {
                front + tail
            } else if jumps_from_loop(front, l) || !copyable_to(front, l, tail) {
                front.push(b[k]) + tail
            } else {
                replace_gotos(front, l, returning(tail)) + tail
            }
        },
    }
}

/// Copies a small epilogue to the branches that jump to it.
pub fn replace_terminal_label_tail_gotos(root: &mut Vec<Stmt>)
    ensures
        block(final(root)@) == epilogue_copied(block(old(root)@)),
{
    let n: usize = root.len();
    let k: usize = match position_of_epilogue(root) {
        Some(k) => k,
        None => {
            return;
        },
    };
    let ghost v = block(root@);
    let l = match &root[k] {
        Stmt::Label(l) => l.clone(),
        _ => {
            return;
        },
    };
    assert(v[k as int] == StmtV::Label(l@));
    let mut m: usize = k;
    if k > 0 && is_goto_to(&root[k - 1], &l) {
        m = k - 1;
    }
    let front = copy_range(root, 0, m);
    proof {
        let all = v.subrange(0, k as int);
        if k > 0 {
            assert(all.last() == v[k - 1]);
        }
        assert(all.drop_last() =~= v.subrange(0, k - 1)) by {
            if k > 0 {
                assert(all.drop_last() =~= v.subrange(0, k - 1));
            }
        }
    }
    let mut tail = copy_range(root, k + 1, n);
    if !has_goto(&front, &l) {
        *root = concat(front, tail);
    } else if has_goto_in_nested_loop(&front, &l) || !can_copy_to(&front, &l, &tail) {
        let mut f = front;
        let ghost o = f@;
        f.push(Stmt::Label(l));
        assert(block(f@) =~= block(o).push(f@.last()@));
        *root = concat(f, tail);
    } else {
        let mut body = clone_block(&tail);
        if !block_ends_terminated(&tail) {
            let ghost o = body@;
            body.push(empty_return());
            assert(block(body@) =~= block(o).push(body@.last()@));
        }
        let new = with_gotos_replaced(&front, &l, &body);
        *root = concat(new, tail);
    }
}

/// `b` with its epilogue, which ends the function, copied to all jumps to it, also out of loops.
pub open spec fn epilogue_copied_into_loops(b: Block) -> Block {
    match find_epilogue(b, 0) {
        None => b,
        Some(k) => {
            let l = b[k]->Label_0;
            let front = b.subrange(0, k);
            let tail = b.subrange(k + 1, b.len() as int);
            if !terminated(tail) || !copyable_to(front, l, tail) {
                b
            } else {
                replace_gotos(front, l, tail) + tail
            }
        },
    }
}

/// Copies a small epilogue that ends the function to all jumps to it, also out of loops.
pub fn replace_loop_gotos_to_terminal_label_tail(root: &mut Vec<Stmt>)
    ensures
        block(final(root)@) == epilogue_copied_into_loops(block(old(root)@)),
{
    let n: usize = root.len();
    let k: usize = match position_of_epilogue(root) {
        Some(k) => k,
        None => {
            return;
        },
    };
    let l = match &root[k] {
        Stmt::Label(l) => l.clone(),
        _ => {
            return;
        },
    };
    assert(block(root@)[k as int] == StmtV::Label(l@));
    let front = copy_range(root, 0, k);
    let tail = copy_range(root, k + 1, n);
    if block_ends_terminated(&tail) && can_copy_to(&front, &l, &tail) {
        let new = with_gotos_replaced(&front, &l, &tail);
        *root = concat(new, tail);
    }
}

// ---- a final jump to nowhere -------------------------------------------------------------------------

/// `b` with a final jump to a label that stands nowhere turned into `return`.
pub open spec fn final_goto_returned(b: Block) -> Block {
    let k = if b.len() > 0 && b.last() is Goto {
        b.len() - 1
    } else {
        last_before_return(b)
    };
    if k >= 0 && b[k] is Goto && labels(b, b[k]->Goto_0) == 0 {
        spec_splice(b, k, k + 1, only(bare_return()))
    } else {
        b
    }
}

/// Turns a final jump to a label that stands nowhere into `return`.
pub fn replace_orphan_terminal_goto_with_return(root: &mut Vec<Stmt>)
    ensures
        block(final(root)@) == final_goto_returned(block(old(root)@)),
{
    let n: usize = root.len();
    if n == 0 {
        return;
    }
    assert(block(root@).last() == root@[n - 1]@);
    let mut k: usize = n - 1;
    if !matches!(root[n - 1], Stmt::Goto(_)) && n >= 2 && is_empty_return(&root[n - 1]) {
        k = n - 2;
    }
    assert(block(root@)[k as int] == root@[k as int]@);
    if let Stmt::Goto(l) = &root[k] {
        if !has_label(root, l) {
            *root = splice(root, k, k + 1, one(empty_return()));
        }
    }
}

// ---- labels that only return -------------------------------------------------------------------------

/// What is known of a label after a look at some of the statements.
#[verifier::ext_equal]
pub enum Seen {
    /// It has not been met.
    Nowhere,
    /// Wherever it stands, `return` with these values follows.
    Returns(Seq<ExprV>),
    /// It stands where something else follows.
    Otherwise,
}

/// What is known of a label after meeting it before `next`.
pub open spec fn met(st: Seen, next: Option<StmtV>) -> Seen {
    match (st, next) {
        (Seen::Nowhere, Some(StmtV::Return(vs))) => Seen::Returns(vs),
        (Seen::Returns(ws), Some(StmtV::Return(vs))) => if ws == vs {
            st
        } else {
            Seen::Otherwise
        },
        _ => Seen::Otherwise,
    }
}

/// What is known of the label `l` after a look at the statements of `b` from `i` on.
pub open spec fn seen_from(b: Block, i: int, l: Text, st: Seen) -> Seen
    decreases b, b.len() - i,
{
    if i < 0 || i >= b.len() {
        st
    } else {
        let next = if b[i] == StmtV::Label(l) {
            met(
                st,
                if i + 1 < b.len() {
                    Some(b[i + 1])
                } else {
                    None
                },
            )
        } else {
            seen_in(b[i], l, st)
        };
        seen_from(b, i + 1, l, next)
    }
}

pub open spec fn seen_in(s: StmtV, l: Text, st: Seen) -> Seen
    decreases s, 0int,
{
    match s {
        StmtV::If { then_body, else_body, .. } => seen_from(else_body, 0, l, seen_from(then_body, 0, l, st)),
        StmtV::Loop { body, .. } => seen_from(body, 0, l, st),
        _ => st,
    }
}

/// The values that are returned wherever the label `l` stands in `b`, if it does only that.
pub open spec fn returned_at(b: Block, l: Text) -> Option<Seq<ExprV>> {
    match seen_from(b, 0, l, Seen::Nowhere) {
        Seen::Returns(vs) => Some(vs),
        _ => None,
    }
}

enum SeenSoFar {
    Nowhere,
    Returns(Vec<Expr>),
    Otherwise,
}

spec fn seen_view(st: SeenSoFar) -> Seen {
    match st {
        SeenSoFar::Nowhere => Seen::Nowhere,
        SeenSoFar::Returns(vs) => Seen::Returns(exprs(vs@)),
        SeenSoFar::Otherwise => Seen::Otherwise,
    }
}

fn meet(st: SeenSoFar, next: Option<&Stmt>) -> (r: SeenSoFar)
    ensures
        seen_view(r) == met(
            seen_view(st),
            match next {
                Some(s) => Some(s@),
                None => None,
            },
        ),
{
    match next {
        Some(Stmt::Return(vs)) => match st {
            SeenSoFar::Nowhere => SeenSoFar::Returns(clone_exprs(vs)),
            SeenSoFar::Returns(ws) => if exprs_eq(&ws, vs) {
                SeenSoFar::Returns(ws)
            } else {
                SeenSoFar::Otherwise
            },
            SeenSoFar::Otherwise => SeenSoFar::Otherwise,
        },
        _ => SeenSoFar::Otherwise,
    }
}

fn look_at(b: &[Stmt], l: &str, st: SeenSoFar) -> (r: SeenSoFar)
    ensures
        seen_view(r) == seen_from(block(b@), 0, l@, seen_view(st)),
    decreases b@,
{
    let ghost v = block(b@);
    let mut cur = st;
    let mut i: usize = 0;
    while i < b.len()
        invariant
            i <= b.len(),
            v == block(b@),
            seen_from(v, 0, l@, seen_view(st)) == seen_from(v, i as int, l@, seen_view(cur)),
        decreases b.len() - i,
    {
        assert(v[i as int] == b@[i as int]@);
        if is_label_of(&b[i], l) {
            if i + 1 < b.len() {
                assert(v[i + 1] == b@[i + 1]@);
                cur = meet(cur, Some(&b[i + 1]));
            } else {
                cur = meet(cur, None);
            }
        } else {
            cur = look_in(&b[i], l, cur);
        }
        i += 1;
    }
    cur
}

fn look_in(s: &Stmt, l: &str, st: SeenSoFar) -> (r: SeenSoFar)
    ensures
        seen_view(r) == seen_in(s@, l@, seen_view(st)),
    decreases s,
{
    if let Stmt::If { then_body, else_body, .. } = s {
        let a = look_at(then_body, l, st);
        look_at(else_body, l, a)
    } else {
        match loop_body(s) {
            Some(body) => look_at(body, l, st),
            None => st,
        }
    }
}

/// A label that does not stand in `b` is not seen.
proof fn unseen(b: Block, i: int, l: Text, st: Seen)
    requires
        labels(b, l) == 0,
        0 <= i,
    ensures
        seen_from(b, i, l, st) == st,
    decreases b, b.len() - i,
{
    if i < b.len() {
        crate::weight::deep_member(crate::query::label_of(l), b, i);
        unseen_in(b[i], l, st);
        unseen(b, i + 1, l, st);
    }
}

proof fn unseen_in(s: StmtV, l: Text, st: Seen)
    requires
        crate::weight::deep_stmt(crate::query::label_of(l), s) == 0,
    ensures
        seen_in(s, l, st) == st,
    decreases s, 0int,
{
    match s {
        StmtV::If { then_body, else_body, .. } => {
            unseen(then_body, 0, l, st);
            unseen(else_body, 0, l, st);
        },
        StmtV::Loop { body, .. } => {
            unseen(body, 0, l, st);
        },
        _ => {},
    }
}

/// `b` with the jumps to labels for which `f` gives values turned into `return`, and without those
/// labels.
pub open spec fn returns_inlined(b: Block, f: spec_fn(Text) -> Option<Seq<ExprV>>) -> Block
    decreases b,
{
    if b.len() == 0 {
        Seq::empty()
    } else {
        returns_inlined(b.drop_last(), f) + returns_inlined_stmt(b.last(), f)
    }
}

pub open spec fn returns_inlined_stmt(s: StmtV, f: spec_fn(Text) -> Option<Seq<ExprV>>) -> Block
    decreases s,
{
    match s {
        StmtV::Goto(l) => match f(l) {
            Some(vs) => seq![StmtV::Return(vs)],
            None => seq![s],
        },
        StmtV::Label(l) => if f(l) is Some {
            Seq::empty()
        } else {
            seq![s]
        },
        StmtV::If { cond, then_body, else_body } => seq![
            StmtV::If {
                cond,
                then_body: returns_inlined(then_body, f),
                else_body: returns_inlined(else_body, f),
            },
        ],
        StmtV::Loop { head, body } => seq![StmtV::Loop { head, body: returns_inlined(body, f) }],
        _ => seq![s],
    }
}

/// What each label of `b` returns.
pub open spec fn return_labels(b: Block) -> spec_fn(Text) -> Option<Seq<ExprV>> {
    |l: Text| returned_at(b, l)
}

struct ReturnLabels {
    names: Vec<String>,
    values: Vec<Vec<Expr>>,
}

impl ReturnLabels {
    /// Whether the table says of every label what `f` says.
    spec fn tells(&self, f: spec_fn(Text) -> Option<Seq<ExprV>>) -> bool {
        &&& self.names@.len() == self.values@.len()
        &&& forall|k: int|
            0 <= k < self.names@.len() ==> f((#[trigger] self.names@[k])@) == Some(exprs(self.values@[k]@))
        &&& forall|l: Text| (#[trigger] f(l)) is Some ==> exists|k: int|
            0 <= k < self.names@.len() && (#[trigger] self.names@[k])@ == l
    }

    fn find(&self, l: &str, Ghost(f): Ghost<spec_fn(Text) -> Option<Seq<ExprV>>>) -> (r: Option<&Vec<Expr>>)
        requires
            self.tells(f),
        ensures
            match r {
                Some(vs) => f(l@) == Some(exprs(vs@)),
                None => f(l@) is None,
            },
    {
        let mut k: usize = 0;
        while k < self.names.len()
            invariant
                k <= self.names.len(),
                self.tells(f),
                forall|j: int| 0 <= j < k ==> (#[trigger] self.names@[j])@ != l@,
            decreases self.names.len() - k,
        {
            if str_eq(&self.names[k], l) {
                return Some(&self.values[k]);
            }
            k += 1;
        }
        None
    }
}

fn return_only_labels(root: &[Stmt]) -> (r: ReturnLabels)
    ensures
        r.tells(return_labels(block(root@))),
{
    let ghost f = return_labels(block(root@));
    let ls = label_names_in_block(root);
    let mut out = ReturnLabels { names: Vec::new(), values: Vec::new() };
    let mut k: usize = 0;
    while k < ls.len()
        invariant
            k <= ls@.len(),
            f == return_labels(block(root@)),
            ls@ == label_names(block(root@)),
            out.names@.len() == out.values@.len(),
            forall|j: int|
                0 <= j < out.names@.len() ==> f((#[trigger] out.names@[j])@) == Some(exprs(out.values@[j]@)),
            forall|j: int|
                0 <= j < k && f(#[trigger] ls@[j]) is Some ==> exists|m: int|
                    0 <= m < out.names@.len() && (#[trigger] out.names@[m])@ == ls@[j],
        decreases ls@.len() - k,
    {
        let l = ls.get(k);
        let seen = look_at(root, l, SeenSoFar::Nowhere);
        let ghost o = out.names@;
        if let SeenSoFar::Returns(vs) = seen {
            out.names.push(l.clone());
            out.values.push(vs);
            assert forall|j: int| 0 <= j < k + 1 && f(#[trigger] ls@[j]) is Some implies exists|m: int|
                0 <= m < out.names@.len() && (#[trigger] out.names@[m])@ == ls@[j] by {
                if j < k {
                    let m = choose|m: int| 0 <= m < o.len() && (#[trigger] o[m])@ == ls@[j];
                    assert(out.names@[m] == o[m]);
                } else {
                    assert(out.names@[o.len() as int]@ == ls@[j]);
                }
            }
        }
        k += 1;
    }
    assert forall|l: Text| (#[trigger] f(l)) is Some implies exists|m: int|
        0 <= m < out.names@.len() && (#[trigger] out.names@[m])@ == l by {
        label_names_members(block(root@), l);
        if labels(block(root@), l) == 0 {
            unseen(block(root@), 0, l, Seen::Nowhere);
        }
        let j = ls@.index_of(l);
        assert(ls@[j] == l);
    }
    out
}

fn inline_returns(b: &[Stmt], t: &ReturnLabels, Ghost(f): Ghost<spec_fn(Text) -> Option<Seq<ExprV>>>) -> (r: Vec<Stmt>)
    requires
        t.tells(f),
    ensures
        block(r@) == returns_inlined(block(b@), f),
    decreases b@,
{
    let ghost v = block(b@);
    let mut out: Vec<Stmt> = Vec::new();
    let mut i: usize = 0;
    assert(block(out@) =~= returns_inlined(v.take(0), f));
    while i < b.len()
        invariant
            i <= b.len(),
            v == block(b@),
            t.tells(f),
            block(out@) == returns_inlined(v.take(i as int), f),
        decreases b.len() - i,
    {
        proof {
            let u = v.take(i + 1);
            assert(u.drop_last() =~= v.take(i as int));
            assert(u.last() == v[i as int]);
        }
        let part = inline_returns_in(&b[i], t, Ghost(f));
        out = concat(out, part);
        i += 1;
    }
    assert(v.take(i as int) =~= v);
    out
}

fn inline_returns_in(s: &Stmt, t: &ReturnLabels, Ghost(f): Ghost<spec_fn(Text) -> Option<Seq<ExprV>>>) -> (r: Vec<
    Stmt,
>)
    requires
        t.tells(f),
    ensures
        block(r@) == returns_inlined_stmt(s@, f),
    decreases s,
{
    match s {
        Stmt::Goto(l) => match t.find(l, Ghost(f)) {
            Some(vs) => one(Stmt::Return(clone_exprs(vs))),
            None => one(s.clone()),
        },
        Stmt::Label(l) => match t.find(l, Ghost(f)) {
            Some(_) => crate::ast::none(),
            None => one(s.clone()),
        },
        Stmt::If { cond, then_body, else_body } => one(
            Stmt::If {
                cond: cond.clone(),
                then_body: inline_returns(then_body, t, Ghost(f)),
                else_body: inline_returns(else_body, t, Ghost(f)),
            },
        ),
        _ => match loop_body(s) {
            Some(body) => {
                let b = inline_returns(body, t, Ghost(f));
                one(with_loop_body(s, b))
            },
            None => one(s.clone()),
        },
    }
}

/// Turns jumps to labels that are directly followed by a `return` into that `return`.
pub fn replace_return_label_gotos(root: &mut Vec<Stmt>)
    ensures
        block(final(root)@) == returns_inlined(block(old(root)@), return_labels(block(old(root)@))),
{
    let t = return_only_labels(root);
    let ghost f = return_labels(block(root@));
    *root = inline_returns(root, &t, Ghost(f));
}

// ---- what becomes of labels and jumps -----------------------------------------------------------------

/// Whether, if the label `l` stands at `k`, `return` with the values `vs` follows.
pub open spec fn returns_at(b: Block, k: int, l: Text, vs: Seq<ExprV>) -> bool {
    b[k] == StmtV::Label(l) ==> k + 1 < b.len() && b[k + 1] == StmtV::Return(vs)
}

/// Whether `return` with the values `vs` follows wherever the label `l` stands in `b`.
pub open spec fn always_returns(b: Block, l: Text, vs: Seq<ExprV>) -> bool
    decreases b, 1nat,
{
    forall|k: int| 0 <= k < b.len() ==> #[trigger] returns_at(b, k, l, vs) && always_returns_in(b[k], l, vs)
}

pub open spec fn always_returns_in(s: StmtV, l: Text, vs: Seq<ExprV>) -> bool
    decreases s, 0nat,
{
    match s {
        StmtV::If { then_body, else_body, .. } => always_returns(then_body, l, vs) && always_returns(else_body, l, vs),
        StmtV::Loop { body, .. } => always_returns(body, l, vs),
        _ => true,
    }
}

proof fn seen_exactly(b: Block, i: int, l: Text, st: Seen, vs: Seq<ExprV>)
    requires
        0 <= i <= b.len(),
    ensures
        ({
            let end = seen_from(b, i, l, st);
            let count = deep(label_of(l), b.skip(i));
            let all = forall|k: int| i <= k < b.len() ==> #[trigger] returns_at(b, k, l, vs) && always_returns_in(b[k], l, vs);
            &&& end == Seen::Returns(vs) <==> ((st is Nowhere && count > 0) || st == Seen::Returns(vs)) && all
            &&& end is Nowhere <==> st is Nowhere && count == 0
            &&& count == 0 ==> all
        }),
    decreases b, b.len() - i,
{
    let w = label_of(l);
    let end = seen_from(b, i, l, st);
    let all = forall|k: int| i <= k < b.len() ==> #[trigger] returns_at(b, k, l, vs) && always_returns_in(b[k], l, vs);
    if i < b.len() {
        let rest = forall|k: int| i + 1 <= k < b.len() ==> #[trigger] returns_at(b, k, l, vs) && always_returns_in(b[k], l, vs);
        let next = if b[i] == StmtV::Label(l) {
            met(
                st,
                if i + 1 < b.len() {
                    Some(b[i + 1])
                } else {
                    None
                },
            )
        } else {
            seen_in(b[i], l, st)
        };
        assert(b.skip(i) =~= seq![b[i]] + b.skip(i + 1));
        deep_concat(w, seq![b[i]], b.skip(i + 1));
        deep_one(w, b[i]);
        seen_exactly(b, i + 1, l, next, vs);
        seen_exactly_in(b[i], l, st, vs);
        assert(all <==> returns_at(b, i, l, vs) && always_returns_in(b[i], l, vs) && rest) by {
            if all {
                assert(returns_at(b, i, l, vs));
            }
            if returns_at(b, i, l, vs) && always_returns_in(b[i], l, vs) && rest {
                assert forall|k: int| i <= k < b.len() implies #[trigger] returns_at(b, k, l, vs) && always_returns_in(b[k], l, vs) by {
                    if k > i {
                        assert(i + 1 <= k);
                    }
                }
            }
        }
    } else {
        assert(b.skip(i) =~= Seq::<StmtV>::empty());
    }
}

proof fn seen_exactly_in(s: StmtV, l: Text, st: Seen, vs: Seq<ExprV>)
    ensures
        s != StmtV::Label(l) ==> {
            let end = seen_in(s, l, st);
            let count = deep_stmt(label_of(l), s);
            let all = always_returns_in(s, l, vs);
            &&& end == Seen::Returns(vs) <==> ((st is Nowhere && count > 0) || st == Seen::Returns(vs)) && all
            &&& end is Nowhere <==> st is Nowhere && count == 0
            &&& count == 0 ==> all
        },
    decreases s, 0int,
{
    match s {
        StmtV::If { then_body, else_body, .. } => {
            let mid = seen_from(then_body, 0, l, st);
            seen_exactly(then_body, 0, l, st, vs);
            seen_exactly(else_body, 0, l, mid, vs);
            always_returns_each(then_body, l, vs);
            always_returns_each(else_body, l, vs);
            assert(then_body.skip(0) =~= then_body);
            assert(else_body.skip(0) =~= else_body);
        },
        StmtV::Loop { body, .. } => {
            seen_exactly(body, 0, l, st, vs);
            always_returns_each(body, l, vs);
            assert(body.skip(0) =~= body);
        },
        _ => {},
    }
}

proof fn always_returns_each(b: Block, l: Text, vs: Seq<ExprV>)
    ensures
        always_returns(b, l, vs) <==> forall|k: int|
            0 <= k < b.len() ==> #[trigger] returns_at(b, k, l, vs) && always_returns_in(b[k], l, vs),
{
    if always_returns(b, l, vs) {
        assert forall|k: int| 0 <= k < b.len() implies #[trigger] returns_at(b, k, l, vs) && always_returns_in(
            b[k],
            l,
            vs,
        ) by {}
    }
}

/// Weighs every `return` with the values `vs`.
pub open spec fn return_of(vs: Seq<ExprV>) -> spec_fn(StmtV) -> nat {
    |s: StmtV| one_if(s == StmtV::Return(vs))
}

/// Weighs every jump to a label for which `f` gives the values `vs`.
pub open spec fn goto_returning(f: spec_fn(Text) -> Option<Seq<ExprV>>, vs: Seq<ExprV>) -> spec_fn(StmtV) -> nat {
    |s: StmtV| one_if(s matches StmtV::Goto(l) && f(l) == Some(vs))
}

proof fn returns_inlined_counts(b: Block, f: spec_fn(Text) -> Option<Seq<ExprV>>, l: Text, vs: Seq<ExprV>)
    ensures
        ({
            let r = returns_inlined(b, f);
            &&& gotos(r, l) == if f(l) is Some { 0 } else { gotos(b, l) }
            &&& labels(r, l) == if f(l) is Some { 0 } else { labels(b, l) }
            &&& deep(return_of(vs), r) == deep(return_of(vs), b) + deep(goto_returning(f, vs), b)
        }),
    decreases b,
{
    if b.len() > 0 {
        let front = returns_inlined(b.drop_last(), f);
        let last = returns_inlined_stmt(b.last(), f);
        returns_inlined_counts(b.drop_last(), f, l, vs);
        stmt_returns_inlined_counts(b.last(), f, l, vs);
        deep_concat(goto_to(l), front, last);
        deep_concat(label_of(l), front, last);
        deep_concat(return_of(vs), front, last);
    }
}

proof fn stmt_returns_inlined_counts(s: StmtV, f: spec_fn(Text) -> Option<Seq<ExprV>>, l: Text, vs: Seq<ExprV>)
    ensures
        ({
            let r = returns_inlined_stmt(s, f);
            &&& gotos(r, l) == if f(l) is Some { 0 } else { deep_stmt(goto_to(l), s) }
            &&& labels(r, l) == if f(l) is Some { 0 } else { deep_stmt(label_of(l), s) }
            &&& deep(return_of(vs), r) == deep_stmt(return_of(vs), s) + deep_stmt(goto_returning(f, vs), s)
        }),
    decreases s,
{
    let r = returns_inlined_stmt(s, f);
    match s {
        StmtV::If { then_body, else_body, .. } => {
            returns_inlined_counts(then_body, f, l, vs);
            returns_inlined_counts(else_body, f, l, vs);
        },
        StmtV::Loop { body, .. } => {
            returns_inlined_counts(body, f, l, vs);
        },
        _ => {},
    }
    if r.len() > 0 {
        assert(r =~= seq![r[0]]);
        deep_one(goto_to(l), r[0]);
        deep_one(label_of(l), r[0]);
        deep_one(return_of(vs), r[0]);
    }
}

/// Of a label that stands only before `return` with the same values, no label and no jump is left.
/// Every jump to one has become its `return`. All other labels and jumps stay.
pub proof fn return_labels_resolved(b: Block, l: Text, vs: Seq<ExprV>)
    ensures
        return_labels(b)(l) == Some(vs) <==> labels(b, l) > 0 && always_returns(b, l, vs),
        ({
            let f = return_labels(b);
            let r = returns_inlined(b, f);
            &&& f(l) is Some ==> gotos(r, l) == 0 && labels(r, l) == 0
            &&& f(l) is None ==> gotos(r, l) == gotos(b, l) && labels(r, l) == labels(b, l)
            &&& deep(return_of(vs), r) == deep(return_of(vs), b) + deep(goto_returning(f, vs), b)
        }),
{
    seen_exactly(b, 0, l, Seen::Nowhere, vs);
    always_returns_each(b, l, vs);
    assert(b.skip(0) =~= b);
    returns_inlined_counts(b, return_labels(b), l, vs);
}

} // verus!
