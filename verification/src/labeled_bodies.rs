//! Jumps into labelled branches, and jumps whose label is gone.
use vstd::prelude::*;

use crate::ast::{
    block, block_eq, copy_range, is_label_of, loop_body, one, range, spec_splice, splice, with_loop_body, Block, Stmt,
    StmtV,
};
use crate::jumps::{
    block_ends_terminated, has_goto_in_nested_loop, jumps_from_loop, leaf_weight, no_jumps_no_gotos, only,
    replace_gotos, replace_gotos_fewer, replace_gotos_stmt, replace_gotos_stmt_keeps, replace_gotos_stmt_weight,
    terminated, with_gotos_replaced, with_stmt_gotos_replaced,
};
use crate::query::{
    any_goto, goto_names_members, gotos, has_goto, has_jumps, has_label, label_of, labels, one_if, LabelOf,
    LabelOrGoto,
};
use crate::rules::{
    everywhere, everywhere_same, per_label_same, rewrite_everywhere, scan_same, tree_of, tree_of_model, Gotos,
    LabelRule, Measure, NameRule, PerLabel, PerPresent, Scan,
};
use crate::skips::{contains_direct_break_continue, exits_loop};
use crate::text::Text;
use crate::weight::{
    deep, deep_at, deep_member, deep_one, deep_range_one, deep_splice, deep_stmt, occurs, occurs_in_stmt,
};

verus! {

// ---- branches that begin with a label --------------------------------------------------------

/// Whether `body` begins with the label `l`.
pub open spec fn led_by(body: Block, l: Text) -> bool {
    body.len() > 0 && body[0] == StmtV::Label(l)
}

/// `body` without its first statement.
pub open spec fn rest_of(body: Block) -> Block {
    body.subrange(1, body.len() as int)
}

/// What stands after the leading label `l` of a branch; with `terminal`, only where control does
/// not run past its end.
pub open spec fn body_after(body: Block, l: Text, terminal: bool) -> Seq<Block> {
    if led_by(body, l) && (terminal ==> terminated(rest_of(body))) {
        seq![rest_of(body)]
    } else {
        Seq::empty()
    }
}

/// The branches of the `if` statements of `b` that begin with the label `l`.
pub open spec fn labelled_bodies(b: Block, l: Text, terminal: bool) -> Seq<Block>
    decreases b.len(),
{
    if b.len() == 0 {
        Seq::empty()
    } else {
        let front = labelled_bodies(b.drop_last(), l, terminal);
        match b.last() {
            StmtV::If { then_body, else_body, .. } => front + body_after(then_body, l, terminal) + body_after(
                else_body,
                l,
                terminal,
            ),
            _ => front,
        }
    }
}

/// The models of several blocks.
pub open spec fn blocks(s: Seq<Vec<Stmt>>) -> Seq<Block> {
    Seq::new(s.len(), |i: int| block(s[i]@))
}

/// Whether `body` begins with the label.
pub fn begins_with(body: &[Stmt], l: &str) -> (r: bool)
    ensures
        r == led_by(block(body@), l@),
{
    body.len() > 0 && is_label_of(&body[0], l)
}

fn push_body_after(out: &mut Vec<Vec<Stmt>>, body: &Vec<Stmt>, l: &str, terminal: bool)
    ensures
        blocks(final(out)@) == blocks(old(out)@) + body_after(block(body@), l@, terminal),
{
    let ghost o = out@;
    if begins_with(body, l) {
        let n: usize = body.len();
        if !terminal || block_ends_terminated(range(body, 1, n)) {
            out.push(copy_range(body, 1, n));
            assert(blocks(out@) =~= blocks(o) + seq![rest_of(block(body@))]);
            return;
        }
    }
    assert(blocks(out@) =~= blocks(o) + Seq::<Block>::empty());
}

fn collect_labelled_bodies(b: &[Stmt], l: &str, terminal: bool) -> (r: Vec<Vec<Stmt>>)
    ensures
        blocks(r@) == labelled_bodies(block(b@), l@, terminal),
{
    let ghost v = block(b@);
    let mut out: Vec<Vec<Stmt>> = Vec::new();
    let mut i: usize = 0;
    assert(blocks(out@) =~= labelled_bodies(v.take(0), l@, terminal));
    while i < b.len()
        invariant
            i <= b.len(),
            v == block(b@),
            blocks(out@) == labelled_bodies(v.take(i as int), l@, terminal),
        decreases b.len() - i,
    {
        proof {
            let t = v.take(i + 1);
            assert(t.drop_last() =~= v.take(i as int));
            assert(t.last() == v[i as int]);
        }
        if let Stmt::If { then_body, else_body, .. } = &b[i] {
            push_body_after(&mut out, then_body, l, terminal);
            push_body_after(&mut out, else_body, l, terminal);
        }
        i += 1;
    }
    assert(v.take(i as int) =~= v);
    out
}

/// Labels named `l` other than the leading one of a branch.
pub open spec fn later_labels(body: Block, l: Text) -> nat {
    if led_by(body, l) {
        labels(rest_of(body), l)
    } else {
        labels(body, l)
    }
}

/// Labels named `l` other than the leading ones of the branches of `b`'s `if` statements.
pub open spec fn other_labels(b: Block, l: Text) -> nat
    decreases b.len(),
{
    if b.len() == 0 {
        0
    } else {
        other_labels(b.drop_last(), l) + match b.last() {
            StmtV::If { then_body, else_body, .. } => later_labels(then_body, l) + later_labels(else_body, l),
            s => deep_stmt(label_of(l), s),
        }
    }
}

proof fn later_labels_count(body: Block, l: Text)
    ensures
        labels(body, l) == body_after(body, l, false).len() + later_labels(body, l),
{
    if led_by(body, l) {
        deep_at(label_of(l), body, 0);
        assert(body.subrange(0, 0) =~= Seq::<StmtV>::empty());
    }
}

/// Every label is the leading one of a branch, or another one.
proof fn other_labels_count(b: Block, l: Text)
    ensures
        labels(b, l) == labelled_bodies(b, l, false).len() + other_labels(b, l),
    decreases b.len(),
{
    if b.len() > 0 {
        other_labels_count(b.drop_last(), l);
        if let StmtV::If { then_body, else_body, .. } = b.last() {
            later_labels_count(then_body, l);
            later_labels_count(else_body, l);
            assert(deep_stmt(label_of(l), b.last()) == labels(then_body, l) + labels(else_body, l));
        }
        assert(labels(b, l) == labels(b.drop_last(), l) + deep_stmt(label_of(l), b.last()));
    }
}

fn has_later_label(body: &Vec<Stmt>, l: &str) -> (r: bool)
    ensures
        r == (later_labels(block(body@), l@) > 0),
{
    if begins_with(body, l) {
        has_label(range(body, 1, body.len()), l)
    } else {
        has_label(body, l)
    }
}

fn has_other_label(b: &[Stmt], l: &str) -> (r: bool)
    ensures
        r == (other_labels(block(b@), l@) > 0),
{
    let ghost v = block(b@);
    let mut found = false;
    let mut i: usize = 0;
    while i < b.len()
        invariant
            i <= b.len(),
            v == block(b@),
            found == (other_labels(v.take(i as int), l@) > 0),
        decreases b.len() - i,
    {
        proof {
            let t = v.take(i + 1);
            assert(t.drop_last() =~= v.take(i as int));
            assert(t.last() == v[i as int]);
        }
        let hit = if let Stmt::If { then_body, else_body, .. } = &b[i] {
            has_later_label(then_body, l) || has_later_label(else_body, l)
        } else {
            occurs_in_stmt(&LabelOf { label: l }, &b[i])
        };
        found = found || hit;
        i += 1;
    }
    assert(v.take(i as int) =~= v);
    found
}

/// `body` without a leading label `l`.
pub open spec fn unled(body: Block, l: Text) -> Block {
    if led_by(body, l) {
        rest_of(body)
    } else {
        body
    }
}

/// `b` with the leading label `l` of every branch taken away.
pub open spec fn strip_labels(b: Block, l: Text) -> Block
    decreases b,
{
    Seq::new(b.len(), |i: int| if 0 <= i < b.len() { strip_labels_stmt(b[i], l) } else { StmtV::Break })
}

pub open spec fn strip_labels_stmt(s: StmtV, l: Text) -> StmtV
    decreases s,
{
    match s {
        StmtV::If { cond, then_body, else_body } => StmtV::If {
            cond,
            then_body: if led_by(then_body, l) {
                strip_labels(then_body.subrange(1, then_body.len() as int), l)
            } else {
                strip_labels(then_body, l)
            },
            else_body: if led_by(else_body, l) {
                strip_labels(else_body.subrange(1, else_body.len() as int), l)
            } else {
                strip_labels(else_body, l)
            },
        },
        StmtV::Loop { head, body } => StmtV::Loop { head, body: strip_labels(body, l) },
        _ => s,
    }
}

/// Taking labels away keeps every weight that labels and compound statements do not have.
pub proof fn strip_labels_keeps(w: spec_fn(StmtV) -> nat, b: Block, l: Text)
    requires
        leaf_weight(w),
        w(StmtV::Label(l)) == 0,
    ensures
        deep(w, strip_labels(b, l)) == deep(w, b),
    decreases b,
{
    let t = strip_labels(b, l);
    if b.len() > 0 {
        let d = b.drop_last();
        strip_labels_keeps(w, d, l);
        assert(t.drop_last() =~= strip_labels(d, l));
        let s = b.last();
        assert(s == b[b.len() - 1]);
        assert(t.last() == strip_labels_stmt(s, l));
        match s {
            StmtV::If { then_body, else_body, .. } => {
                strip_branch_keeps(w, then_body, l);
                strip_branch_keeps(w, else_body, l);
                if led_by(then_body, l) {
                    strip_labels_keeps(w, then_body.subrange(1, then_body.len() as int), l);
                } else {
                    strip_labels_keeps(w, then_body, l);
                }
                if led_by(else_body, l) {
                    strip_labels_keeps(w, else_body.subrange(1, else_body.len() as int), l);
                } else {
                    strip_labels_keeps(w, else_body, l);
                }
                assert(w(s) == 0 && w(t.last()) == 0);
            },
            StmtV::Loop { body, .. } => {
                strip_labels_keeps(w, body, l);
                assert(w(s) == 0 && w(t.last()) == 0);
            },
            _ => {},
        }
        assert(deep_stmt(w, t.last()) == deep_stmt(w, s));
        assert(deep(w, t) == deep(w, t.drop_last()) + deep_stmt(w, t.last()));
    }
}

proof fn strip_branch_keeps(w: spec_fn(StmtV) -> nat, body: Block, l: Text)
    requires
        w(StmtV::Label(l)) == 0,
    ensures
        deep(w, unled(body, l)) == deep(w, body),
{
    if led_by(body, l) {
        deep_at(w, body, 0);
        assert(body.subrange(0, 0) =~= Seq::<StmtV>::empty());
    }
}

fn strip_leading_labels_named(b: &[Stmt], l: &str) -> (r: Vec<Stmt>)
    ensures
        block(r@) == strip_labels(block(b@), l@),
    decreases b@,
{
    let mut out: Vec<Stmt> = Vec::new();
    let mut i: usize = 0;
    while i < b.len()
        invariant
            i <= b.len(),
            out.len() == i,
            forall|j: int| 0 <= j < i ==> (#[trigger] out@[j])@ == strip_labels_stmt(b@[j]@, l@),
        decreases b.len() - i,
    {
        out.push(strip_stmt(&b[i], l));
        i += 1;
    }
    assert(block(out@) =~= strip_labels(block(b@), l@));
    out
}

fn strip_stmt(s: &Stmt, l: &str) -> (r: Stmt)
    ensures
        r@ == strip_labels_stmt(s@, l@),
    decreases s,
{
    if let Stmt::If { cond, then_body, else_body } = s {
        let t = if begins_with(then_body, l) {
            strip_leading_labels_named(range(then_body, 1, then_body.len()), l)
        } else {
            strip_leading_labels_named(then_body, l)
        };
        let e = if begins_with(else_body, l) {
            strip_leading_labels_named(range(else_body, 1, else_body.len()), l)
        } else {
            strip_leading_labels_named(else_body, l)
        };
        Stmt::If { cond: cond.clone(), then_body: t, else_body: e }
    } else {
        match loop_body(s) {
            Some(body) => {
                let inner = strip_leading_labels_named(body, l);
                with_loop_body(s, inner)
            },
            None => s.clone(),
        }
    }
}

/// Jumps to a label that only leads equal branches become copies of that branch.
pub struct DuplicateBody {
    /// Whether only branches count whose end control does not run past.
    pub terminal: bool,
}

/// Whether all blocks are the same.
pub open spec fn all_equal(bs: Seq<Block>) -> bool {
    forall|i: int| 0 <= i < bs.len() ==> #[trigger] bs[i] == bs[0]
}

pub fn bodies_all_equal(bs: &Vec<Vec<Stmt>>) -> (r: bool)
    requires
        bs@.len() > 0,
    ensures
        r == all_equal(blocks(bs@)),
{
    let ghost v = blocks(bs@);
    let mut i: usize = 0;
    while i < bs.len()
        invariant
            i <= bs.len(),
            bs@.len() > 0,
            v == blocks(bs@),
            forall|j: int| 0 <= j < i ==> #[trigger] v[j] == v[0],
        decreases bs.len() - i,
    {
        assert(v[i as int] == block(bs@[i as int]@) && v[0] == block(bs@[0]@));
        if !block_eq(&bs[i], &bs[0]) {
            return false;
        }
        i += 1;
    }
    true
}

impl NameRule for DuplicateBody {
    type M = Gotos;

    open spec fn for_label(&self, b: Block, l: Text) -> Option<Block> {
        let bs = labelled_bodies(b, l, self.terminal);
        if bs.len() == 0 || bs[0].len() == 0 || has_jumps(bs[0]) || !all_equal(bs) || gotos(b, l) == 0
            || jumps_from_loop(b, l) {
            None
        } else if !self.terminal && (exits_loop(bs[0]) || labels(b, l) != bs.len()) {
            None
        } else {
            Some(strip_labels(replace_gotos(b, l, bs[0]), l))
        }
    }

    proof fn shrinks_for(&self, b: Block, l: Text) {
        let bs = labelled_bodies(b, l, self.terminal);
        if bs.len() > 0 && !has_jumps(bs[0]) {
            let g = any_goto();
            no_jumps_no_gotos(bs[0]);
            replace_gotos_fewer(b, l, bs[0]);
            assert forall|s: StmtV| s is If || s is Loop implies #[trigger] g(s) == 0 by {}
            strip_labels_keeps(g, replace_gotos(b, l, bs[0]), l);
        }
    }

    fn try_for(&self, b: &Vec<Stmt>, l: &str) -> (r: Option<Vec<Stmt>>) {
        let bs = collect_labelled_bodies(b, l, self.terminal);
        if bs.len() == 0 {
            return None;
        }
        let first = &bs[0];
        assert(blocks(bs@)[0] == block(first@));
        if first.len() == 0 || occurs(&LabelOrGoto, first) || !bodies_all_equal(&bs) || !has_goto(b, l)
            || has_goto_in_nested_loop(b, l) {
            return None;
        }
        if !self.terminal {
            proof {
                other_labels_count(block(b@), l@);
            }
            if contains_direct_break_continue(first) || has_other_label(b, l) {
                return None;
            }
        }
        let replaced = with_gotos_replaced(b, l, first);
        Some(strip_leading_labels_named(&replaced, l))
    }
}

/// Copies a labelled branch that ends the control flow to the places that jump to it.
pub fn recover_duplicate_labeled_terminal_bodies(root: &mut Vec<Stmt>)
    ensures
        block(final(root)@) == everywhere(PerPresent(DuplicateBody { terminal: true }), block(old(root)@)),
{
    *root = rewrite_everywhere(&PerPresent(DuplicateBody { terminal: true }), root);
}

/// Copies a labelled branch to the places that jump to it.
pub fn recover_duplicate_labeled_bodies(root: &mut Vec<Stmt>)
    ensures
        block(final(root)@) == everywhere(PerPresent(DuplicateBody { terminal: false }), block(old(root)@)),
{
    *root = rewrite_everywhere(&PerPresent(DuplicateBody { terminal: false }), root);
}

// ---- jumps whose label is gone ---------------------------------------------------------------

/// Weighs the jumps to labels that do not stand in `b`.
pub open spec fn goto_missing_in(b: Block) -> spec_fn(StmtV) -> nat {
    |s: StmtV| match s {
        StmtV::Goto(l) => one_if(labels(b, l) == 0),
        _ => 0,
    }
}

/// The number of jumps to labels that do not stand in the block.
pub struct MissingGotos;

impl Measure for MissingGotos {
    open spec fn of(b: Block) -> nat {
        deep(goto_missing_in(b), b)
    }
}

/// The first label from `i` on, at the top level of `b`.
pub open spec fn next_label(b: Block, i: int) -> Option<Text>
    decreases b.len() - i,
{
    if i < 0 || i >= b.len() {
        None
    } else {
        match b[i] {
            StmtV::Label(l) => Some(l),
            _ => next_label(b, i + 1),
        }
    }
}

proof fn next_label_present(b: Block, i: int)
    requires
        0 <= i,
    ensures
        next_label(b, i) matches Some(l) ==> labels(b, l) > 0,
    decreases b.len() - i,
{
    if i < b.len() {
        match b[i] {
            StmtV::Label(l) => {
                deep_member(label_of(l), b, i);
            },
            _ => {
                next_label_present(b, i + 1);
            },
        }
    }
}

fn find_next_label(b: &[Stmt], from: usize) -> (r: Option<&String>)
    requires
        from <= b.len(),
    ensures
        match r {
            Some(l) => next_label(block(b@), from as int) == Some(l@),
            None => next_label(block(b@), from as int) is None,
        },
{
    let mut i: usize = from;
    while i < b.len()
        invariant
            from <= i <= b.len(),
            next_label(block(b@), from as int) == next_label(block(b@), i as int),
        decreases b.len() - i,
    {
        if let Stmt::Label(l) = &b[i] {
            return Some(l);
        }
        i += 1;
    }
    None
}

/// Jumps to a missing label go to the next label instead.
pub struct Retarget<'a> {
    /// The whole tree.
    pub root: &'a Vec<Stmt>,
}

impl<'a> LabelRule for Retarget<'a> {
    type M = MissingGotos;

    open spec fn at_label(&self, b: Block, i: int, l: Text) -> Option<Block> {
        match next_label(b, i + 1) {
            None => None,
            Some(next) => if labels(block(self.root@), l) > 0 || labels(b, l) > 0 || jumps_from_loop(only(b[i]), l) {
                None
            } else {
                Some(spec_splice(b, i, i + 1, replace_gotos_stmt(b[i], l, only(StmtV::Goto(next)))))
            },
        }
    }

    proof fn shrinks_at_label(&self, b: Block, i: int, l: Text) {
        if let Some(next) = next_label(b, i + 1) {
            if labels(b, l) == 0 {
                let mid = replace_gotos_stmt(b[i], l, only(StmtV::Goto(next)));
                let c = spec_splice(b, i, i + 1, mid);
                next_label_present(b, i + 1);
                goto_names_members(b[i], l);
                let w = goto_missing_in(b);
                assert forall|m: Text| #[trigger] labels(c, m) == labels(b, m) by {
                    let v = label_of(m);
                    assert forall|s: StmtV| s is If || s is Loop implies #[trigger] v(s) == 0 by {}
                    deep_one(v, StmtV::Goto(next));
                    replace_gotos_stmt_keeps(v, b[i], l, only(StmtV::Goto(next)));
                    deep_splice(v, b, i, i + 1, mid);
                    deep_range_one(v, b, i);
                }
                assert(goto_missing_in(c) =~= w);
                assert forall|s: StmtV| s is If || s is Loop implies #[trigger] w(s) == 0 by {}
                deep_one(w, StmtV::Goto(next));
                replace_gotos_stmt_weight(w, b[i], l, only(StmtV::Goto(next)));
                deep_splice(w, b, i, i + 1, mid);
                deep_range_one(w, b, i);
            }
        }
    }

    fn try_at_label(&self, b: &Vec<Stmt>, i: usize, l: &str) -> (r: Option<Vec<Stmt>>) {
        match find_next_label(b, i + 1) {
            None => None,
            Some(next) => {
                let here = range(b, i, i + 1);
                assert(block(here@) =~= only(block(b@)[i as int]));
                if has_label(self.root, l) || has_label(b, l) || has_goto_in_nested_loop(here, l) {
                    return None;
                }
                let jump = one(Stmt::Goto(next.clone()));
                let mid = with_stmt_gotos_replaced(&b[i], l, &jump);
                Some(splice(b, i, i + 1, mid))
            },
        }
    }
}

/// `b`, where jumps to labels that stand nowhere in it go to the next label.
pub open spec fn retargeted(b: Block) -> Block {
    everywhere(Scan(PerLabel(Retarget { root: &tree_of(b) })), b)
}

/// Makes jumps to labels that no longer stand anywhere go to the next label.
pub fn retarget_missing_gotos_to_next_label(root: &mut Vec<Stmt>)
    ensures
        block(final(root)@) == retargeted(block(old(root)@)),
{
    let ghost other = tree_of(block(root@));
    let p = Scan(PerLabel(Retarget { root }));
    proof {
        tree_of_model(*root);
        let q = Scan(PerLabel(Retarget { root: &other }));
        per_label_same(p.0.0, q.0.0);
        scan_same(p.0, q.0);
        everywhere_same(p, q, block(root@));
    }
    let out = rewrite_everywhere(&p, root);
    *root = out;
}

} // verus!
