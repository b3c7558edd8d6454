//! Which variables to declare, and where.
use vstd::prelude::*;

use crate::ast::{block, clone_exprs, exprs, Block, Expr, ExprV, Stmt, StmtV};
use crate::names::{insert_all, NameSet};
use crate::query::{
    bare_targets, exprs_reads, exprs_reads_up_to, is_one_of, one_if, reads_of, var_names, writes_to, ReadsOf, WritesTo,
};
use crate::text::{texts, Text};
use crate::weight::{count_up_to, deep, deep_stmt, occurs_in_range};

verus! {

// ---- names to declare -----------------------------------------------------------------------------------

/// `acc` and the names that the `local` statements at the top level of `b` declare.
pub open spec fn with_declared(b: Block, acc: Seq<Text>) -> Seq<Text>
    decreases b.len(),
{
    if b.len() == 0 {
        acc
    } else {
        let front = with_declared(b.drop_last(), acc);
        match b.last() {
            StmtV::Local { names, .. } => insert_all(front, names),
            _ => front,
        }
    }
}

/// `acc` followed by those of `names` that are new and not declared.
pub open spec fn with_new(acc: Seq<Text>, declared: Seq<Text>, names: Seq<Text>) -> Seq<Text>
    decreases names.len(),
{
    if names.len() == 0 {
        acc
    } else {
        let front = with_new(acc, declared, names.drop_last());
        if declared.contains(names.last()) || front.contains(names.last()) {
            front
        } else {
            front.push(names.last())
        }
    }
}

/// The bare names that `s` itself assigns.
pub open spec fn assigned(s: StmtV) -> Seq<Text> {
    match s {
        StmtV::Assign { targets, .. } => var_names(targets),
        _ => Seq::empty(),
    }
}

/// `acc` followed by the names that `b` assigns and that are not declared, in the order in which
/// they first appear.
pub open spec fn undeclared(b: Block, declared: Seq<Text>, acc: Seq<Text>) -> Seq<Text>
    decreases b,
{
    if b.len() == 0 {
        acc
    } else {
        undeclared_in(b.last(), declared, undeclared(b.drop_last(), declared, acc))
    }
}

pub open spec fn undeclared_in(s: StmtV, declared: Seq<Text>, acc: Seq<Text>) -> Seq<Text>
    decreases s,
{
    let own = with_new(acc, declared, assigned(s));
    match s {
        StmtV::If { then_body, else_body, .. } => undeclared(else_body, declared, undeclared(then_body, declared, own)),
        StmtV::Loop { body, .. } => undeclared(body, declared, own),
        _ => own,
    }
}

/// The names that `b` needs to declare.
pub open spec fn locals_of(b: Block, exclude: Seq<Text>) -> Seq<Text> {
    undeclared(b, with_declared(b, exclude), Seq::empty())
}

fn declared_at_top(b: &[Stmt], exclude: &NameSet) -> (r: NameSet)
    ensures
        r@ == with_declared(block(b@), exclude@),
{
    let ghost v = block(b@);
    let mut acc = exclude.copy();
    let mut i: usize = 0;
    while i < b.len()
        invariant
            i <= b.len(),
            v == block(b@),
            acc@ == with_declared(v.take(i as int), exclude@),
        decreases b.len() - i,
    {
        proof {
            let t = v.take(i + 1);
            assert(t.drop_last() =~= v.take(i as int));
            assert(t.last() == v[i as int]);
            assert(v[i as int] == b@[i as int]@);
        }
        if let Stmt::Local { names, .. } = &b[i] {
            acc.insert_all(names);
        }
        i += 1;
    }
    assert(v.take(i as int) =~= v);
    acc
}

fn push_new(names: &Vec<String>, declared: &NameSet, acc: &mut Vec<String>)
    ensures
        texts(final(acc)@) == with_new(texts(old(acc)@), declared@, texts(names@)),
{
    let ghost v = texts(names@);
    let ghost a0 = texts(acc@);
    let mut i: usize = 0;
    while i < names.len()
        invariant
            i <= names.len(),
            v == texts(names@),
            a0 == texts(old(acc)@),
            texts(acc@) == with_new(a0, declared@, v.take(i as int)),
        decreases names.len() - i,
    {
        let ghost a = texts(acc@);
        proof {
            let t = v.take(i + 1);
            assert(t.drop_last() =~= v.take(i as int));
            assert(t.last() == v[i as int]);
        }
        if !declared.contains(&names[i]) && !is_one_of(acc, &names[i]) {
            acc.push(names[i].clone());
            assert(texts(acc@) =~= a.push(v[i as int]));
        }
        i += 1;
    }
    assert(v.take(i as int) =~= v);
}

fn push_undeclared(b: &[Stmt], declared: &NameSet, acc: &mut Vec<String>)
    ensures
        texts(final(acc)@) == undeclared(block(b@), declared@, texts(old(acc)@)),
    decreases b@,
{
    let ghost v = block(b@);
    let ghost a0 = texts(acc@);
    let mut i: usize = 0;
    while i < b.len()
        invariant
            i <= b.len(),
            v == block(b@),
            a0 == texts(old(acc)@),
            texts(acc@) == undeclared(v.take(i as int), declared@, a0),
        decreases b.len() - i,
    {
        proof {
            let t = v.take(i + 1);
            assert(t.drop_last() =~= v.take(i as int));
            assert(t.last() == v[i as int]);
            assert(v[i as int] == b@[i as int]@);
        }
        push_undeclared_in(&b[i], declared, acc);
        i += 1;
    }
    assert(v.take(i as int) =~= v);
}

fn push_undeclared_in(s: &Stmt, declared: &NameSet, acc: &mut Vec<String>)
    ensures
        texts(final(acc)@) == undeclared_in(s@, declared@, texts(old(acc)@)),
    decreases s,
{
    match s {
        Stmt::Assign { targets, .. } => {
            push_new(&bare_targets(targets), declared, acc);
        },
        Stmt::If { then_body, else_body, .. } => {
            push_undeclared(then_body, declared, acc);
            push_undeclared(else_body, declared, acc);
        },
        _ => {
            if let Some(body) = crate::ast::loop_body(s) {
                push_undeclared(body, declared, acc);
            }
        },
    }
}

/// The names that are assigned somewhere in the tree and are neither in `exclude` nor declared
/// at the top level, in the order in which they first appear.
pub fn assigned_locals(root: &[Stmt], exclude: &NameSet) -> (r: Vec<String>)
    ensures
        texts(r@) == locals_of(block(root@), exclude@),
{
    let declared = declared_at_top(root, exclude);
    let mut r: Vec<String> = Vec::new();
    assert(texts(r@) =~= Seq::<Text>::empty());
    push_undeclared(root, &declared, &mut r);
    r
}

/// Weighs every statement that assigns the bare name `n`.
pub open spec fn assigned_to(n: Text) -> spec_fn(StmtV) -> nat {
    |s: StmtV| one_if(assigned(s).contains(n))
}

pub proof fn with_new_members(acc: Seq<Text>, declared: Seq<Text>, names: Seq<Text>, n: Text)
    ensures
        with_new(acc, declared, names).contains(n) <==> acc.contains(n) || (names.contains(n) && !declared.contains(n)),
        acc.no_duplicates() ==> with_new(acc, declared, names).no_duplicates(),
    decreases names.len(),
{
    if names.len() > 0 {
        let front = with_new(acc, declared, names.drop_last());
        with_new_members(acc, declared, names.drop_last(), n);
        with_new_members(acc, declared, names.drop_last(), names.last());
        assert(names =~= names.drop_last().push(names.last()));
        assert(names.contains(n) <==> names.drop_last().contains(n) || n == names.last()) by {
            if names.drop_last().contains(n) {
                let i = choose|i: int| 0 <= i < names.drop_last().len() && names.drop_last()[i] == n;
                assert(names[i] == n);
            }
            if names.contains(n) && n != names.last() {
                let i = choose|i: int| 0 <= i < names.len() && names[i] == n;
                assert(names.drop_last()[i] == n);
            }
            assert(names[names.len() - 1] == names.last());
        }
        let whole = front.push(names.last());
        assert(whole.contains(n) <==> front.contains(n) || n == names.last()) by {
            if front.contains(n) {
                let i = choose|i: int| 0 <= i < front.len() && front[i] == n;
                assert(whole[i] == n);
            }
            assert(whole[front.len() as int] == names.last());
        }
    }
}

proof fn undeclared_members(b: Block, declared: Seq<Text>, acc: Seq<Text>, n: Text)
    ensures
        undeclared(b, declared, acc).contains(n) <==> acc.contains(n) || (deep(assigned_to(n), b) > 0
            && !declared.contains(n)),
        acc.no_duplicates() ==> undeclared(b, declared, acc).no_duplicates(),
    decreases b,
{
    if b.len() > 0 {
        undeclared_members(b.drop_last(), declared, acc, n);
        undeclared_in_members(b.last(), declared, undeclared(b.drop_last(), declared, acc), n);
    }
}

proof fn undeclared_in_members(s: StmtV, declared: Seq<Text>, acc: Seq<Text>, n: Text)
    ensures
        undeclared_in(s, declared, acc).contains(n) <==> acc.contains(n) || (deep_stmt(assigned_to(n), s) > 0
            && !declared.contains(n)),
        acc.no_duplicates() ==> undeclared_in(s, declared, acc).no_duplicates(),
    decreases s,
{
    let own = with_new(acc, declared, assigned(s));
    with_new_members(acc, declared, assigned(s), n);
    match s {
        StmtV::If { then_body, else_body, .. } => {
            undeclared_members(then_body, declared, own, n);
            undeclared_members(else_body, declared, undeclared(then_body, declared, own), n);
        },
        StmtV::Loop { body, .. } => {
            undeclared_members(body, declared, own, n);
        },
        _ => {},
    }
}

/// Every name that the tree assigns and nothing declares is listed once, and no other name is.
pub proof fn locals_of_members(b: Block, exclude: Seq<Text>, n: Text)
    ensures
        locals_of(b, exclude).contains(n) <==> deep(assigned_to(n), b) > 0 && !with_declared(b, exclude).contains(n),
        locals_of(b, exclude).no_duplicates(),
{
    undeclared_members(b, with_declared(b, exclude), Seq::empty(), n);
}

// ---- initializers ---------------------------------------------------------------------------------------

/// Whether every target is a bare name.
pub open spec fn all_bare(targets: Seq<ExprV>) -> bool {
    forall|i: int| 0 <= i < targets.len() ==> #[trigger] targets[i] is Var
}

/// Whether `n`, assigned at `i` with `values`, can be declared there: nothing before reads it, and
/// nothing else assigns it.
pub open spec fn declarable(b: Block, i: int, n: Text, values: Seq<ExprV>, exclude: Seq<Text>) -> bool {
    &&& !exclude.contains(n)
    &&& deep(reads_of(n), b.subrange(0, i)) == 0
    &&& deep(writes_to(n), b) == 1
    &&& exprs_reads(values, n) == 0
}

/// The statement at `i`, as a `local` where it is the first to mention the names that it assigns,
/// and nothing else assigns them.
pub open spec fn initialized_at(b: Block, i: int, exclude: Seq<Text>) -> StmtV {
    match b[i] {
        StmtV::Assign { targets, values } => if targets.len() > 0 && all_bare(targets) && (forall|k: int|
            0 <= k < targets.len() ==> declarable(b, i, #[trigger] var_names(targets)[k], values, exclude)) {
            StmtV::Local { names: var_names(targets), values }
        } else {
            b[i]
        },
        s => s,
    }
}

/// `b` with assignments at the top level made into declarations.
pub open spec fn initialized(b: Block, exclude: Seq<Text>) -> Block {
    Seq::new(b.len(), |i: int| initialized_at(b, i, exclude))
}

pub proof fn all_bare_names(targets: Seq<ExprV>)
    ensures
        all_bare(targets) <==> var_names(targets).len() == targets.len(),
        var_names(targets).len() <= targets.len(),
    decreases targets.len(),
{
    if targets.len() > 0 {
        let front = targets.drop_last();
        all_bare_names(front);
        if all_bare(front) && targets.last() is Var {
            assert forall|i: int| 0 <= i < targets.len() implies #[trigger] targets[i] is Var by {
                if i < front.len() {
                    assert(front[i] is Var);
                }
            }
        }
        if all_bare(targets) {
            assert forall|i: int| 0 <= i < front.len() implies #[trigger] front[i] is Var by {
                assert(targets[i] is Var);
            }
            assert(targets[targets.len() - 1] is Var);
        }
    }
}

fn is_declarable(b: &[Stmt], i: usize, n: &str, values: &[Expr], exclude: &NameSet) -> (r: bool)
    requires
        i < b.len(),
    ensures
        r == declarable(block(b@), i as int, n@, exprs(values@), exclude@),
{
    !exclude.contains(n) && !occurs_in_range(&ReadsOf { name: n }, b, 0, i) && count_up_to(
        &WritesTo { name: n },
        b,
        2,
    ) == 1 && exprs_reads_up_to(values, n, 1) == 0
}

fn initialize_at(b: &[Stmt], i: usize, exclude: &NameSet) -> (r: Stmt)
    requires
        i < b.len(),
    ensures
        r@ == initialized_at(block(b@), i as int, exclude@),
{
    match &b[i] {
        Stmt::Assign { targets, values } => {
            let names = bare_targets(targets);
            let ghost vs = exprs(targets@);
            assert(vs.len() == targets@.len());
            proof {
                all_bare_names(vs);
            }
            assert(texts(names@).len() == names@.len());
            if targets.len() == 0 || names.len() != targets.len() {
                return b[i].clone();
            }
            let mut k: usize = 0;
            while k < names.len()
                invariant
                    k <= names.len(),
                    i < b.len(),
                    names.len() == vs.len(),
                    block(b@)[i as int] == (StmtV::Assign { targets: vs, values: exprs(values@) }),
                    texts(names@) == var_names(vs),
                    forall|j: int|
                        0 <= j < k ==> declarable(block(b@), i as int, #[trigger] var_names(vs)[j], exprs(values@), exclude@),
                decreases names.len() - k,
            {
                assert(texts(names@)[k as int] == names@[k as int]@);
                if !is_declarable(b, i, &names[k], values, exclude) {
                    assert(!declarable(block(b@), i as int, var_names(vs)[k as int], exprs(values@), exclude@));
                    return b[i].clone();
                }
                k += 1;
            }
            Stmt::Local { names, values: clone_exprs(values) }
        },
        s => s.clone(),
    }
}

/// Makes the one assignment to a variable its declaration, where it stands at the top level and
/// nothing before it mentions the variable.
pub fn promote_top_level_initializers(root: &mut Vec<Stmt>, exclude: &NameSet)
    ensures
        block(final(root)@) == initialized(block(old(root)@), exclude@),
{
    let mut out: Vec<Stmt> = Vec::new();
    let mut i: usize = 0;
    while i < root.len()
        invariant
            i <= root.len(),
            root@ == old(root)@,
            out.len() == i,
            forall|j: int| 0 <= j < i ==> (#[trigger] out@[j])@ == initialized_at(block(root@), j, exclude@),
        decreases root.len() - i,
    {
        out.push(initialize_at(root, i, exclude));
        i += 1;
    }
    assert(block(out@) =~= initialized(block(old(root)@), exclude@));
    *root = out;
}

} // verus!
