//! Whether a variable is read before it is written.
use vstd::prelude::*;

use crate::ast::{block, exprs, is_goto_to, loop_body, range, Block, Expr, ExprV, LoopHead, Stmt, StmtV};
use crate::names::{insert_sorted, NameSet};
use crate::naming::{all_pure, pure_all};
use crate::query::{
    bare_targets, collect, expr_reads, expr_reads_var, exprs_reads, exprs_reads_up_to, gotos, has_goto, is_one_of,
    var_names, writes_one_of, written_names, WritesToAny, WrittenNames,
};
use crate::text::Text;
use crate::weight::Weigh;

verus! {

/// Whether running `s` reads `n` before anything in it certainly writes `n`.
pub open spec fn reads_first(s: StmtV, n: Text) -> bool
    decreases s,
{
    match s {
        StmtV::Local { values, .. } => exprs_reads(values, n) > 0,
        StmtV::Assign { targets, values } => exprs_reads(values, n) > 0 || (!var_names(targets).contains(n)
            && exprs_reads(targets, n) > 0),
        StmtV::Call(e) => expr_reads(e, n) > 0,
        StmtV::Return(es) => exprs_reads(es, n) > 0,
        StmtV::If { cond, then_body, else_body } => expr_reads(cond, n) > 0 || block_reads_first(then_body, n)
            || block_reads_first(else_body, n),
        StmtV::Loop { head: LoopHead::While(c), body } => expr_reads(c, n) > 0 || block_reads_first(body, n),
        StmtV::Loop { head: LoopHead::Repeat(c), body } => expr_reads(c, n) > 0 || some_reads_first(body, n),
        StmtV::Loop { head: LoopHead::Numeric { start, limit, step, .. }, .. } => expr_reads(start, n) > 0
            || expr_reads(limit, n) > 0 || (step matches Some(e) && expr_reads(e, n) > 0),
        StmtV::Loop { head: LoopHead::Generic { vars, exprs }, .. } => !vars.contains(n) && exprs_reads(exprs, n)
            > 0,
        _ => false,
    }
}

/// Whether running the statements in a row reads `n` before one of them certainly writes it.
pub open spec fn block_reads_first(b: Block, n: Text) -> bool
    decreases b,
{
    b.len() > 0 && (reads_first(b[0], n) || (!writes_surely(b[0], n) && block_reads_first(
        b.subrange(1, b.len() as int),
        n,
    )))
}

/// Whether one of the statements reads `n` before writing it.
pub open spec fn some_reads_first(b: Block, n: Text) -> bool
    decreases b,
{
    exists|i: int| 0 <= i < b.len() && reads_first(#[trigger] b[i], n)
}

/// Whether running `s` writes `n` on every way through it.
pub open spec fn writes_surely(s: StmtV, n: Text) -> bool
    decreases s,
{
    match s {
        StmtV::Local { names, .. } => names.contains(n),
        StmtV::Assign { targets, .. } => var_names(targets).contains(n),
        StmtV::If { then_body, else_body, .. } => else_body.len() > 0 && block_writes_surely(then_body, n)
            && block_writes_surely(else_body, n),
        _ => false,
    }
}

pub open spec fn block_writes_surely(b: Block, n: Text) -> bool
    decreases b,
{
    exists|i: int| 0 <= i < b.len() && writes_surely(#[trigger] b[i], n)
}

pub fn stmt_definitely_writes_var(s: &Stmt, n: &str) -> (r: bool)
    ensures
        r == writes_surely(s@, n@),
    decreases s,
{
    match s {
        Stmt::Local { names, .. } => is_one_of(names, n),
        Stmt::Assign { targets, .. } => {
            let ts = bare_targets(targets);
            is_one_of(&ts, n)
        },
        Stmt::If { then_body, else_body, .. } => else_body.len() > 0 && block_definitely_writes_var(then_body, n)
            && block_definitely_writes_var(else_body, n),
        _ => false,
    }
}

fn block_definitely_writes_var(b: &[Stmt], n: &str) -> (r: bool)
    ensures
        r == block_writes_surely(block(b@), n@),
    decreases b@,
{
    let ghost v = block(b@);
    let mut i: usize = 0;
    while i < b.len()
        invariant
            i <= b.len(),
            v == block(b@),
            forall|j: int| 0 <= j < i ==> !writes_surely(#[trigger] v[j], n@),
        decreases b.len() - i,
    {
        assert(v[i as int] == b@[i as int]@);
        if stmt_definitely_writes_var(&b[i], n) {
            return true;
        }
        i += 1;
    }
    false
}

fn reads_some(es: &[Expr], n: &str) -> (r: bool)
    ensures
        r == (exprs_reads(exprs(es@), n@) > 0),
{
    exprs_reads_up_to(es, n, 1) == 1
}

pub fn stmt_reads_var_before_write(s: &Stmt, n: &str) -> (r: bool)
    ensures
        r == reads_first(s@, n@),
    decreases s,
{
    match s {
        Stmt::Local { values, .. } => reads_some(values, n),
        Stmt::Assign { targets, values } => {
            let ts = bare_targets(targets);
            reads_some(values, n) || (!is_one_of(&ts, n) && reads_some(targets, n))
        },
        Stmt::Call(e) => expr_reads_var(e, n),
        Stmt::Return(es) => reads_some(es, n),
        Stmt::If { cond, then_body, else_body } => expr_reads_var(cond, n) || block_reads_var_before_write(
            then_body,
            n,
        ) || block_reads_var_before_write(else_body, n),
        Stmt::While { cond, body } => expr_reads_var(cond, n) || block_reads_var_before_write(body, n),
        Stmt::Repeat { body, cond } => expr_reads_var(cond, n) || some_stmt_reads_before_write(body, n),
        Stmt::NumericFor { start, limit, step, .. } => expr_reads_var(start, n) || expr_reads_var(limit, n) || (
        match step {
            Some(e) => expr_reads_var(e, n),
            None => false,
        }),
        Stmt::GenericFor { vars, exprs: es, .. } => !is_one_of(vars, n) && reads_some(es, n),
        _ => false,
    }
}

fn some_stmt_reads_before_write(b: &[Stmt], n: &str) -> (r: bool)
    ensures
        r == some_reads_first(block(b@), n@),
    decreases b@,
{
    let ghost v = block(b@);
    let mut i: usize = 0;
    while i < b.len()
        invariant
            i <= b.len(),
            v == block(b@),
            forall|j: int| 0 <= j < i ==> !reads_first(#[trigger] v[j], n@),
        decreases b.len() - i,
    {
        assert(v[i as int] == b@[i as int]@);
        if stmt_reads_var_before_write(&b[i], n) {
            return true;
        }
        i += 1;
    }
    false
}

pub fn block_reads_var_before_write(b: &[Stmt], n: &str) -> (r: bool)
    ensures
        r == block_reads_first(block(b@), n@),
    decreases b@,
{
    let k: usize = b.len();
    if k == 0 {
        return false;
    }
    assert(block(b@)[0] == b@[0]@);
    if stmt_reads_var_before_write(&b[0], n) {
        return true;
    }
    if stmt_definitely_writes_var(&b[0], n) {
        return false;
    }
    block_reads_var_before_write(range(b, 1, k), n)
}

/// Whether `s` reads one of `names` before writing it.
pub open spec fn reads_any_first(s: StmtV, names: Seq<Text>) -> bool {
    exists|k: int| 0 <= k < names.len() && reads_first(s, #[trigger] names[k])
}

/// Whether `s` certainly writes one of `names`.
pub open spec fn writes_any_surely(s: StmtV, names: Seq<Text>) -> bool {
    exists|k: int| 0 <= k < names.len() && writes_surely(s, #[trigger] names[k])
}

pub fn stmt_reads_any_var_before_write(s: &Stmt, names: &NameSet) -> (r: bool)
    ensures
        r == reads_any_first(s@, names@),
{
    let mut k: usize = 0;
    while k < names.len()
        invariant
            k <= names@.len(),
            forall|j: int| 0 <= j < k ==> !reads_first(s@, #[trigger] names@[j]),
        decreases names@.len() - k,
    {
        if stmt_reads_var_before_write(s, names.get(k)) {
            return true;
        }
        k += 1;
    }
    false
}

pub fn stmt_definitely_writes_any_var(s: &Stmt, names: &NameSet) -> (r: bool)
    ensures
        r == writes_any_surely(s@, names@),
{
    let mut k: usize = 0;
    while k < names.len()
        invariant
            k <= names@.len(),
            forall|j: int| 0 <= j < k ==> !writes_surely(s@, #[trigger] names@[j]),
        decreases names@.len() - k,
    {
        if stmt_definitely_writes_var(s, names.get(k)) {
            return true;
        }
        k += 1;
    }
    false
}

/// The names written in `b`, in ascending order.
pub open spec fn writes_in(b: Block) -> Seq<Text> {
    collect(written_names(), b, Seq::empty())
}

pub fn direct_writes_in_block(b: &[Stmt]) -> (r: NameSet)
    ensures
        r@ == writes_in(block(b@)),
        r.wf(),
{
    let mut out = NameSet::new();
    crate::query::collect_names(&WrittenNames, b, &mut out);
    out
}

/// The name, where `s` is `name = value`.
pub open spec fn assigned_name(s: StmtV) -> Option<Text> {
    match s {
        StmtV::Assign { targets, values } => if targets.len() == 1 && values.len() == 1 {
            match targets[0] {
                ExprV::Var(n) => Some(n),
                _ => None,
            }
        } else {
            None
        },
        _ => None,
    }
}

pub fn single_var_assignment_target(s: &Stmt) -> (r: Option<&String>)
    ensures
        match r {
            Some(n) => assigned_name(s@) == Some(n@),
            None => assigned_name(s@) is None,
        },
{
    match s {
        Stmt::Assign { targets, values } => if targets.len() == 1 && values.len() == 1 {
            crate::ast::as_var(&targets[0])
        } else {
            None
        },
        _ => None,
    }
}

/// The names assigned directly before the jumps to `l`, put into `acc`. `None` where a jump does
/// not directly follow an assignment, or stands in a loop.
pub open spec fn names_before_gotos(b: Block, l: Text, acc: Seq<Text>) -> Option<Seq<Text>>
    decreases b,
{
    if b.len() == 0 {
        Some(acc)
    } else {
        match names_before_gotos(b.drop_last(), l, acc) {
            None => None,
            Some(a) => if b.last() == StmtV::Goto(l) {
                if b.len() < 2 {
                    None
                } else {
                    match assigned_name(b[b.len() - 2]) {
                        Some(n) => Some(insert_sorted(a, n)),
                        None => None,
                    }
                }
            } else {
                names_before_gotos_in(b.last(), l, a)
            },
        }
    }
}

pub open spec fn names_before_gotos_in(s: StmtV, l: Text, acc: Seq<Text>) -> Option<Seq<Text>>
    decreases s,
{
    match s {
        StmtV::If { then_body, else_body, .. } => match names_before_gotos(then_body, l, acc) {
            Some(a) => names_before_gotos(else_body, l, a),
            None => None,
        },
        StmtV::Loop { body, .. } => if gotos(body, l) > 0 {
            None
        } else {
            Some(acc)
        },
        _ => Some(acc),
    }
}

proof fn names_before_gotos_prefix(b: Block, l: Text, acc: Seq<Text>, i: int)
    requires
        0 <= i <= b.len(),
        names_before_gotos(b.take(i), l, acc) is None,
    ensures
        names_before_gotos(b, l, acc) is None,
    decreases b.len() - i,
{
    if i == b.len() {
        assert(b.take(i) =~= b);
    } else {
        assert(b.take(i + 1).drop_last() =~= b.take(i));
        names_before_gotos_prefix(b, l, acc, i + 1);
    }
}

pub fn collect_pre_goto_assignment_vars(b: &[Stmt], l: &str, vars: &mut NameSet) -> (r: bool)
    ensures
        r == (names_before_gotos(block(b@), l@, old(vars)@) is Some),
        r ==> names_before_gotos(block(b@), l@, old(vars)@) == Some(final(vars)@),
    decreases b@,
{
    let ghost v = block(b@);
    let ghost a0 = vars@;
    let mut i: usize = 0;
    while i < b.len()
        invariant
            i <= b.len(),
            v == block(b@),
            a0 == old(vars)@,
            names_before_gotos(v.take(i as int), l@, a0) == Some(vars@),
        decreases b.len() - i,
    {
        proof {
            let t = v.take(i + 1);
            assert(t.drop_last() =~= v.take(i as int));
            assert(t.last() == v[i as int]);
            if i > 0 {
                assert(t[t.len() - 2] == v[i - 1]);
            }
        }
        if is_goto_to(&b[i], l) {
            if i == 0 {
                proof {
                    names_before_gotos_prefix(v, l@, a0, i + 1);
                }
                return false;
            }
            match single_var_assignment_target(&b[i - 1]) {
                Some(n) => {
                    vars.insert(n);
                },
                None => {
                    proof {
                        names_before_gotos_prefix(v, l@, a0, i + 1);
                    }
                    return false;
                },
            }
        } else {
            let ok = collect_pre_goto_vars_in(&b[i], l, vars);
            if !ok {
                proof {
                    names_before_gotos_prefix(v, l@, a0, i + 1);
                }
                return false;
            }
        }
        i += 1;
    }
    assert(v.take(i as int) =~= v);
    true
}

fn collect_pre_goto_vars_in(s: &Stmt, l: &str, vars: &mut NameSet) -> (r: bool)
    ensures
        r == (names_before_gotos_in(s@, l@, old(vars)@) is Some),
        r ==> names_before_gotos_in(s@, l@, old(vars)@) == Some(final(vars)@),
    decreases s,
{
    if let Stmt::If { then_body, else_body, .. } = s {
        let a = collect_pre_goto_assignment_vars(then_body, l, vars);
        if !a {
            return false;
        }
        collect_pre_goto_assignment_vars(else_body, l, vars)
    } else {
        match loop_body(s) {
            Some(body) => !has_goto(body, l),
            None => true,
        }
    }
}

/// The one name that every jump to `l` in `b` directly follows an assignment to.
pub open spec fn join_name(b: Block, l: Text) -> Option<Text> {
    match names_before_gotos(b, l, Seq::empty()) {
        Some(ns) => if ns.len() == 1 {
            Some(ns[0])
        } else {
            None
        },
        None => None,
    }
}

pub fn orphan_join_assignment_var(b: &[Stmt], l: &str) -> (r: Option<String>)
    ensures
        crate::conditions::opt_string(r) == join_name(block(b@), l@),
{
    let mut vars = NameSet::new();
    if collect_pre_goto_assignment_vars(b, l, &mut vars) && vars.len() == 1 {
        Some(vars.get(0).clone())
    } else {
        None
    }
}

/// Whether `s` assigns effect-free values, among others to one of `names`.
pub open spec fn pure_assignment_to(s: StmtV, names: Seq<Text>) -> bool {
    match s {
        StmtV::Assign { values, .. } => values.len() > 0 && pure_all(values) && writes_one_of(s, names),
        StmtV::Local { values, .. } => values.len() > 0 && pure_all(values) && writes_one_of(s, names),
        _ => false,
    }
}

pub fn is_pure_assignment_to_any(s: &Stmt, names: &NameSet) -> (r: bool)
    ensures
        r == pure_assignment_to(s@, names@),
{
    match s {
        Stmt::Assign { values, .. } => values.len() > 0 && all_pure(values) && writes_one(s, names),
        Stmt::Local { values, .. } => values.len() > 0 && all_pure(values) && writes_one(s, names),
        _ => false,
    }
}

fn writes_one(s: &Stmt, names: &NameSet) -> (r: bool)
    ensures
        r == writes_one_of(s@, names@),
{
    let m = WritesToAny { names };
    m.weigh(s, 1) == 1
}

/// Whether `s` does something that can be seen outside the local variables.
pub open spec fn effect_outside(s: StmtV) -> bool
    decreases s,
{
    match s {
        StmtV::Call(_) => true,
        StmtV::Assign { targets, .. } => exists|i: int| 0 <= i < targets.len() && !(#[trigger] targets[i] is Var),
        StmtV::If { then_body, else_body, .. } => some_effect_outside(then_body) || some_effect_outside(
            else_body,
        ),
        _ => false,
    }
}

pub open spec fn some_effect_outside(b: Block) -> bool
    decreases b,
{
    exists|i: int| 0 <= i < b.len() && effect_outside(#[trigger] b[i])
}

pub fn has_indexed_target(es: &[Expr]) -> (r: bool)
    ensures
        r == (exists|i: int| 0 <= i < es@.len() && !(#[trigger] exprs(es@)[i] is Var)),
{
    let ghost v = exprs(es@);
    let mut i: usize = 0;
    while i < es.len()
        invariant
            i <= es.len(),
            v == exprs(es@),
            forall|j: int| 0 <= j < i ==> #[trigger] v[j] is Var,
        decreases es.len() - i,
    {
        assert(v[i as int] == es@[i as int]@);
        if !matches!(es[i], Expr::Var(_)) {
            assert(!(v[i as int] is Var));
            return true;
        }
        i += 1;
    }
    false
}

pub fn is_nonlocal_effect_stmt(s: &Stmt) -> (r: bool)
    ensures
        r == effect_outside(s@),
    decreases s,
{
    match s {
        Stmt::Call(_) => true,
        Stmt::Assign { targets, .. } => has_indexed_target(targets),
        Stmt::If { then_body, else_body, .. } => has_nonlocal_effect(then_body) || has_nonlocal_effect(else_body),
        _ => false,
    }
}

fn has_nonlocal_effect(b: &[Stmt]) -> (r: bool)
    ensures
        r == some_effect_outside(block(b@)),
    decreases b@,
{
    let ghost v = block(b@);
    let mut i: usize = 0;
    while i < b.len()
        invariant
            i <= b.len(),
            v == block(b@),
            forall|j: int| 0 <= j < i ==> !effect_outside(#[trigger] v[j]),
        decreases b.len() - i,
    {
        assert(v[i as int] == b@[i as int]@);
        if is_nonlocal_effect_stmt(&b[i]) {
            return true;
        }
        i += 1;
    }
    false
}

} // verus!
