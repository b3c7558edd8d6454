//! `x = a and b or c`.
use vstd::prelude::*;

use crate::ast::{
    as_var, block, exprs, is_label_of, one, one_expr, opt_block, spec_splice, splice, Block, Expr, ExprV, Stmt, StmtV,
};
use crate::conditions::{binary, binary_expr};
use crate::jumps::only;
use crate::query::{has_label, labels};
use crate::rules::{run_throughout, throughout, throughout_same, tree_of, tree_of_model, Pass};
use crate::sweeps::{assign, make_assign};
use crate::text::{str_eq, trim_char, trimmed, Text};

verus! {

/// `c and x or y`
pub open spec fn ternary(c: ExprV, x: ExprV, y: ExprV) -> ExprV {
    binary("or"@, binary("and"@, c, x), y)
}

fn make_ternary(c: &Expr, x: &Expr, y: &Expr) -> (r: Expr)
    ensures
        r@ == ternary(c@, x@, y@),
{
    let a = binary_expr("and", c.clone(), x.clone());
    binary_expr("or", a, y.clone())
}

/// The name and the value, where `s` is `name = value`.
pub open spec fn assignment(s: StmtV) -> Option<(Text, ExprV)> {
    match s {
        StmtV::Assign { targets, values } => if targets.len() == 1 && values.len() == 1 {
            match targets[0] {
                ExprV::Var(n) => Some((n, values[0])),
                _ => None,
            }
        } else {
            None
        },
        _ => None,
    }
}

fn as_assignment(s: &Stmt) -> (r: Option<(&String, &Expr)>)
    ensures
        match r {
            Some((n, e)) => assignment(s@) == Some((n@, e@)),
            None => assignment(s@) is None,
        },
{
    match s {
        Stmt::Assign { targets, values } => {
            assert(exprs(targets@).len() == targets@.len() && exprs(values@).len() == values@.len());
            if targets.len() == 1 && values.len() == 1 {
                assert(exprs(targets@)[0] == targets@[0]@ && exprs(values@)[0] == values@[0]@);
                match as_var(&targets[0]) {
                    Some(n) => Some((n, &values[0])),
                    None => None,
                }
            } else {
                None
            }
        },
        _ => None,
    }
}

/// The condition and the label, where `s` is `if cond then goto label end`.
pub open spec fn plain_guard(s: StmtV) -> Option<(ExprV, Text)> {
    match s {
        StmtV::If { cond, then_body, else_body } => if else_body.len() == 0 && then_body.len() == 1
            && then_body[0] is Goto {
            Some((cond, then_body[0]->Goto_0))
        } else {
            None
        },
        _ => None,
    }
}

fn as_plain_guard(s: &Stmt) -> (r: Option<(&Expr, &String)>)
    ensures
        match r {
            Some((c, l)) => plain_guard(s@) == Some((c@, l@)),
            None => plain_guard(s@) is None,
        },
{
    match s {
        Stmt::If { cond, then_body, else_body } => {
            assert(block(else_body@).len() == else_body@.len());
            assert(block(then_body@).len() == then_body@.len());
            if else_body.len() == 0 && then_body.len() == 1 {
                assert(block(then_body@)[0] == then_body@[0]@);
                match &then_body[0] {
                    Stmt::Goto(l) => Some((cond, l)),
                    _ => None,
                }
            } else {
                None
            }
        },
        _ => None,
    }
}

/// `if c then z = x; if z then goto L end end; z = y; ::L::` is `z = c and x or y`.
pub open spec fn joined_and_or(s0: StmtV, s1: StmtV, s2: StmtV) -> Option<StmtV> {
    match s0 {
        StmtV::If { cond, then_body, else_body } => if else_body.len() > 0 || then_body.len() != 2 {
            None
        } else {
            match (assignment(then_body[0]), plain_guard(then_body[1]), assignment(s1)) {
                (Some((z, x)), Some((c, l)), Some((z2, y))) => if c == ExprV::Var(z) && z2 == z && s2 == StmtV::Label(
                    l,
                ) {
                    Some(assign(z, ternary(cond, x, y)))
                } else {
                    None
                },
                _ => None,
            }
        },
        _ => None,
    }
}

fn match_and_or(s0: &Stmt, s1: &Stmt, s2: &Stmt) -> (r: Option<Stmt>)
    ensures
        match r {
            Some(s) => joined_and_or(s0@, s1@, s2@) == Some(s@),
            None => joined_and_or(s0@, s1@, s2@) is None,
        },
{
    match s0 {
        Stmt::If { cond, then_body, else_body } => {
            assert(block(else_body@).len() == else_body@.len());
            assert(block(then_body@).len() == then_body@.len());
            if else_body.len() > 0 || then_body.len() != 2 {
                return None;
            }
            assert(block(then_body@)[0] == then_body@[0]@ && block(then_body@)[1] == then_body@[1]@);
            match (as_assignment(&then_body[0]), as_plain_guard(&then_body[1]), as_assignment(s1)) {
                (Some((z, x)), Some((c, l)), Some((z2, y))) => {
                    let same = match as_var(c) {
                        Some(m) => str_eq(m, z),
                        None => false,
                    };
                    if same && str_eq(z2, z) && is_label_of(s2, l) {
                        Some(make_assign(z.clone(), make_ternary(cond, x, y)))
                    } else {
                        None
                    }
                },
                _ => None,
            }
        },
        _ => None,
    }
}

/// Whether `e` is a field named `n`.
pub open spec fn field_named(e: ExprV, n: Text) -> bool {
    match e {
        ExprV::Field(_, f) => f == n,
        ExprV::Index(_, k) => *k matches ExprV::Str(s) && trimmed(s, '"') == n,
        _ => false,
    }
}

fn expr_field_matches_name(e: &Expr, n: &str) -> (r: bool)
    ensures
        r == field_named(e@, n@),
{
    match e {
        Expr::Field(_, f) => str_eq(f, n),
        Expr::Index(_, k) => match as_str_literal(k) {
            Some(s) => {
                let t = trim_char(s, '"');
                str_eq(&t, n)
            },
            None => false,
        },
        _ => false,
    }
}

/// The text, where `e` is a string literal.
pub fn as_str_literal(e: &Expr) -> (r: Option<&String>)
    ensures
        match r {
            Some(s) => e@ == ExprV::Str(s@),
            None => !(e@ is Str),
        },
{
    match e {
        Expr::Str(s) => Some(s),
        _ => None,
    }
}

/// `s`, a definition of one name, with another value.
pub open spec fn redefined(s: StmtV, e: ExprV) -> StmtV {
    match s {
        StmtV::Local { names, .. } => StmtV::Local { names, values: seq![e] },
        StmtV::Assign { targets, .. } => StmtV::Assign { targets, values: seq![e] },
        _ => s,
    }
}

fn redefine(s: &Stmt, e: Expr) -> (r: Stmt)
    ensures
        r@ == redefined(s@, e@),
{
    match s {
        Stmt::Local { names, .. } => Stmt::Local { names: crate::ast::clone_names(names), values: one_expr(e) },
        Stmt::Assign { targets, .. } => Stmt::Assign {
            targets: crate::ast::clone_exprs(targets),
            values: one_expr(e),
        },
        _ => s.clone(),
    }
}

/// `if c then if t.x then goto L end end; x = y`: the label and `x = c and t.x or y`.
pub open spec fn guarded_and_or(s0: StmtV, s1: StmtV) -> Option<(Text, StmtV)> {
    match s0 {
        StmtV::If { cond, then_body, else_body } => if else_body.len() > 0 || then_body.len() != 1 {
            None
        } else {
            match (plain_guard(then_body[0]), crate::jumps::sole_assign(s1)) {
                (Some((inner, l)), Some((n, fallback))) => if field_named(inner, n) {
                    Some((l, redefined(s1, ternary(cond, inner, fallback))))
                } else {
                    None
                },
                _ => None,
            }
        },
        _ => None,
    }
}

fn guard_and_or_parts(s0: &Stmt, s1: &Stmt) -> (r: Option<(String, Stmt)>)
    ensures
        match r {
            Some((l, s)) => guarded_and_or(s0@, s1@) == Some((l@, s@)),
            None => guarded_and_or(s0@, s1@) is None,
        },
{
    match s0 {
        Stmt::If { cond, then_body, else_body } => {
            assert(block(else_body@).len() == else_body@.len());
            assert(block(then_body@).len() == then_body@.len());
            if else_body.len() > 0 || then_body.len() != 1 {
                return None;
            }
            assert(block(then_body@)[0] == then_body@[0]@);
            match (as_plain_guard(&then_body[0]), crate::jumps::sole_var_assign(s1)) {
                (Some((inner, l)), Some((n, fallback))) => {
                    if expr_field_matches_name(inner, n) {
                        let e = make_ternary(cond, inner, fallback);
                        Some((l.clone(), redefine(s1, e)))
                    } else {
                        None
                    }
                },
                _ => None,
            }
        },
        _ => None,
    }
}

/// `b`, a block of `root`, with the idiom that begins at `i` recovered.
pub open spec fn and_or_at(root: Block, b: Block, i: int) -> Option<Block> {
    if i + 2 < b.len() && joined_and_or(b[i], b[i + 1], b[i + 2]) is Some {
        Some(spec_splice(b, i, i + 3, only(joined_and_or(b[i], b[i + 1], b[i + 2])->Some_0)))
    } else if i + 1 < b.len() {
        match guarded_and_or(b[i], b[i + 1]) {
            Some((l, s)) => if i + 2 < b.len() && b[i + 2] == StmtV::Label(l) {
                Some(spec_splice(b, i, i + 3, only(s)))
            } else if labels(root, l) == 0 {
                Some(spec_splice(b, i, i + 2, only(s)))
            } else {
                None
            },
            None => None,
        }
    } else {
        None
    }
}

fn try_and_or_at(root: &Vec<Stmt>, b: &Vec<Stmt>, i: usize) -> (r: Option<Vec<Stmt>>)
    requires
        i < b.len(),
    ensures
        opt_block(r) == and_or_at(block(root@), block(b@), i as int),
        r matches Some(c) ==> i < c@.len() < b@.len(),
{
    let n: usize = b.len();
    let ghost v = block(b@);
    assert(v[i as int] == b@[i as int]@);
    if n - i > 2 {
        assert(v[i + 1] == b@[i + 1]@ && v[i + 2] == b@[i + 2]@);
        if let Some(s) = match_and_or(&b[i], &b[i + 1], &b[i + 2]) {
            let c = splice(b, i, i + 3, one(s));
            assert(block(c@).len() == c@.len());
            return Some(c);
        }
    }
    if n - i > 1 {
        assert(v[i + 1] == b@[i + 1]@);
        if let Some((l, s)) = guard_and_or_parts(&b[i], &b[i + 1]) {
            if n - i > 2 && is_label_of(&b[i + 2], &l) {
                let c = splice(b, i, i + 3, one(s));
                assert(block(c@).len() == c@.len());
                return Some(c);
            }
            if !has_label(root, &l) {
                let c = splice(b, i, i + 2, one(s));
                assert(block(c@).len() == c@.len());
                return Some(c);
            }
        }
    }
    None
}

/// `b` after one walk from `i` on that recovers the idiom wherever it meets it.
pub open spec fn and_or_from(root: Block, b: Block, i: int) -> Block
    decreases b.len() - i,
{
    if i < 0 || i >= b.len() {
        b
    } else {
        match and_or_at(root, b, i) {
            Some(c) => and_or_from(root, c, i),
            None => and_or_from(root, b, i + 1),
        }
    }
}

/// `b` after as many walks as change anything.
pub open spec fn and_or_settled(root: Block, b: Block) -> Block
    decreases b.len(),
{
    let c = and_or_from(root, b, 0);
    if c.len() < b.len() {
        and_or_settled(root, c)
    } else {
        c
    }
}

proof fn and_or_from_len(root: Block, b: Block, i: int)
    ensures
        and_or_from(root, b, i).len() <= b.len(),
        and_or_from(root, b, i).len() == b.len() ==> and_or_from(root, b, i) == b,
    decreases b.len() - i,
{
    if 0 <= i < b.len() {
        match and_or_at(root, b, i) {
            Some(c) => {
                and_or_from_len(root, c, i);
            },
            None => {
                and_or_from_len(root, b, i + 1);
            },
        }
    }
}

proof fn and_or_from_none(root: Block, b: Block, i: int, k: int)
    requires
        0 <= i <= k < b.len(),
        and_or_from(root, b, i).len() == b.len(),
    ensures
        and_or_at(root, b, k) is None,
    decreases b.len() - i,
{
    match and_or_at(root, b, i) {
        Some(c) => {
            and_or_from_len(root, c, i);
        },
        None => {
            if i < k {
                and_or_from_none(root, b, i + 1, k);
            }
        },
    }
}

/// After the pass the idiom is found nowhere in the block.
pub proof fn and_or_settles(root: Block, b: Block, k: int)
    requires
        0 <= k < and_or_settled(root, b).len(),
    ensures
        and_or_at(root, and_or_settled(root, b), k) is None,
    decreases b.len(),
{
    and_or_from_len(root, b, 0);
    let c = and_or_from(root, b, 0);
    if c.len() < b.len() {
        and_or_settles(root, c, k);
    } else {
        and_or_from_none(root, b, 0, k);
    }
}

/// Recovers the idiom wherever it stands.
pub struct AndOr<'a> {
    /// The whole tree.
    pub root: &'a Vec<Stmt>,
}

fn walk(root: &Vec<Stmt>, b: Vec<Stmt>) -> (r: Vec<Stmt>)
    ensures
        block(r@) == and_or_from(block(root@), block(b@), 0),
{
    let mut cur = b;
    let mut i: usize = 0;
    while i < cur.len()
        invariant
            and_or_from(block(root@), block(b@), 0) == and_or_from(block(root@), block(cur@), i as int),
        decreases cur@.len() - i,
    {
        match try_and_or_at(root, &cur, i) {
            Some(c) => {
                cur = c;
            },
            None => {
                i += 1;
            },
        }
    }
    cur
}

impl<'a> Pass for AndOr<'a> {
    open spec fn rewrite(&self, b: Block) -> Block {
        and_or_settled(block(self.root@), b)
    }

    fn run(&self, b: Vec<Stmt>) -> (r: Vec<Stmt>) {
        let mut cur = b;
        let ghost root = block(self.root@);
        loop
            invariant
                root == block(self.root@),
                and_or_settled(root, block(b@)) == and_or_settled(root, block(cur@)),
            decreases cur@.len(),
        {
            let n: usize = cur.len();
            let ghost v = block(cur@);
            let next = walk(self.root, cur);
            proof {
                and_or_from_len(root, v, 0);
                assert(block(next@).len() == next@.len());
                assert(v.len() == n);
            }
            if next.len() == n {
                return next;
            }
            cur = next;
        }
    }
}

/// `b` with the idiom recovered wherever it stands.
pub open spec fn and_or_recovered(b: Block) -> Block {
    throughout(AndOr { root: &tree_of(b) }, b)
}

/// Recovers `x = a and b or c` from the branches that it was compiled to.
pub fn recover_and_or(root: &mut Vec<Stmt>)
    ensures
        block(final(root)@) == and_or_recovered(block(old(root)@)),
{
    let ghost other = tree_of(block(root@));
    let p = AndOr { root };
    proof {
        tree_of_model(*root);
        throughout_same(p, AndOr { root: &other }, block(root@));
    }
    let out = run_throughout(&p, root);
    *root = out;
}

} // verus!
