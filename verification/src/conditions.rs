//! Conditions: negation, disjunction and guarded jumps.
use vstd::prelude::*;

use crate::ast::{block, exprs, range, Block, Expr, ExprV, Stmt, StmtV};
use crate::query::{any_goto, goto_to, label_or_other_goto, reads_of, ReadsOf};
use crate::text::{str_eq, texts, Text};
use crate::weight::{deep, deep_stmt, occurs};

verus! {

/// `a op b`
pub open spec fn binary(op: Text, a: ExprV, b: ExprV) -> ExprV {
    ExprV::Binary(op, Box::new(a), Box::new(b))
}

/// `not e`
pub open spec fn not_of(e: ExprV) -> ExprV {
    ExprV::Unary("not "@, Box::new(e))
}

/// `not e`
pub fn not_expr(e: Expr) -> (r: Expr)
    ensures
        r@ == not_of(e@),
{
    Expr::Unary("not ", Box::new(e))
}

/// `a op b`
pub fn binary_expr(op: &'static str, a: Expr, b: Expr) -> (r: Expr)
    ensures
        r@ == binary(op@, a@, b@),
{
    Expr::Binary(op, Box::new(a), Box::new(b))
}

/// The condition that holds where `e` does not: a comparison is turned round, a leading `not` is
/// dropped, and everything else gets one.
pub open spec fn opposite(e: ExprV) -> ExprV {
    match e {
        ExprV::Binary(op, a, b) => if op == "=="@ {
            ExprV::Binary("~="@, a, b)
        } else if op == "~="@ {
            ExprV::Binary("=="@, a, b)
        } else if op == "<"@ {
            ExprV::Binary(">="@, a, b)
        } else if op == "<="@ {
            ExprV::Binary(">"@, a, b)
        } else if op == ">"@ {
            ExprV::Binary("<="@, a, b)
        } else if op == ">="@ {
            ExprV::Binary("<"@, a, b)
        } else {
            not_of(e)
        },
        ExprV::Unary(op, inner) => if op == "not "@ {
            *inner
        } else {
            not_of(e)
        },
        _ => not_of(e),
    }
}

/// The condition that holds where `e` does not.
pub fn negate(e: Expr) -> (r: Expr)
    ensures
        r@ == opposite(e@),
{
    match e {
        Expr::Binary(op, a, b) => {
            if str_eq(op, "==") {
                Expr::Binary("~=", a, b)
            } else if str_eq(op, "~=") {
                Expr::Binary("==", a, b)
            } else if str_eq(op, "<") {
                Expr::Binary(">=", a, b)
            } else if str_eq(op, "<=") {
                Expr::Binary(">", a, b)
            } else if str_eq(op, ">") {
                Expr::Binary("<=", a, b)
            } else if str_eq(op, ">=") {
                Expr::Binary("<", a, b)
            } else {
                not_expr(Expr::Binary(op, a, b))
            }
        },
        Expr::Unary(op, inner) => {
            if str_eq(op, "not ") {
                *inner
            } else {
                not_expr(Expr::Unary(op, inner))
            }
        },
        e => not_expr(e),
    }
}

/// The opposite of the opposite of a condition without a unary operator is that condition.
pub proof fn opposite_twice(e: ExprV)
    ensures
        !(e is Unary) ==> opposite(opposite(e)) == e,
{
    reveal_strlit("<");
    reveal_strlit("<=");
    reveal_strlit(">");
    reveal_strlit(">=");
    reveal_strlit("==");
    reveal_strlit("~=");
    assert("<"@.len() == 1 && ">"@.len() == 1 && "<="@.len() == 2 && ">="@.len() == 2 && "=="@.len() == 2 && "~="@.len()
        == 2);
    assert("<"@[0] == '<' && ">"@[0] == '>' && "<="@[0] == '<' && ">="@[0] == '>' && "=="@[0] == '=' && "~="@[0] == '~');
}

/// The condition that holds where `e` does not: comparisons are turned round, `and` and `or`
/// are pushed through, and a leading `not` is dropped.
pub open spec fn negated(e: ExprV) -> ExprV
    decreases e,
{
    match e {
        ExprV::Binary(op, a, b) => if op == "=="@ {
            ExprV::Binary("~="@, a, b)
        } else if op == "~="@ {
            ExprV::Binary("=="@, a, b)
        } else if op == "<"@ {
            ExprV::Binary(">="@, a, b)
        } else if op == "<="@ {
            ExprV::Binary(">"@, a, b)
        } else if op == ">"@ {
            ExprV::Binary("<="@, a, b)
        } else if op == ">="@ {
            ExprV::Binary("<"@, a, b)
        } else if op == "and"@ {
            binary("or"@, negated(*a), negated(*b))
        } else if op == "or"@ {
            binary("and"@, negated(*a), negated(*b))
        } else {
            not_of(e)
        },
        ExprV::Unary(op, inner) => if op == "not "@ {
            *inner
        } else {
            not_of(e)
        },
        _ => not_of(e),
    }
}

/// The negation of a condition.
pub fn negate_condition(e: &Expr) -> (r: Expr)
    ensures
        r@ == negated(e@),
    decreases e,
{
    match e {
        Expr::Binary(op, a, b) => if str_eq(op, "==") {
            Expr::Binary("~=", a.clone(), b.clone())
        } else if str_eq(op, "~=") {
            Expr::Binary("==", a.clone(), b.clone())
        } else if str_eq(op, "<") {
            Expr::Binary(">=", a.clone(), b.clone())
        } else if str_eq(op, "<=") {
            Expr::Binary(">", a.clone(), b.clone())
        } else if str_eq(op, ">") {
            Expr::Binary("<=", a.clone(), b.clone())
        } else if str_eq(op, ">=") {
            Expr::Binary("<", a.clone(), b.clone())
        } else if str_eq(op, "and") {
            Expr::Binary("or", Box::new(negate_condition(a)), Box::new(negate_condition(b)))
        } else if str_eq(op, "or") {
            Expr::Binary("and", Box::new(negate_condition(a)), Box::new(negate_condition(b)))
        } else {
            Expr::Unary("not ", Box::new(e.clone()))
        },
        Expr::Unary(op, inner) => if str_eq(op, "not ") {
            (**inner).clone()
        } else {
            Expr::Unary("not ", Box::new(e.clone()))
        },
        _ => Expr::Unary("not ", Box::new(e.clone())),
    }
}

/// Whether `v` says of each condition whether it holds as Luau does: the connectives mean what
/// they say, and of two opposite comparisons exactly one holds.
pub open spec fn truth(v: spec_fn(ExprV) -> bool) -> bool {
    &&& forall|e: ExprV| v(#[trigger] not_of(e)) == !v(e)
    &&& forall|a: ExprV, b: ExprV| v(#[trigger] binary("and"@, a, b)) == (v(a) && v(b))
    &&& forall|a: ExprV, b: ExprV| v(#[trigger] binary("or"@, a, b)) == (v(a) || v(b))
    &&& forall|a: ExprV, b: ExprV| v(#[trigger] binary("~="@, a, b)) == !v(binary("=="@, a, b))
    &&& forall|a: ExprV, b: ExprV| v(#[trigger] binary(">="@, a, b)) == !v(binary("<"@, a, b))
    &&& forall|a: ExprV, b: ExprV| v(#[trigger] binary(">"@, a, b)) == !v(binary("<="@, a, b))
}

/// The negation of a condition holds where the condition does not.
pub proof fn negated_holds(v: spec_fn(ExprV) -> bool, e: ExprV)
    requires
        truth(v),
    ensures
        v(negated(e)) == !v(e),
    decreases e,
{
    match e {
        ExprV::Binary(op, a, b) => {
            negated_holds(v, *a);
            negated_holds(v, *b);
            assert(e == binary(op, *a, *b));
            assert(v(binary("~="@, *a, *b)) == !v(binary("=="@, *a, *b)));
            assert(v(binary(">="@, *a, *b)) == !v(binary("<"@, *a, *b)));
            assert(v(binary(">"@, *a, *b)) == !v(binary("<="@, *a, *b)));
            assert(v(binary("or"@, negated(*a), negated(*b))) == (v(negated(*a)) || v(negated(*b))));
            assert(v(binary("and"@, negated(*a), negated(*b))) == (v(negated(*a)) && v(negated(*b))));
            assert(v(not_of(e)) == !v(e));
        },
        ExprV::Unary(op, a) => {
            assert(v(not_of(*a)) == !v(*a));
            assert(v(not_of(e)) == !v(e));
        },
        _ => {
            assert(v(not_of(e)) == !v(e));
        },
    }
}

/// The opposite of a condition holds where the condition does not.
pub proof fn opposite_holds(v: spec_fn(ExprV) -> bool, e: ExprV)
    requires
        truth(v),
    ensures
        v(opposite(e)) == !v(e),
{
    match e {
        ExprV::Binary(op, a, b) => {
            assert(e == binary(op, *a, *b));
            assert(v(binary("~="@, *a, *b)) == !v(binary("=="@, *a, *b)));
            assert(v(binary(">="@, *a, *b)) == !v(binary("<"@, *a, *b)));
            assert(v(binary(">"@, *a, *b)) == !v(binary("<="@, *a, *b)));
            assert(v(not_of(e)) == !v(e));
        },
        ExprV::Unary(op, a) => {
            assert(v(not_of(*a)) == !v(*a));
            assert(v(not_of(e)) == !v(e));
        },
        _ => {
            assert(v(not_of(e)) == !v(e));
        },
    }
}

/// `c1 or (c2 or (.. or cn))`
pub open spec fn or_chain(cs: Seq<ExprV>) -> ExprV
    recommends
        cs.len() > 0,
    decreases cs.len(),
{
    if cs.len() <= 1 {
        cs[0]
    } else {
        binary("or"@, cs[0], or_chain(cs.subrange(1, cs.len() as int)))
    }
}

/// The disjunction of all conditions.
pub fn or_all(conds: &Vec<Expr>) -> (r: Expr)
    requires
        conds@.len() > 0,
    ensures
        r@ == or_chain(exprs(conds@)),
{
    let ghost v = exprs(conds@);
    let n: usize = conds.len();
    let mut i: usize = n - 1;
    let mut acc = conds[n - 1].clone();
    assert(v.subrange(n - 1, n as int)[0] == v[n - 1]);
    while i > 0
        invariant
            n == conds.len(),
            i < n,
            v == exprs(conds@),
            acc@ == or_chain(v.subrange(i as int, n as int)),
        decreases i,
    {
        i -= 1;
        proof {
            let t = v.subrange(i as int, n as int);
            assert(t[0] == v[i as int]);
            assert(t.subrange(1, t.len() as int) =~= v.subrange(i + 1, n as int));
        }
        acc = Expr::Binary("or", Box::new(conds[i].clone()), Box::new(acc));
    }
    assert(v.subrange(0, n as int) =~= v);
    acc
}

/// The condition under which `s` jumps, and where to: `s` is an `if` without `else` whose body
/// is a guarded jump. With `req`, only jumps to that label count.
pub open spec fn cond_goto(s: StmtV, req: Option<Text>) -> Option<(ExprV, Text)>
    decreases s, 0nat,
{
    match s {
        StmtV::If { cond, then_body, else_body } => if else_body.len() > 0 {
            None
        } else {
            match body_goto(then_body, req) {
                None => None,
                Some((c, l)) => Some((guarded_by(cond, c), l)),
            }
        },
        _ => None,
    }
}

/// `cond` and then `c`, where `true` adds nothing.
pub open spec fn guarded_by(cond: ExprV, c: ExprV) -> ExprV {
    if c == ExprV::Bool(true) {
        cond
    } else {
        binary("and"@, cond, c)
    }
}

/// The condition under which `s`, a jump or a guarded jump, jumps, and where to.
pub open spec fn jump_of(s: StmtV, req: Option<Text>) -> Option<(ExprV, Text)>
    decreases s, 1nat,
{
    match s {
        StmtV::Goto(l) => Some((ExprV::Bool(true), l)),
        _ => cond_goto(s, req),
    }
}

/// The conditions of a block of guarded jumps, and the one label that they go to.
pub open spec fn body_jumps(b: Block, req: Option<Text>) -> Option<(Seq<ExprV>, Option<Text>)>
    decreases b, 0nat,
{
    if b.len() == 0 {
        Some((Seq::empty(), req))
    } else {
        match (body_jumps(b.drop_last(), req), jump_of(b.last(), req)) {
            (Some((cs, t)), Some((c, l))) => if t is Some && t != Some(l) {
                None
            } else {
                Some((cs.push(c), Some(l)))
            },
            _ => None,
        }
    }
}

/// The condition under which a block of guarded jumps jumps, and where to.
pub open spec fn body_goto(b: Block, req: Option<Text>) -> Option<(ExprV, Text)>
    decreases b, 1nat,
{
    match body_jumps(b, req) {
        Some((cs, Some(l))) => if cs.len() > 0 {
            Some((or_chain(cs), l))
        } else {
            None
        },
        _ => None,
    }
}

/// The model of an optional label.
pub open spec fn opt_text(l: Option<&str>) -> Option<Text> {
    match l {
        Some(t) => Some(t@),
        None => None,
    }
}

/// The model of a guarded jump.
pub open spec fn opt_jump(r: Option<(Expr, String)>) -> Option<(ExprV, Text)> {
    match r {
        Some((c, l)) => Some((c@, l@)),
        None => None,
    }
}

/// The condition under which `s` jumps, and where to.
pub fn conditional_goto_expr(s: &Stmt, req: Option<&str>) -> (r: Option<(Expr, String)>)
    ensures
        opt_jump(r) == cond_goto(s@, opt_text(req)),
    decreases s, 0nat,
{
    match s {
        Stmt::If { cond, then_body, else_body } => {
            if else_body.len() > 0 {
                return None;
            }
            match guard_body_goto_expr(then_body, req) {
                None => None,
                Some((c, l)) => {
                    if matches!(c, Expr::Bool(true)) {
                        Some((cond.clone(), l))
                    } else {
                        Some((Expr::Binary("and", Box::new(cond.clone()), Box::new(c)), l))
                    }
                },
            }
        },
        _ => None,
    }
}

fn jump_condition(s: &Stmt, req: Option<&str>) -> (r: Option<(Expr, String)>)
    ensures
        opt_jump(r) == jump_of(s@, opt_text(req)),
    decreases s, 1nat,
{
    match s {
        Stmt::Goto(l) => Some((Expr::Bool(true), l.clone())),
        _ => conditional_goto_expr(s, req),
    }
}

/// The condition under which a block of guarded jumps jumps, and where to.
pub fn guard_body_goto_expr(b: &[Stmt], req: Option<&str>) -> (r: Option<(Expr, String)>)
    ensures
        opt_jump(r) == body_goto(block(b@), opt_text(req)),
    decreases b@, 1nat,
{
    let ghost v = block(b@);
    let ghost q = opt_text(req);
    let mut conds: Vec<Expr> = Vec::new();
    let mut target: Option<String> = match req {
        Some(l) => Some(l.to_owned()),
        None => None,
    };
    let mut i: usize = 0;
    assert(exprs(conds@) =~= Seq::<ExprV>::empty());
    while i < b.len()
        invariant
            i <= b.len(),
            v == block(b@),
            q == opt_text(req),
            body_jumps(v.take(i as int), q) == Some((exprs(conds@), opt_string(target))),
        decreases b.len() - i,
    {
        proof {
            let t = v.take(i + 1);
            assert(t.drop_last() =~= v.take(i as int));
            assert(t.last() == v[i as int]);
        }
        match jump_condition(&b[i], req) {
            None => {
                proof {
                    body_jumps_prefix(v, q, i + 1);
                }
                return None;
            },
            Some((c, l)) => {
                if let Some(t) = &target {
                    if !str_eq(t, &l) {
                        proof {
                            body_jumps_prefix(v, q, i + 1);
                        }
                        return None;
                    }
                }
                let ghost o = conds@;
                conds.push(c);
                assert(exprs(conds@) =~= exprs(o).push(c@));
                target = Some(l);
            },
        }
        i += 1;
    }
    assert(v.take(i as int) =~= v);
    match target {
        Some(l) => if conds.len() > 0 {
            Some((or_all(&conds), l))
        } else {
            None
        },
        None => None,
    }
}

/// The model of an optional string.
pub open spec fn opt_string(l: Option<String>) -> Option<Text> {
    match l {
        Some(t) => Some(t@),
        None => None,
    }
}

/// A block is no run of guarded jumps if its beginning is none.
proof fn body_jumps_prefix(b: Block, req: Option<Text>, i: int)
    requires
        0 <= i <= b.len(),
        body_jumps(b.take(i), req) is None,
    ensures
        body_jumps(b, req) is None,
    decreases b.len() - i,
{
    if i == b.len() {
        assert(b.take(i) =~= b);
    } else {
        assert(b.take(i + 1).drop_last() =~= b.take(i));
        body_jumps_prefix(b, req, i + 1);
    }
}

/// A guarded jump holds at least one jump, every jump in it goes to the label, and it holds no
/// label.
pub proof fn cond_goto_jumps(s: StmtV, req: Option<Text>)
    ensures
        cond_goto(s, req) matches Some((_, l)) ==> {
            &&& deep_stmt(goto_to(l), s) == deep_stmt(any_goto(), s)
            &&& deep_stmt(goto_to(l), s) > 0
            &&& deep_stmt(label_or_other_goto(l), s) == 0
            &&& (req is Some ==> req == Some(l))
        },
    decreases s, 0nat,
{
    if let StmtV::If { cond, then_body, else_body } = s {
        if else_body.len() == 0 {
            body_jumps_jumps(then_body, req);
        }
    }
}

proof fn body_jumps_jumps(b: Block, req: Option<Text>)
    ensures
        body_jumps(b, req) matches Some((cs, t)) ==> {
            &&& cs.len() == b.len()
            &&& (t matches Some(l) ==> {
                &&& deep(goto_to(l), b) == deep(any_goto(), b)
                &&& (b.len() > 0 ==> deep(goto_to(l), b) > 0)
                &&& deep(label_or_other_goto(l), b) == 0
            })
            &&& (t is None ==> b.len() == 0)
            &&& (req is Some ==> t == req)
        },
    decreases b, 0nat,
{
    if b.len() > 0 {
        let d = b.drop_last();
        let s = b.last();
        body_jumps_jumps(d, req);
        if !(s is Goto) {
            cond_goto_jumps(s, req);
        }
        if let (Some((cs, t)), Some((c, l))) = (body_jumps(d, req), jump_of(s, req)) {
            assert(deep_stmt(goto_to(l), s) == deep_stmt(any_goto(), s));
            assert(deep_stmt(goto_to(l), s) > 0);
            assert(deep_stmt(label_or_other_goto(l), s) == 0);
            if d.len() == 0 {
                assert(deep(goto_to(l), d) == 0);
                assert(deep(any_goto(), d) == 0);
                assert(deep(label_or_other_goto(l), d) == 0);
            }
        }
    }
}

/// The names that `s`, as a `local` statement, declares.
pub open spec fn declared(s: StmtV) -> Seq<Text> {
    match s {
        StmtV::Local { names, .. } => names,
        _ => Seq::empty(),
    }
}

/// Whether none of `names` is read in `b`.
pub open spec fn reads_none(names: Seq<Text>, b: Block) -> bool {
    forall|k: int| 0 <= k < names.len() ==> deep(reads_of(#[trigger] names[k]), b) == 0
}

/// Whether no name that a `local` of `moved` declares is read in `following`.
pub open spec fn scope_safe(moved: Block, following: Block) -> bool {
    forall|i: int| 0 <= i < moved.len() ==> reads_none(declared(#[trigger] moved[i]), following)
}

/// Whether none of `names` is read in `b`.
pub fn names_unread(names: &[String], b: &[Stmt]) -> (r: bool)
    ensures
        r == reads_none(texts(names@), block(b@)),
{
    let ghost ns = texts(names@);
    let mut k: usize = 0;
    while k < names.len()
        invariant
            k <= names.len(),
            ns == texts(names@),
            forall|j: int| 0 <= j < k ==> deep(reads_of(#[trigger] ns[j]), block(b@)) == 0,
        decreases names.len() - k,
    {
        assert(ns[k as int] == names@[k as int]@);
        if occurs(&ReadsOf { name: &names[k] }, b) {
            assert(deep(reads_of(ns[k as int]), block(b@)) != 0);
            return false;
        }
        k += 1;
    }
    true
}

/// Whether no name that a `local` of `moved` declares is read in `following`.
pub fn direct_local_scope_safe(moved: &[Stmt], following: &[Stmt]) -> (r: bool)
    ensures
        r == scope_safe(block(moved@), block(following@)),
{
    let ghost v = block(moved@);
    let mut i: usize = 0;
    while i < moved.len()
        invariant
            i <= moved.len(),
            v == block(moved@),
            forall|j: int| 0 <= j < i ==> reads_none(declared(#[trigger] v[j]), block(following@)),
        decreases moved.len() - i,
    {
        assert(v[i as int] == moved@[i as int]@);
        if let Stmt::Local { names, .. } = &moved[i] {
            if !names_unread(names, following) {
                assert(!reads_none(declared(v[i as int]), block(following@)));
                return false;
            }
        }
        i += 1;
    }
    true
}

/// [`direct_local_scope_safe`] for two parts of one block.
pub fn range_scope_safe(b: &[Stmt], lo: usize, hi: usize, from: usize) -> (r: bool)
    requires
        lo <= hi <= b@.len(),
        from <= b@.len(),
    ensures
        r == scope_safe(
            block(b@).subrange(lo as int, hi as int),
            block(b@).subrange(from as int, b@.len() as int),
        ),
{
    direct_local_scope_safe(range(b, lo, hi), range(b, from, b.len()))
}

} // verus!
