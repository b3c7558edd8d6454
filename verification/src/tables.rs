//! Table literals.
use vstd::prelude::*;

use crate::ast::{
    block, clone_exprs, clone_fields, clone_names, exprs, fields, loop_body, one, one_expr, opt_block, range,
    spec_splice, splice, with_loop_body, Block, Expr, ExprV, FieldV, Stmt, StmtV, TableField,
};
use crate::inline::{control_flow, is_control_flow, reads_in_targets, stmt_reads_var_in_assignment_target};
use crate::joins::Length;
use crate::jumps::{only, sole_assign, sole_var_assign};
use crate::markers::{assigns, directly_writes_var, extended, slices};
use crate::names::NameSet;
use crate::naming::{all_fields_pure, all_pure, pure_all, pure_fields};
use crate::query::{expr_reads, expr_reads_var, stmt_reads, stmt_reads_var};
use crate::rules::{everywhere, rewrite_everywhere, Pass, Rule, Scan};
use crate::text::{decimal, decimal_of, str_eq, Text};

verus! {

// ---- fills of a table ----------------------------------------------------------------------------------

/// The field that `s` sets in the table `t`, where neither key nor value reads `t`.
pub open spec fn fill(s: StmtV, t: Text) -> Option<FieldV> {
    match s {
        StmtV::Assign { targets, values } => if targets.len() == 1 && values.len() == 1 && expr_reads(values[0], t) == 0 {
            match targets[0] {
                ExprV::Index(base, key) => if *base == ExprV::Var(t) && expr_reads(*key, t) == 0 {
                    Some(FieldV::Keyed(*key, values[0]))
                } else {
                    None
                },
                ExprV::Field(base, name) => if *base == ExprV::Var(t) {
                    Some(FieldV::Named(name, values[0]))
                } else {
                    None
                },
                _ => None,
            }
        } else {
            None
        },
        _ => None,
    }
}

/// The model of an optional field.
pub open spec fn field_of(f: Option<TableField>) -> Option<FieldV> {
    match f {
        Some(f) => Some(f@),
        None => None,
    }
}

fn is_var(e: &Expr, n: &str) -> (r: bool)
    ensures
        r == (e@ == ExprV::Var(n@)),
{
    match e {
        Expr::Var(m) => str_eq(m, n),
        _ => false,
    }
}

fn fill_of(s: &Stmt, t: &str) -> (r: Option<TableField>)
    ensures
        field_of(r) == fill(s@, t@),
{
    match s {
        Stmt::Assign { targets, values } => {
            assert(exprs(targets@).len() == targets@.len());
            assert(exprs(values@).len() == values@.len());
            if targets.len() != 1 || values.len() != 1 {
                return None;
            }
            assert(exprs(targets@)[0] == targets@[0]@);
            assert(exprs(values@)[0] == values@[0]@);
            if expr_reads_var(&values[0], t) {
                return None;
            }
            match &targets[0] {
                Expr::Index(base, key) => {
                    if is_var(base, t) && !expr_reads_var(key, t) {
                        let k: Expr = (**key).clone();
                        Some(TableField::Keyed(k, values[0].clone()))
                    } else {
                        None
                    }
                },
                Expr::Field(base, name) => {
                    if is_var(base, t) {
                        Some(TableField::Named(name.clone(), values[0].clone()))
                    } else {
                        None
                    }
                },
                _ => None,
            }
        },
        _ => None,
    }
}

/// The first position from `k` on whose statement does not fill `t`.
pub open spec fn fills_end(b: Block, k: int, t: Text) -> int
    decreases b.len() - k,
{
    if k < 0 || k >= b.len() || fill(b[k], t) is None {
        k
    } else {
        fills_end(b, k + 1, t)
    }
}

/// The fields that the statements from `lo` up to `hi` set in `t`.
pub open spec fn fills(b: Block, lo: int, hi: int, t: Text) -> Seq<FieldV> {
    Seq::new((hi - lo) as nat, |j: int| fill(b[lo + j], t)->Some_0)
}

// ---- the literal ------------------------------------------------------------------------------------------

/// The number of positional items.
pub open spec fn items(fs: Seq<FieldV>) -> nat
    decreases fs.len(),
{
    if fs.len() == 0 {
        0
    } else {
        items(fs.drop_last()) + if fs.last() is Item {
            1nat
        } else {
            0
        }
    }
}

/// `f` as it is written after `front`: the next index needs no key.
pub open spec fn placed(front: Seq<FieldV>, f: FieldV) -> FieldV {
    match f {
        FieldV::Keyed(ExprV::Num(n), v) => if n == decimal(items(front) + 1) {
            FieldV::Item(v)
        } else {
            f
        },
        _ => f,
    }
}

/// The fields `fs`, followed by `more`.
pub open spec fn literal(fs: Seq<FieldV>, more: Seq<FieldV>) -> Seq<FieldV>
    decreases more.len(),
{
    if more.len() == 0 {
        fs
    } else {
        let front = literal(fs, more.drop_last());
        front.push(placed(front, more.last()))
    }
}

/// The expressions that a field evaluates, in order; a constant key needs no evaluation.
pub open spec fn parts(f: FieldV) -> Seq<ExprV> {
    match f {
        FieldV::Item(v) => seq![v],
        FieldV::Named(_, v) => seq![v],
        FieldV::Keyed(k, v) => if k is Num {
            seq![v]
        } else {
            seq![k, v]
        },
    }
}

/// The expressions that fields evaluate, in order.
pub open spec fn all_parts(fs: Seq<FieldV>) -> Seq<ExprV>
    decreases fs.len(),
{
    if fs.len() == 0 {
        Seq::empty()
    } else {
        all_parts(fs.drop_last()) + parts(fs.last())
    }
}

/// The literal evaluates what the table and its fills evaluate, in the same order.
pub proof fn literal_keeps_order(fs: Seq<FieldV>, more: Seq<FieldV>)
    ensures
        all_parts(literal(fs, more)) == all_parts(fs) + all_parts(more),
    decreases more.len(),
{
    if more.len() > 0 {
        literal_keeps_order(fs, more.drop_last());
        let front = literal(fs, more.drop_last());
        let l = literal(fs, more);
        assert(l.drop_last() =~= front);
        assert(l.last() == placed(front, more.last()));
        assert(all_parts(l) =~= all_parts(fs) + all_parts(more));
    } else {
        assert(all_parts(fs) =~= all_parts(fs) + all_parts(more));
    }
}

fn count_items(fs: &Vec<TableField>) -> (r: usize)
    ensures
        r == items(fields(fs@)),
        r <= fs.len(),
{
    let ghost v = fields(fs@);
    let mut n: usize = 0;
    let mut i: usize = 0;
    while i < fs.len()
        invariant
            n <= i <= fs.len(),
            v == fields(fs@),
            n == items(v.take(i as int)),
        decreases fs.len() - i,
    {
        proof {
            let t = v.take(i + 1);
            assert(t.drop_last() =~= v.take(i as int));
            assert(t.last() == v[i as int]);
            assert(v[i as int] == fs@[i as int]@);
        }
        if matches!(fs[i], TableField::Item(_)) {
            n += 1;
        }
        i += 1;
    }
    assert(v.take(i as int) =~= v);
    n
}

fn is_num(e: &Expr, n: &str) -> (r: bool)
    ensures
        r == (e@ == ExprV::Num(n@)),
{
    match e {
        Expr::Num(m) => str_eq(m, n),
        _ => false,
    }
}

fn place(front: &Vec<TableField>, f: TableField) -> (r: TableField)
    ensures
        r@ == placed(fields(front@), f@),
{
    match f {
        TableField::Keyed(k, v) => {
            let next: u128 = count_items(front) as u128 + 1;
            if is_num(&k, &decimal_of(next)) {
                TableField::Item(v)
            } else {
                TableField::Keyed(k, v)
            }
        },
        f => f,
    }
}

fn push_field(fs: &mut Vec<TableField>, f: TableField)
    ensures
        fields(final(fs)@) == fields(old(fs)@).push(f@),
{
    let ghost o = fs@;
    fs.push(f);
    assert(fields(fs@) =~= fields(o).push(f@));
}

// ---- folding ----------------------------------------------------------------------------------------------

/// The assignment `s` with another value.
pub open spec fn with_value(s: StmtV, e: ExprV) -> StmtV {
    match s {
        StmtV::Assign { targets, .. } => StmtV::Assign { targets, values: seq![e] },
        StmtV::Local { names, .. } => StmtV::Local { names, values: seq![e] },
        _ => s,
    }
}

fn assign_value(s: &Stmt, e: Expr) -> (r: Stmt)
    ensures
        r@ == with_value(s@, e@),
{
    match s {
        Stmt::Assign { targets, .. } => Stmt::Assign { targets: clone_exprs(targets), values: one_expr(e) },
        Stmt::Local { names, .. } => Stmt::Local { names: clone_names(names), values: one_expr(e) },
        _ => s.clone(),
    }
}

/// The name and fields of a table that `s` makes.
pub open spec fn table_init(s: StmtV) -> Option<(Text, Seq<FieldV>)> {
    match sole_assign(s) {
        Some((t, ExprV::Table(fs))) => Some((t, fs)),
        _ => None,
    }
}

fn table_init_of(s: &Stmt) -> (r: Option<(&String, &Vec<TableField>)>)
    ensures
        match r {
            Some((t, fs)) => table_init(s@) == Some((t@, fields(fs@))),
            None => table_init(s@) is None,
        },
{
    match sole_var_assign(s) {
        Some((t, v)) => match v {
            Expr::Table(fs) => Some((t, fs)),
            _ => None,
        },
        None => None,
    }
}

/// `b` with the fills that follow the table made at `i` moved into its literal.
pub open spec fn folded_at(b: Block, i: int) -> Option<Block> {
    match table_init(b[i]) {
        Some((t, fs)) => {
            let end = fills_end(b, i + 1, t);
            if end > i + 1 {
                let e = ExprV::Table(literal(fs, fills(b, i + 1, end, t)));
                Some(spec_splice(b, i, end, only(with_value(b[i], e))))
            } else {
                None
            }
        },
        None => None,
    }
}

pub proof fn fills_end_bounds(b: Block, k: int, t: Text)
    requires
        0 <= k <= b.len(),
    ensures
        k <= fills_end(b, k, t) <= b.len(),
    decreases b.len() - k,
{
    if k < b.len() {
        fills_end_bounds(b, k + 1, t);
    }
}

/// Moves fills into the literal that they follow.
pub struct FoldFills;

impl Rule for FoldFills {
    type M = Length;

    open spec fn at(&self, b: Block, i: int) -> Option<Block> {
        folded_at(b, i)
    }

    proof fn shrinks_at(&self, b: Block, i: int) {
        if let Some((t, _)) = table_init(b[i]) {
            fills_end_bounds(b, i + 1, t);
        }
    }

    fn try_at(&self, b: &Vec<Stmt>, i: usize) -> (r: Option<Vec<Stmt>>) {
        let n: usize = b.len();
        let ghost v = block(b@);
        match table_init_of(&b[i]) {
            None => None,
            Some((t, fs)) => {
                let mut all = clone_fields(fs);
                let ghost fv = fields(fs@);
                let mut k: usize = i + 1;
                assert(fills(v, i + 1, k as int, t@) =~= Seq::<FieldV>::empty());
                while k < n
                    invariant
                        i < k <= n,
                        n == b.len(),
                        v == block(b@),
                        fields(all@) == literal(fv, fills(v, i + 1, k as int, t@)),
                        fills_end(v, i + 1, t@) == fills_end(v, k as int, t@),
                    ensures
                        i < k <= n,
                        fields(all@) == literal(fv, fills(v, i + 1, k as int, t@)),
                        fills_end(v, i + 1, t@) == k,
                    decreases n - k,
                {
                    assert(v[k as int] == b@[k as int]@);
                    match fill_of(&b[k], t) {
                        Some(f) => {
                            let ghost fs1 = fills(v, i + 1, k + 1, t@);
                            assert(fs1.drop_last() =~= fills(v, i + 1, k as int, t@));
                            assert(fs1.last() == f@);
                            let placed_field = place(&all, f);
                            push_field(&mut all, placed_field);
                            k += 1;
                        },
                        None => {
                            break;
                        },
                    }
                }
                if k > i + 1 {
                    let made = assign_value(&b[i], Expr::Table(all));
                    Some(splice(b, i, k, one(made)))
                } else {
                    None
                }
            },
        }
    }
}

/// Moves the fills that directly follow a table constructor into a literal, in every block.
pub fn fold_table_literals(root: &mut Vec<Stmt>)
    ensures
        block(final(root)@) == everywhere(Scan(FoldFills), block(old(root)@)),
{
    *root = rewrite_everywhere(&Scan(FoldFills), root);
}

// ---- temporaries that hold a literal ------------------------------------------------------------------------

/// Whether, in `b` from `k` on, `n` may be read before it is overwritten; `None` where neither
/// happens.
pub open spec fn read_next(b: Block, k: int, n: Text) -> Option<bool>
    decreases b.len() - k,
{
    if k < 0 || k >= b.len() {
        None
    } else if stmt_reads(b[k], n) {
        Some(true)
    } else if assigns(b[k], n) {
        Some(false)
    } else if control_flow(b[k]) {
        Some(true)
    } else {
        read_next(b, k + 1, n)
    }
}

/// Whether `n` may be read before it is overwritten in `bs`, one block after the other, from number
/// `k` on, where `last` is the answer if neither happens.
pub open spec fn read_later(bs: Seq<Block>, k: int, n: Text, last: bool) -> bool
    decreases bs.len() - k,
{
    if k < 0 || k >= bs.len() {
        last
    } else {
        match read_next(bs[k], 0, n) {
            Some(r) => r,
            None => read_later(bs, k + 1, n, last),
        }
    }
}

/// Whether, in `b` from `k` on and in the blocks `cont` that run after it, `n` may be read before
/// it is overwritten; `last` is the answer if neither happens.
pub open spec fn read_again(b: Block, k: int, n: Text, cont: Seq<Block>, last: bool) -> bool {
    match read_next(b, k, n) {
        Some(r) => r,
        None => read_later(cont, 0, n, last),
    }
}

/// Whether `s` assigns the value of the variable `n`, and nothing else.
pub open spec fn stores_var(s: StmtV, n: Text) -> bool {
    s matches StmtV::Assign { values, .. } && values.len() == 1 && values[0] == ExprV::Var(n)
}

/// Whether the literal with the fields `fs` can be made after the targets of `s` are evaluated.
pub open spec fn fits_after_targets(fs: Seq<FieldV>, s: StmtV) -> bool {
    pure_fields(fs) || (s matches StmtV::Assign { targets, .. } && pure_all(targets))
}

/// `b`, which the blocks `cont` follow, with the literal at `i` moved into the assignment after it,
/// where it is needed nowhere else and no call changes its place. What a `protected` name holds may
/// be needed elsewhere.
pub open spec fn moved_at(b: Block, i: int, cont: Seq<Block>, last: bool, protected: Seq<Text>) -> Option<Block> {
    match table_init(b[i]) {
        Some((n, fs)) => if !protected.contains(n) && stores_var(b[i + 1], n) && !reads_in_targets(b[i + 1], n)
            && fits_after_targets(fs, b[i + 1]) && !read_again(b, i + 2, n, cont, last) {
            Some(spec_splice(b, i, i + 2, only(with_value(b[i + 1], ExprV::Table(fs)))))
        } else {
            None
        },
        None => None,
    }
}

/// `b` with literals moved from `i` on.
pub open spec fn moved_from(b: Block, i: int, cont: Seq<Block>, last: bool, protected: Seq<Text>) -> Block
    decreases b.len() - i,
{
    if i < 0 || i + 1 >= b.len() {
        b
    } else {
        match moved_at(b, i, cont, last, protected) {
            Some(c) => if c.len() < b.len() {
                moved_from(c, i, cont, last, protected)
            } else {
                c
            },
            None => moved_from(b, i + 1, cont, last, protected),
        }
    }
}

/// `b`, which the blocks `cont` follow, with literals moved into the assignments that store them,
/// in its nested blocks first. `last` says whether what follows all that may still read a variable.
pub open spec fn literals_moved(b: Block, cont: Seq<Block>, last: bool, protected: Seq<Text>) -> Block
    decreases b, 1nat,
{
    moved_from(literals_moved_inside(b, cont, last, protected), 0, cont, last, protected)
}

pub open spec fn literals_moved_inside(b: Block, cont: Seq<Block>, last: bool, protected: Seq<Text>) -> Block
    decreases b, 0nat,
{
    Seq::new(
        b.len(),
        |i: int|
            if 0 <= i < b.len() {
                literals_moved_in(b[i], seq![b.subrange(i + 1, b.len() as int)] + cont, last, protected)
            } else {
                StmtV::Break
            },
    )
}

/// A branch goes on with what follows its `if`; a round of a loop may follow another.
pub open spec fn literals_moved_in(s: StmtV, cont: Seq<Block>, last: bool, protected: Seq<Text>) -> StmtV
    decreases s, 0nat,
{
    match s {
        StmtV::If { cond, then_body, else_body } => StmtV::If {
            cond,
            then_body: literals_moved(then_body, cont, last, protected),
            else_body: literals_moved(else_body, cont, last, protected),
        },
        StmtV::Loop { head, body } => StmtV::Loop { head, body: literals_moved(body, Seq::empty(), true, protected) },
        _ => s,
    }
}

fn reads_next(b: &[Stmt], from: usize, n: &str) -> (r: Option<bool>)
    requires
        from <= b.len(),
    ensures
        r == read_next(block(b@), from as int, n@),
{
    let mut k: usize = from;
    while k < b.len()
        invariant
            from <= k <= b.len(),
            read_next(block(b@), from as int, n@) == read_next(block(b@), k as int, n@),
        decreases b.len() - k,
    {
        if stmt_reads_var(&b[k], n) {
            return Some(true);
        }
        if directly_writes_var(&b[k], n) {
            return Some(false);
        }
        if is_control_flow(&b[k]) {
            return Some(true);
        }
        k += 1;
    }
    None
}

fn is_read_again(b: &Vec<Stmt>, from: usize, n: &str, cont: &Vec<&[Stmt]>, last: bool) -> (r: bool)
    requires
        from <= b.len(),
    ensures
        r == read_again(block(b@), from as int, n@, slices(cont@), last),
{
    if let Some(r) = reads_next(b, from, n) {
        return r;
    }
    let ghost v = slices(cont@);
    let mut k: usize = 0;
    while k < cont.len()
        invariant
            k <= cont.len(),
            v == slices(cont@),
            read_next(block(b@), from as int, n@) is None,
            read_later(v, 0, n@, last) == read_later(v, k as int, n@, last),
        decreases cont.len() - k,
    {
        assert(v[k as int] == block(cont@[k as int]@));
        if let Some(r) = reads_next(cont[k], 0, n) {
            return r;
        }
        k += 1;
    }
    last
}

fn is_store_of(s: &Stmt, n: &str) -> (r: bool)
    ensures
        r == stores_var(s@, n@),
{
    match s {
        Stmt::Assign { values, .. } => {
            assert(exprs(values@).len() == values@.len());
            if values.len() == 1 {
                assert(exprs(values@)[0] == values@[0]@);
                is_var(&values[0], n)
            } else {
                false
            }
        },
        _ => false,
    }
}

fn can_follow_targets(fs: &Vec<TableField>, s: &Stmt) -> (r: bool)
    ensures
        r == fits_after_targets(fields(fs@), s@),
{
    all_fields_pure(fs) || match s {
        Stmt::Assign { targets, .. } => all_pure(targets),
        _ => false,
    }
}

fn try_move_at(b: &Vec<Stmt>, i: usize, cont: &Vec<&[Stmt]>, last: bool, protected: &NameSet) -> (r: Option<Vec<Stmt>>)
    requires
        i + 1 < b.len(),
    ensures
        opt_block(r) == moved_at(block(b@), i as int, slices(cont@), last, protected@),
{
    match table_init_of(&b[i]) {
        None => None,
        Some((n, fs)) => {
            if !protected.contains(n) && is_store_of(&b[i + 1], n) && !stmt_reads_var_in_assignment_target(
                &b[i + 1],
                n,
            ) && can_follow_targets(fs, &b[i + 1]) && !is_read_again(b, i + 2, n, cont, last) {
                let made = assign_value(&b[i + 1], Expr::Table(clone_fields(fs)));
                Some(splice(b, i, i + 2, one(made)))
            } else {
                None
            }
        },
    }
}

fn move_from(b: Vec<Stmt>, cont: &Vec<&[Stmt]>, last: bool, protected: &NameSet) -> (r: Vec<Stmt>)
    ensures
        block(r@) == moved_from(block(b@), 0, slices(cont@), last, protected@),
{
    let ghost v = block(b@);
    let ghost w = slices(cont@);
    let mut cur = b;
    let mut i: usize = 0;
    while i < cur.len() && i + 1 < cur.len()
        invariant
            i <= cur.len(),
            w == slices(cont@),
            moved_from(v, 0, w, last, protected@) == moved_from(block(cur@), i as int, w, last, protected@),
        decreases cur.len() - i,
    {
        match try_move_at(&cur, i, cont, last, protected) {
            Some(c) => {
                assert(block(c@).len() == c@.len());
                assert(block(cur@).len() == cur@.len());
                cur = c;
            },
            None => {
                i += 1;
            },
        }
    }
    assert(block(cur@).len() == cur@.len());
    cur
}

fn move_literals<'a>(b: &'a [Stmt], cont: &Vec<&'a [Stmt]>, last: bool, protected: &NameSet) -> (r: Vec<Stmt>)
    ensures
        block(r@) == literals_moved(block(b@), slices(cont@), last, protected@),
    decreases b@, 1nat,
{
    let n: usize = b.len();
    let ghost v = block(b@);
    let ghost c = slices(cont@);
    let mut inner: Vec<Stmt> = Vec::new();
    let mut i: usize = 0;
    while i < n
        invariant
            i <= n,
            n == b.len(),
            v == block(b@),
            c == slices(cont@),
            inner.len() == i,
            forall|j: int|
                0 <= j < i ==> (#[trigger] inner@[j])@ == literals_moved_in(
                    v[j],
                    seq![v.subrange(j + 1, v.len() as int)] + c,
                    last,
                    protected@,
                ),
        decreases n - i,
    {
        assert(v[i as int] == b@[i as int]@);
        let child = extended(range(b, i + 1, n), cont);
        inner.push(move_literals_in(&b[i], &child, last, protected));
        i += 1;
    }
    assert(block(inner@) =~= literals_moved_inside(v, c, last, protected@));
    move_from(inner, cont, last, protected)
}

fn move_literals_in<'a>(s: &'a Stmt, cont: &Vec<&'a [Stmt]>, last: bool, protected: &NameSet) -> (r: Stmt)
    ensures
        r@ == literals_moved_in(s@, slices(cont@), last, protected@),
    decreases s, 0nat,
{
    if let Stmt::If { cond, then_body, else_body } = s {
        Stmt::If {
            cond: cond.clone(),
            then_body: move_literals(then_body, cont, last, protected),
            else_body: move_literals(else_body, cont, last, protected),
        }
    } else {
        match loop_body(s) {
            Some(body) => {
                let nothing: Vec<&'a [Stmt]> = Vec::new();
                assert(slices(nothing@) =~= Seq::<Block>::empty());
                let b = move_literals(body, &nothing, true, protected);
                with_loop_body(s, b)
            },
            None => s.clone(),
        }
    }
}

/// Moves a table literal that is stored right after it was made, and not read again before its
/// variable is overwritten, into the assignment that stores it. Assignments to `protected` names
/// stay.
pub fn inline_unseen_table_literals(root: &mut Vec<Stmt>, protected: &NameSet)
    ensures
        block(final(root)@) == literals_moved(block(old(root)@), Seq::empty(), false, protected@),
{
    let out = {
        let nothing: Vec<&[Stmt]> = Vec::new();
        assert(slices(nothing@) =~= Seq::<Block>::empty());
        move_literals(root, &nothing, false, protected)
    };
    *root = out;
}

/// Moves a table literal that is stored right after it was made, and not read again before its
/// variable is overwritten, into the assignment that stores it.
pub fn inline_table_literal_fill_temps(root: &mut Vec<Stmt>)
    ensures
        block(final(root)@) == literals_moved(block(old(root)@), Seq::empty(), false, Seq::empty()),
{
    inline_unseen_table_literals(root, &NameSet::new());
}

} // verus!
