//! What statements do when they run.
//!
//! Values, and how they are combined, are left open: whatever is proved here holds for all of them.
//! A call gives one value. What tables hold, and what calls have done so far, is the world; calls
//! and stores through tables change it, and nothing else does.
use vstd::prelude::*;

use crate::ast::{Block, Capture, ExprV, FieldV, LoopHead, StmtV};
use crate::markers::assigns;
use crate::naming::builds_value;
use crate::query::{
    expr_reads, exprs_reads, field_reads, fields_reads, own_writes, reads_of, targets_reads, var_names, writes_to,
};
use crate::text::Text;
use crate::weight::{deep, deep_stmt};

verus! {

/// A value.
pub type Val = int;

/// What tables hold, and what calls have done.
pub type World = int;

/// The values of the variables.
pub type Env = spec_fn(Text) -> Val;

/// A field of a new table.
#[verifier::ext_equal]
pub enum SlotV {
    Item(Val),
    Name(Text, Val),
    Key(Val, Val),
}

/// Which values there are, and how they are combined.
pub struct Lang {
    pub nil: Val,
    pub yes: Val,
    pub no: Val,
    pub varargs: Val,
    /// Whether a value counts as true.
    pub truthy: spec_fn(Val) -> bool,
    pub number: spec_fn(Text) -> Val,
    /// What a string literal stands for.
    pub string: spec_fn(Text) -> Val,
    /// A string, by its text.
    pub text: spec_fn(Text) -> Val,
    pub vector: spec_fn(Text) -> Val,
    /// What a dotted path of globals leads to.
    pub path: spec_fn(Text) -> Val,
    pub closure: spec_fn(Text, Seq<Capture>) -> Val,
    pub raw: spec_fn(World, Text) -> (World, Val),
    pub unary: spec_fn(Text, Val) -> Val,
    pub arith: spec_fn(Text, Val, Val) -> Val,
    pub eq: spec_fn(Val, Val) -> bool,
    pub lt: spec_fn(Val, Val) -> bool,
    pub le: spec_fn(Val, Val) -> bool,
    pub table: spec_fn(Seq<SlotV>) -> Val,
    pub get: spec_fn(World, Val, Val) -> Val,
    pub get_field: spec_fn(World, Val, Text) -> Val,
    pub set: spec_fn(World, Val, Val, Val) -> World,
    pub set_field: spec_fn(World, Val, Text, Val) -> World,
    /// What a constructor of a datatype builds.
    pub build: spec_fn(Val, Seq<Val>) -> Val,
    pub call: spec_fn(World, Val, Seq<Val>) -> (World, Val),
    pub method: spec_fn(World, Val, Text, Seq<Val>) -> (World, Val),
    /// One of the values that a list of values stands for.
    pub nth: spec_fn(Val, int) -> Val,
    /// Whether a numeric `for` goes on at a value, up to a limit, with a step.
    pub more: spec_fn(Val, Val, Val) -> bool,
    pub next: spec_fn(Val, Val) -> Val,
    /// What a generic `for` gets from its iterator.
    pub each: spec_fn(World, Seq<Val>, Val) -> (World, Option<Seq<Val>>),
}

/// Whether `nil` and `false` count as false, and `true` as true.
pub open spec fn lawful(l: Lang) -> bool {
    (l.truthy)(l.yes) && !(l.truthy)(l.no) && !(l.truthy)(l.nil)
}

/// The value of a condition.
pub open spec fn bool_val(l: Lang, b: bool) -> Val {
    if b {
        l.yes
    } else {
        l.no
    }
}

/// `env` with the value `v` for `n`.
pub open spec fn with_var(env: Env, n: Text, v: Val) -> Env {
    |x: Text| if x == n {
        v
    } else {
        env(x)
    }
}

// ---- expressions ------------------------------------------------------------------------------------------

/// A value, and the world after it was computed.
#[verifier::ext_equal]
pub struct EvalV {
    pub v: Val,
    pub w: World,
}

/// Values, and the world after they were computed.
#[verifier::ext_equal]
pub struct EvalsV {
    pub vs: Seq<Val>,
    pub w: World,
}

/// Fields of a table, and the world after they were computed.
#[verifier::ext_equal]
pub struct SlotsV {
    pub slots: Seq<SlotV>,
    pub w: World,
}

/// The value of a unary operation.
pub open spec fn unary_val(l: Lang, op: Text, a: Val) -> Val {
    if op == "not "@ {
        bool_val(l, !(l.truthy)(a))
    } else {
        (l.unary)(op, a)
    }
}

/// The value of a binary operation that evaluates both operands. Of two opposite comparisons
/// exactly one holds.
pub open spec fn binary_val(l: Lang, op: Text, a: Val, b: Val) -> Val {
    if op == "=="@ {
        bool_val(l, (l.eq)(a, b))
    } else if op == "~="@ {
        bool_val(l, !(l.eq)(a, b))
    } else if op == "<"@ {
        bool_val(l, (l.lt)(a, b))
    } else if op == "<="@ {
        bool_val(l, (l.le)(a, b))
    } else if op == ">"@ {
        bool_val(l, !(l.le)(a, b))
    } else if op == ">="@ {
        bool_val(l, !(l.lt)(a, b))
    } else {
        (l.arith)(op, a, b)
    }
}

/// Evaluates `e`, from left to right.
pub open spec fn eval(l: Lang, e: ExprV, env: Env, w: World) -> EvalV
    decreases e,
{
    match e {
        ExprV::Nil => EvalV { v: l.nil, w },
        ExprV::Bool(b) => EvalV { v: bool_val(l, b), w },
        ExprV::Num(t) => EvalV { v: (l.number)(t), w },
        ExprV::Str(t) => EvalV { v: (l.string)(t), w },
        ExprV::Vector(t) => EvalV { v: (l.vector)(t), w },
        ExprV::Var(n) => EvalV {
            v: if n.contains('.') {
                (l.path)(n)
            } else {
                env(n)
            },
            w,
        },
        ExprV::Index(t, k) => {
            let a = eval(l, *t, env, w);
            let b = eval(l, *k, env, a.w);
            EvalV { v: (l.get)(b.w, a.v, b.v), w: b.w }
        },
        ExprV::Field(t, f) => {
            let a = eval(l, *t, env, w);
            EvalV { v: (l.get_field)(a.w, a.v, f), w: a.w }
        },
        ExprV::Call(f, args) => {
            let a = eval(l, *f, env, w);
            let b = eval_all(l, args, env, a.w);
            if builds_value(*f) {
                EvalV { v: (l.build)(a.v, b.vs), w: b.w }
            } else {
                let r = (l.call)(b.w, a.v, b.vs);
                EvalV { v: r.1, w: r.0 }
            }
        },
        ExprV::MethodCall(o, m, args) => {
            let a = eval(l, *o, env, w);
            let b = eval_all(l, args, env, a.w);
            let r = (l.method)(b.w, a.v, m, b.vs);
            EvalV { v: r.1, w: r.0 }
        },
        ExprV::Unary(op, x) => {
            let a = eval(l, *x, env, w);
            EvalV { v: unary_val(l, op, a.v), w: a.w }
        },
        ExprV::Binary(op, x, y) => {
            let a = eval(l, *x, env, w);
            if op == "and"@ {
                if (l.truthy)(a.v) {
                    eval(l, *y, env, a.w)
                } else {
                    a
                }
            } else if op == "or"@ {
                if (l.truthy)(a.v) {
                    a
                } else {
                    eval(l, *y, env, a.w)
                }
            } else {
                let b = eval(l, *y, env, a.w);
                EvalV { v: binary_val(l, op, a.v, b.v), w: b.w }
            }
        },
        ExprV::Table(fs) => {
            let s = eval_fields(l, fs, env, w);
            EvalV { v: (l.table)(s.slots), w: s.w }
        },
        ExprV::Vararg => EvalV { v: l.varargs, w },
        ExprV::Closure { text, captures } => EvalV { v: (l.closure)(text, captures), w },
        ExprV::Raw(t) => {
            let r = (l.raw)(w, t);
            EvalV { v: r.1, w: r.0 }
        },
    }
}

/// Evaluates `es`, from left to right.
pub open spec fn eval_all(l: Lang, es: Seq<ExprV>, env: Env, w: World) -> EvalsV
    decreases es,
{
    if es.len() == 0 {
        EvalsV { vs: Seq::empty(), w }
    } else {
        let a = eval_all(l, es.drop_last(), env, w);
        let b = eval(l, es.last(), env, a.w);
        EvalsV { vs: a.vs.push(b.v), w: b.w }
    }
}

/// Evaluates the fields of a table, from left to right.
pub open spec fn eval_fields(l: Lang, fs: Seq<FieldV>, env: Env, w: World) -> SlotsV
    decreases fs,
{
    if fs.len() == 0 {
        SlotsV { slots: Seq::empty(), w }
    } else {
        let a = eval_fields(l, fs.drop_last(), env, w);
        let b = eval_field(l, fs.last(), env, a.w);
        SlotsV { slots: a.slots + b.slots, w: b.w }
    }
}

pub open spec fn eval_field(l: Lang, f: FieldV, env: Env, w: World) -> SlotsV
    decreases f,
{
    match f {
        FieldV::Item(e) => {
            let a = eval(l, e, env, w);
            SlotsV { slots: seq![SlotV::Item(a.v)], w: a.w }
        },
        FieldV::Named(k, e) => {
            let a = eval(l, e, env, w);
            SlotsV { slots: seq![SlotV::Name(k, a.v)], w: a.w }
        },
        FieldV::Keyed(k, e) => {
            let a = eval(l, k, env, w);
            let b = eval(l, e, env, a.w);
            SlotsV { slots: seq![SlotV::Key(a.v, b.v)], w: b.w }
        },
    }
}

// ---- assignments ------------------------------------------------------------------------------------------

/// The variables and the world.
pub struct StateV {
    pub env: Env,
    pub w: World,
}

/// What an assignment writes to.
#[verifier::ext_equal]
pub enum PlaceV {
    Name(Text),
    Field(Val, Text),
    Index(Val, Val),
    Nowhere,
}

/// Places, and the world after they were computed.
#[verifier::ext_equal]
pub struct PlacesV {
    pub places: Seq<PlaceV>,
    pub w: World,
}

/// Evaluates what the target `t` writes to.
pub open spec fn eval_place(l: Lang, t: ExprV, env: Env, w: World) -> (PlaceV, World) {
    match t {
        ExprV::Var(n) => (PlaceV::Name(n), w),
        ExprV::Field(x, f) => {
            let a = eval(l, *x, env, w);
            (PlaceV::Field(a.v, f), a.w)
        },
        ExprV::Index(x, k) => {
            let a = eval(l, *x, env, w);
            let b = eval(l, *k, env, a.w);
            (PlaceV::Index(a.v, b.v), b.w)
        },
        _ => (PlaceV::Nowhere, eval(l, t, env, w).w),
    }
}

/// Evaluates what the targets `ts` write to, from left to right.
pub open spec fn eval_places(l: Lang, ts: Seq<ExprV>, env: Env, w: World) -> PlacesV
    decreases ts.len(),
{
    if ts.len() == 0 {
        PlacesV { places: Seq::empty(), w }
    } else {
        let a = eval_places(l, ts.drop_last(), env, w);
        let b = eval_place(l, ts.last(), env, a.w);
        PlacesV { places: a.places.push(b.0), w: b.1 }
    }
}

/// The value for target number `k` of `n`: a last value stands for a list of values.
pub open spec fn value_at(l: Lang, vs: Seq<Val>, k: int, n: int) -> Val {
    if vs.len() == 0 {
        l.nil
    } else if k < vs.len() - 1 || vs.len() >= n {
        vs[k]
    } else {
        (l.nth)(vs.last(), k - (vs.len() - 1))
    }
}

/// Writes `v` to a place.
pub open spec fn stored(l: Lang, st: StateV, p: PlaceV, v: Val) -> StateV {
    match p {
        PlaceV::Name(n) => StateV { env: with_var(st.env, n, v), ..st },
        PlaceV::Field(t, f) => StateV { w: (l.set_field)(st.w, t, f, v), ..st },
        PlaceV::Index(t, k) => StateV { w: (l.set)(st.w, t, k, v), ..st },
        PlaceV::Nowhere => st,
    }
}

/// Writes values to the first `k` places.
pub open spec fn stored_all(l: Lang, st: StateV, ps: Seq<PlaceV>, vs: Seq<Val>, k: int) -> StateV
    decreases k,
{
    if k <= 0 {
        st
    } else {
        stored(l, stored_all(l, st, ps, vs, k - 1), ps[k - 1], value_at(l, vs, k - 1, ps.len() as int))
    }
}

/// The places that names are.
pub open spec fn name_places(names: Seq<Text>) -> Seq<PlaceV> {
    Seq::new(names.len(), |i: int| PlaceV::Name(names[i]))
}

// ---- statements -------------------------------------------------------------------------------------------

/// How control leaves a statement.
#[verifier::ext_equal]
pub enum OutcomeV {
    Normal,
    Break,
    Continue,
    Return(Seq<Val>),
    Goto(Text),
    /// It takes more rounds of loops than were allowed.
    Unfinished,
}

/// How a run ends, and the state then.
pub struct RunV {
    pub out: OutcomeV,
    pub st: StateV,
}

/// What a loop remembers from round to round.
#[verifier::ext_equal]
pub enum RoundV {
    Plain,
    Count { at: Val, limit: Val, step: Val },
    Each { vs: Seq<Val>, at: Val },
}

/// Runs `s`, where loops make at most `fuel` rounds, one inside the other.
pub open spec fn exec(l: Lang, s: StmtV, st: StateV, fuel: nat) -> RunV
    decreases fuel, s, 0nat,
{
    match s {
        StmtV::Local { names, values } => {
            let a = eval_all(l, values, st.env, st.w);
            RunV {
                out: OutcomeV::Normal,
                st: stored_all(l, StateV { env: st.env, w: a.w }, name_places(names), a.vs, names.len() as int),
            }
        },
        StmtV::Assign { targets, values } => {
            let p = eval_places(l, targets, st.env, st.w);
            let a = eval_all(l, values, st.env, p.w);
            RunV {
                out: OutcomeV::Normal,
                st: stored_all(l, StateV { env: st.env, w: a.w }, p.places, a.vs, p.places.len() as int),
            }
        },
        StmtV::Call(e) => RunV {
            out: OutcomeV::Normal,
            st: StateV { env: st.env, w: eval(l, e, st.env, st.w).w },
        },
        StmtV::Return(es) => {
            let a = eval_all(l, es, st.env, st.w);
            RunV { out: OutcomeV::Return(a.vs), st: StateV { env: st.env, w: a.w } }
        },
        StmtV::Break => RunV { out: OutcomeV::Break, st },
        StmtV::Continue => RunV { out: OutcomeV::Continue, st },
        StmtV::If { cond, then_body, else_body } => {
            let a = eval(l, cond, st.env, st.w);
            let t = StateV { env: st.env, w: a.w };
            if (l.truthy)(a.v) {
                run(l, then_body, t, fuel)
            } else {
                run(l, else_body, t, fuel)
            }
        },
        StmtV::Loop { head, body } => {
            let b = begun(l, head, st);
            rounds(l, head, body, b.1, b.0, fuel)
        },
        StmtV::Label(_) => RunV { out: OutcomeV::Normal, st },
        StmtV::Goto(t) => RunV { out: OutcomeV::Goto(t), st },
        StmtV::Comment(_) => RunV { out: OutcomeV::Normal, st },
    }
}

/// Runs the statements of `b` one after the other, until one does not end normally.
pub open spec fn run(l: Lang, b: Block, st: StateV, fuel: nat) -> RunV
    decreases fuel, b, 1nat,
{
    if b.len() == 0 {
        RunV { out: OutcomeV::Normal, st }
    } else {
        let r = run(l, b.drop_last(), st, fuel);
        if r.out is Normal {
            exec(l, b.last(), r.st, fuel)
        } else {
            r
        }
    }
}

/// What a loop evaluates before its first round.
pub open spec fn begun(l: Lang, head: LoopHead, st: StateV) -> (RoundV, StateV) {
    match head {
        LoopHead::While(_) => (RoundV::Plain, st),
        LoopHead::Repeat(_) => (RoundV::Plain, st),
        LoopHead::Numeric { start, limit, step, .. } => {
            let a = eval(l, start, st.env, st.w);
            let b = eval(l, limit, st.env, a.w);
            match step {
                Some(e) => {
                    let c = eval(l, e, st.env, b.w);
                    (RoundV::Count { at: a.v, limit: b.v, step: c.v }, StateV { env: st.env, w: c.w })
                },
                None => (
                    RoundV::Count { at: a.v, limit: b.v, step: (l.number)("1"@) },
                    StateV { env: st.env, w: b.w },
                ),
            }
        },
        LoopHead::Generic { exprs, .. } => {
            let a = eval_all(l, exprs, st.env, st.w);
            (RoundV::Each { vs: a.vs, at: l.nil }, StateV { env: st.env, w: a.w })
        },
    }
}

/// Whether a loop makes a round, the state at its beginning, and what is remembered for the next.
pub open spec fn entered(l: Lang, head: LoopHead, st: StateV, c: RoundV) -> (bool, StateV, RoundV) {
    match (head, c) {
        (LoopHead::While(e), _) => {
            let a = eval(l, e, st.env, st.w);
            ((l.truthy)(a.v), StateV { env: st.env, w: a.w }, c)
        },
        (LoopHead::Repeat(_), _) => (true, st, c),
        (LoopHead::Numeric { var, .. }, RoundV::Count { at, limit, step }) => if (l.more)(at, limit, step) {
            (
                true,
                StateV { env: with_var(st.env, var, at), ..st },
                RoundV::Count { at: (l.next)(at, step), limit, step },
            )
        } else {
            (false, st, c)
        },
        (LoopHead::Generic { vars, .. }, RoundV::Each { vs, at }) => {
            let r = (l.each)(st.w, vs, at);
            match r.1 {
                Some(xs) => (
                    true,
                    stored_all(l, StateV { env: st.env, w: r.0 }, name_places(vars), xs, vars.len() as int),
                    RoundV::Each {
                        vs,
                        at: if xs.len() > 0 {
                            xs[0]
                        } else {
                            l.nil
                        },
                    },
                ),
                None => (false, StateV { env: st.env, w: r.0 }, c),
            }
        },
        _ => (false, st, c),
    }
}

/// Whether a loop ends after a round, and the state then.
pub open spec fn left(l: Lang, head: LoopHead, st: StateV) -> (bool, StateV) {
    match head {
        LoopHead::Repeat(e) => {
            let a = eval(l, e, st.env, st.w);
            ((l.truthy)(a.v), StateV { env: st.env, w: a.w })
        },
        _ => (false, st),
    }
}

/// The rounds of a loop that are still to come.
pub open spec fn rounds(l: Lang, head: LoopHead, body: Block, st: StateV, c: RoundV, fuel: nat) -> RunV
    decreases fuel, body, 2nat,
{
    let e = entered(l, head, st, c);
    if !e.0 {
        RunV { out: OutcomeV::Normal, st: e.1 }
    } else if fuel == 0 {
        RunV { out: OutcomeV::Unfinished, st: e.1 }
    } else {
        let r = run(l, body, e.1, (fuel - 1) as nat);
        match r.out {
            OutcomeV::Normal | OutcomeV::Continue => {
                let x = left(l, head, r.st);
                if x.0 {
                    RunV { out: OutcomeV::Normal, st: x.1 }
                } else {
                    rounds(l, head, body, x.1, e.2, (fuel - 1) as nat)
                }
            },
            OutcomeV::Break => RunV { out: OutcomeV::Normal, st: r.st },
            _ => r,
        }
    }
}

/// A run of two blocks is a run of the first, and of the second where the first ends normally.
pub proof fn run_concat(l: Lang, a: Block, b: Block, st: StateV, fuel: nat)
    ensures
        run(l, a + b, st, fuel) == ({
            let r = run(l, a, st, fuel);
            if r.out is Normal {
                run(l, b, r.st, fuel)
            } else {
                r
            }
        }),
    decreases b.len(),
{
    if b.len() == 0 {
        assert(a + b =~= a);
        let r = run(l, a, st, fuel);
        assert(r.out is Normal ==> r == RunV { out: OutcomeV::Normal, st: r.st });
    } else {
        run_concat(l, a, b.drop_last(), st, fuel);
        assert((a + b).drop_last() =~= a + b.drop_last());
        assert((a + b).last() == b.last());
    }
}

/// A run of one statement.
pub proof fn run_one(l: Lang, s: StmtV, st: StateV, fuel: nat)
    ensures
        run(l, seq![s], st, fuel) == exec(l, s, st, fuel),
{
    assert(seq![s].drop_last() =~= Seq::<StmtV>::empty());
    assert(run(l, Seq::<StmtV>::empty(), st, fuel) == (RunV { out: OutcomeV::Normal, st }));
}

// ---- what is not read does not matter ---------------------------------------------------------------------

/// An expression that does not read `n` has the same value whatever `n` is.
pub proof fn unread_eval(l: Lang, e: ExprV, env: Env, env2: Env, n: Text, w: World)
    requires
        expr_reads(e, n) == 0,
        forall|x: Text| x != n ==> #[trigger] env(x) == env2(x),
    ensures
        eval(l, e, env, w) == eval(l, e, env2, w),
    decreases e,
{
    match e {
        ExprV::Index(t, k) => {
            unread_eval(l, *t, env, env2, n, w);
            unread_eval(l, *k, env, env2, n, eval(l, *t, env, w).w);
        },
        ExprV::Field(t, _) => {
            unread_eval(l, *t, env, env2, n, w);
        },
        ExprV::Call(f, args) => {
            unread_eval(l, *f, env, env2, n, w);
            unread_eval_all(l, args, env, env2, n, eval(l, *f, env, w).w);
        },
        ExprV::MethodCall(o, _, args) => {
            unread_eval(l, *o, env, env2, n, w);
            unread_eval_all(l, args, env, env2, n, eval(l, *o, env, w).w);
        },
        ExprV::Unary(_, a) => {
            unread_eval(l, *a, env, env2, n, w);
        },
        ExprV::Binary(_, a, b) => {
            unread_eval(l, *a, env, env2, n, w);
            unread_eval(l, *b, env, env2, n, eval(l, *a, env, w).w);
        },
        ExprV::Table(fs) => {
            unread_eval_fields(l, fs, env, env2, n, w);
        },
        ExprV::Var(m) => {
            if m != n {
                assert(env(m) == env2(m));
            }
        },
        _ => {},
    }
}

pub proof fn unread_eval_all(l: Lang, es: Seq<ExprV>, env: Env, env2: Env, n: Text, w: World)
    requires
        exprs_reads(es, n) == 0,
        forall|x: Text| x != n ==> #[trigger] env(x) == env2(x),
    ensures
        eval_all(l, es, env, w) == eval_all(l, es, env2, w),
    decreases es,
{
    if es.len() > 0 {
        unread_eval_all(l, es.drop_last(), env, env2, n, w);
        unread_eval(l, es.last(), env, env2, n, eval_all(l, es.drop_last(), env, w).w);
    }
}

pub proof fn unread_eval_fields(l: Lang, fs: Seq<FieldV>, env: Env, env2: Env, n: Text, w: World)
    requires
        fields_reads(fs, n) == 0,
        forall|x: Text| x != n ==> #[trigger] env(x) == env2(x),
    ensures
        eval_fields(l, fs, env, w) == eval_fields(l, fs, env2, w),
    decreases fs,
{
    if fs.len() > 0 {
        unread_eval_fields(l, fs.drop_last(), env, env2, n, w);
        let u = eval_fields(l, fs.drop_last(), env, w).w;
        assert(field_reads(fs.last(), n) == 0);
        match fs.last() {
            FieldV::Item(e) => {
                unread_eval(l, e, env, env2, n, u);
            },
            FieldV::Named(_, e) => {
                unread_eval(l, e, env, env2, n, u);
            },
            FieldV::Keyed(k, e) => {
                unread_eval(l, k, env, env2, n, u);
                unread_eval(l, e, env, env2, n, eval(l, k, env, u).w);
            },
        }
        assert(eval_field(l, fs.last(), env, u) == eval_field(l, fs.last(), env2, u));
    }
}

// ---- runs that differ in one variable ---------------------------------------------------------------------

/// Whether two states differ in `n` at most.
pub open spec fn alike(n: Text, st: StateV, st2: StateV) -> bool {
    st.w == st2.w && forall|x: Text| x != n ==> #[trigger] (st.env)(x) == (st2.env)(x)
}

/// Whether two runs end the same way, in states that differ in `n` at most.
pub open spec fn same_run(n: Text, r: RunV, r2: RunV) -> bool {
    r.out == r2.out && alike(n, r.st, r2.st)
}

/// Whether one of the first `k` places is the variable `n`.
pub open spec fn places_name(ps: Seq<PlaceV>, k: int, n: Text) -> bool {
    exists|i: int| 0 <= i < k && #[trigger] ps[i] == PlaceV::Name(n)
}

pub proof fn unread_stored(l: Lang, st: StateV, st2: StateV, ps: Seq<PlaceV>, vs: Seq<Val>, k: int, n: Text)
    requires
        alike(n, st, st2),
        k <= ps.len(),
    ensures
        alike(n, stored_all(l, st, ps, vs, k), stored_all(l, st2, ps, vs, k)),
        places_name(ps, k, n) ==> (stored_all(l, st, ps, vs, k).env)(n) == (stored_all(l, st2, ps, vs, k).env)(n),
        (st.env)(n) == (st2.env)(n) ==> (stored_all(l, st, ps, vs, k).env)(n) == (stored_all(l, st2, ps, vs, k).env)(n),
    decreases k,
{
    if k > 0 {
        unread_stored(l, st, st2, ps, vs, k - 1, n);
        let a = stored_all(l, st, ps, vs, k - 1);
        let b = stored_all(l, st2, ps, vs, k - 1);
        let v = value_at(l, vs, k - 1, ps.len() as int);
        let c = stored(l, a, ps[k - 1], v);
        let d = stored(l, b, ps[k - 1], v);
        assert forall|x: Text| x != n implies #[trigger] (c.env)(x) == (d.env)(x) by {
            assert((a.env)(x) == (b.env)(x));
        }
        if places_name(ps, k, n) && ps[k - 1] != PlaceV::Name(n) {
            let i = choose|i: int| 0 <= i < k && #[trigger] ps[i] == PlaceV::Name(n);
            assert(0 <= i < k - 1);
            assert(places_name(ps, k - 1, n));
        }
    }
}

pub proof fn unread_places(l: Lang, ts: Seq<ExprV>, env: Env, env2: Env, n: Text, w: World)
    requires
        targets_reads(ts, n) == 0,
        forall|x: Text| x != n ==> #[trigger] env(x) == env2(x),
    ensures
        eval_places(l, ts, env, w) == eval_places(l, ts, env2, w),
    decreases ts.len(),
{
    if ts.len() > 0 {
        unread_places(l, ts.drop_last(), env, env2, n, w);
        let u = eval_places(l, ts.drop_last(), env, w).w;
        let t = ts.last();
        match t {
            ExprV::Var(_) => {},
            ExprV::Field(x, _) => {
                unread_eval(l, *x, env, env2, n, u);
            },
            ExprV::Index(x, k) => {
                unread_eval(l, *x, env, env2, n, u);
                unread_eval(l, *k, env, env2, n, eval(l, *x, env, u).w);
            },
            _ => {
                unread_eval(l, t, env, env2, n, u);
            },
        }
        assert(eval_place(l, t, env, u) == eval_place(l, t, env2, u));
    }
}

/// The places of targets are as many as the targets, and bare names are places.
pub proof fn places_of_targets(l: Lang, ts: Seq<ExprV>, env: Env, w: World)
    ensures
        eval_places(l, ts, env, w).places.len() == ts.len(),
        forall|i: int|
            0 <= i < ts.len() ==> match ts[i] {
                ExprV::Var(n) => #[trigger] eval_places(l, ts, env, w).places[i] == PlaceV::Name(n),
                _ => !(eval_places(l, ts, env, w).places[i] is Name),
            },
    decreases ts.len(),
{
    if ts.len() > 0 {
        let front = ts.drop_last();
        places_of_targets(l, front, env, w);
        let a = eval_places(l, front, env, w);
        let ps = eval_places(l, ts, env, w).places;
        assert forall|i: int| 0 <= i < ts.len() implies match ts[i] {
            ExprV::Var(n) => #[trigger] ps[i] == PlaceV::Name(n),
            _ => !(ps[i] is Name),
        } by {
            if i < ts.len() - 1 {
                assert(front[i] == ts[i]);
                assert(ps[i] == a.places[i]);
            }
        }
    }
}

/// A target that is a bare name is among the names that an assignment writes.
pub proof fn target_named(ts: Seq<ExprV>, n: Text)
    ensures
        var_names(ts).contains(n) <==> exists|i: int| 0 <= i < ts.len() && #[trigger] ts[i] == ExprV::Var(n),
    decreases ts.len(),
{
    if ts.len() > 0 {
        let front = ts.drop_last();
        target_named(front, n);
        let names = var_names(ts);
        if names.contains(n) {
            let k = choose|k: int| 0 <= k < names.len() && names[k] == n;
            if ts.last() is Var && k == names.len() - 1 {
                assert(ts[ts.len() - 1] == ExprV::Var(n));
            } else {
                assert(var_names(front)[k] == n);
                let i = choose|i: int| 0 <= i < front.len() && #[trigger] front[i] == ExprV::Var(n);
                assert(ts[i] == ExprV::Var(n));
            }
        }
        if exists|i: int| 0 <= i < ts.len() && #[trigger] ts[i] == ExprV::Var(n) {
            let i = choose|i: int| 0 <= i < ts.len() && #[trigger] ts[i] == ExprV::Var(n);
            if i < front.len() {
                assert(front[i] == ExprV::Var(n));
                let k = choose|k: int| 0 <= k < var_names(front).len() && var_names(front)[k] == n;
                assert(names[k] == n);
            } else {
                assert(names.last() == n);
                assert(names[names.len() - 1] == n);
            }
        }
    }
}

/// A statement that does not read `n` runs the same whatever `n` is; and where it assigns `n`, all
/// variables are the same afterwards.
pub proof fn unread_exec(l: Lang, s: StmtV, st: StateV, st2: StateV, n: Text, fuel: nat)
    requires
        alike(n, st, st2),
        deep_stmt(reads_of(n), s) == 0,
    ensures
        same_run(n, exec(l, s, st, fuel), exec(l, s, st2, fuel)),
        assigns(s, n) ==> (exec(l, s, st, fuel).st.env)(n) == (exec(l, s, st2, fuel).st.env)(n),
    decreases fuel, s, 0nat,
{
    match s {
        StmtV::Local { names, values } => {
            unread_eval_all(l, values, st.env, st2.env, n, st.w);
            let a = eval_all(l, values, st.env, st.w);
            let ps = name_places(names);
            let s1 = StateV { env: st.env, w: a.w };
            let s2 = StateV { env: st2.env, w: a.w };
            unread_stored(l, s1, s2, ps, a.vs, names.len() as int, n);
            if assigns(s, n) {
                let i = choose|i: int| 0 <= i < names.len() && names[i] == n;
                assert(ps[i] == PlaceV::Name(n));
                assert(places_name(ps, names.len() as int, n));
            }
        },
        StmtV::Assign { targets, values } => {
            unread_places(l, targets, st.env, st2.env, n, st.w);
            let p = eval_places(l, targets, st.env, st.w);
            unread_eval_all(l, values, st.env, st2.env, n, p.w);
            let a = eval_all(l, values, st.env, p.w);
            let s1 = StateV { env: st.env, w: a.w };
            let s2 = StateV { env: st2.env, w: a.w };
            unread_stored(l, s1, s2, p.places, a.vs, p.places.len() as int, n);
            if assigns(s, n) {
                target_named(targets, n);
                places_of_targets(l, targets, st.env, st.w);
                let i = choose|i: int| 0 <= i < targets.len() && #[trigger] targets[i] == ExprV::Var(n);
                assert(p.places[i] == PlaceV::Name(n));
                assert(places_name(p.places, p.places.len() as int, n));
            }
        },
        StmtV::Call(e) => {
            unread_eval(l, e, st.env, st2.env, n, st.w);
        },
        StmtV::Return(es) => {
            unread_eval_all(l, es, st.env, st2.env, n, st.w);
        },
        StmtV::If { cond, then_body, else_body } => {
            unread_eval(l, cond, st.env, st2.env, n, st.w);
            let a = eval(l, cond, st.env, st.w);
            let s1 = StateV { env: st.env, w: a.w };
            let s2 = StateV { env: st2.env, w: a.w };
            unread_run(l, then_body, s1, s2, n, fuel);
            unread_run(l, else_body, s1, s2, n, fuel);
        },
        StmtV::Loop { head, body } => {
            match head {
                LoopHead::Numeric { start, limit, step, .. } => {
                    unread_eval(l, start, st.env, st2.env, n, st.w);
                    let a = eval(l, start, st.env, st.w);
                    unread_eval(l, limit, st.env, st2.env, n, a.w);
                    let b = eval(l, limit, st.env, a.w);
                    if let Some(e) = step {
                        unread_eval(l, e, st.env, st2.env, n, b.w);
                    }
                },
                LoopHead::Generic { exprs, .. } => {
                    unread_eval_all(l, exprs, st.env, st2.env, n, st.w);
                },
                _ => {},
            }
            let b = begun(l, head, st);
            let b2 = begun(l, head, st2);
            assert(b.0 == b2.0);
            assert(alike(n, b.1, b2.1));
            unread_rounds(l, head, body, b.1, b2.1, b.0, n, fuel);
        },
        _ => {},
    }
}

pub proof fn unread_run(l: Lang, b: Block, st: StateV, st2: StateV, n: Text, fuel: nat)
    requires
        alike(n, st, st2),
        deep(reads_of(n), b) == 0,
    ensures
        same_run(n, run(l, b, st, fuel), run(l, b, st2, fuel)),
    decreases fuel, b, 1nat,
{
    if b.len() > 0 {
        unread_run(l, b.drop_last(), st, st2, n, fuel);
        let r = run(l, b.drop_last(), st, fuel);
        let r2 = run(l, b.drop_last(), st2, fuel);
        if r.out is Normal {
            unread_exec(l, b.last(), r.st, r2.st, n, fuel);
        }
    }
}

pub proof fn unread_rounds(l: Lang, head: LoopHead, body: Block, st: StateV, st2: StateV, c: RoundV, n: Text, fuel: nat)
    requires
        alike(n, st, st2),
        deep(reads_of(n), body) == 0,
        head matches LoopHead::While(e) ==> expr_reads(e, n) == 0,
        head matches LoopHead::Repeat(e) ==> expr_reads(e, n) == 0,
    ensures
        same_run(n, rounds(l, head, body, st, c, fuel), rounds(l, head, body, st2, c, fuel)),
    decreases fuel, body, 2nat,
{
    match head {
        LoopHead::While(e) => {
            unread_eval(l, e, st.env, st2.env, n, st.w);
        },
        LoopHead::Generic { vars, .. } => {
            if let RoundV::Each { vs, at } = c {
                let r = (l.each)(st.w, vs, at);
                if let Some(xs) = r.1 {
                    let s1 = StateV { env: st.env, w: r.0 };
                    let s2 = StateV { env: st2.env, w: r.0 };
                    unread_stored(l, s1, s2, name_places(vars), xs, vars.len() as int, n);
                }
            }
        },
        _ => {},
    }
    let e = entered(l, head, st, c);
    let e2 = entered(l, head, st2, c);
    assert(e.0 == e2.0 && e.2 == e2.2 && alike(n, e.1, e2.1));
    if e.0 && fuel > 0 {
        let k = (fuel - 1) as nat;
        unread_run(l, body, e.1, e2.1, n, k);
        let r = run(l, body, e.1, k);
        let r2 = run(l, body, e2.1, k);
        if r.out is Normal || r.out is Continue {
            if let LoopHead::Repeat(x) = head {
                unread_eval(l, x, r.st.env, r2.st.env, n, r.st.w);
            }
            let x = left(l, head, r.st);
            let x2 = left(l, head, r2.st);
            assert(x.0 == x2.0 && alike(n, x.1, x2.1));
            if !x.0 {
                unread_rounds(l, head, body, x.1, x2.1, e.2, n, k);
            }
        }
    }
}

// ---- variables that are not written ------------------------------------------------------------------------

pub proof fn unwritten_stored(l: Lang, st: StateV, ps: Seq<PlaceV>, vs: Seq<Val>, k: int, n: Text)
    requires
        k <= ps.len(),
        !places_name(ps, k, n),
    ensures
        (stored_all(l, st, ps, vs, k).env)(n) == (st.env)(n),
    decreases k,
{
    if k > 0 {
        assert(ps[k - 1] != PlaceV::Name(n));
        if places_name(ps, k - 1, n) {
            let i = choose|i: int| 0 <= i < k - 1 && #[trigger] ps[i] == PlaceV::Name(n);
            assert(ps[i] == PlaceV::Name(n));
        }
        unwritten_stored(l, st, ps, vs, k - 1, n);
    }
}

/// A statement leaves a variable as it is that it does not write.
pub proof fn unwritten_exec(l: Lang, s: StmtV, st: StateV, n: Text, fuel: nat)
    requires
        deep_stmt(writes_to(n), s) == 0,
    ensures
        (exec(l, s, st, fuel).st.env)(n) == (st.env)(n),
    decreases fuel, s, 0nat,
{
    assert(!own_writes(s).contains(n));
    match s {
        StmtV::Local { names, values } => {
            let a = eval_all(l, values, st.env, st.w);
            let ps = name_places(names);
            if places_name(ps, names.len() as int, n) {
                let i = choose|i: int| 0 <= i < names.len() && #[trigger] ps[i] == PlaceV::Name(n);
                assert(names[i] == n);
            }
            unwritten_stored(l, StateV { env: st.env, w: a.w }, ps, a.vs, names.len() as int, n);
        },
        StmtV::Assign { targets, values } => {
            let p = eval_places(l, targets, st.env, st.w);
            let a = eval_all(l, values, st.env, p.w);
            places_of_targets(l, targets, st.env, st.w);
            target_named(targets, n);
            if places_name(p.places, p.places.len() as int, n) {
                let i = choose|i: int| 0 <= i < p.places.len() && #[trigger] p.places[i] == PlaceV::Name(n);
                assert(targets[i] == ExprV::Var(n));
            }
            unwritten_stored(l, StateV { env: st.env, w: a.w }, p.places, a.vs, p.places.len() as int, n);
        },
        StmtV::If { cond, then_body, else_body } => {
            let a = eval(l, cond, st.env, st.w);
            let t = StateV { env: st.env, w: a.w };
            unwritten_run(l, then_body, t, n, fuel);
            unwritten_run(l, else_body, t, n, fuel);
        },
        StmtV::Loop { head, body } => {
            if let LoopHead::Numeric { var, .. } = head {
                assert(own_writes(s)[0] == var);
            }
            let b = begun(l, head, st);
            unwritten_rounds(l, head, body, b.1, b.0, n, fuel);
        },
        _ => {},
    }
}

pub proof fn unwritten_run(l: Lang, b: Block, st: StateV, n: Text, fuel: nat)
    requires
        deep(writes_to(n), b) == 0,
    ensures
        (run(l, b, st, fuel).st.env)(n) == (st.env)(n),
    decreases fuel, b, 1nat,
{
    if b.len() > 0 {
        unwritten_run(l, b.drop_last(), st, n, fuel);
        let r = run(l, b.drop_last(), st, fuel);
        if r.out is Normal {
            unwritten_exec(l, b.last(), r.st, n, fuel);
        }
    }
}

proof fn unwritten_rounds(l: Lang, head: LoopHead, body: Block, st: StateV, c: RoundV, n: Text, fuel: nat)
    requires
        deep(writes_to(n), body) == 0,
        head matches LoopHead::Numeric { var, .. } ==> var != n,
        head matches LoopHead::Generic { vars, .. } ==> !vars.contains(n),
    ensures
        (rounds(l, head, body, st, c, fuel).st.env)(n) == (st.env)(n),
    decreases fuel, body, 2nat,
{
    if let LoopHead::Generic { vars, .. } = head {
        if let RoundV::Each { vs, at } = c {
            let r = (l.each)(st.w, vs, at);
            if let Some(xs) = r.1 {
                let ps = name_places(vars);
                if places_name(ps, vars.len() as int, n) {
                    let i = choose|i: int| 0 <= i < vars.len() && #[trigger] ps[i] == PlaceV::Name(n);
                    assert(vars[i] == n);
                }
                unwritten_stored(l, StateV { env: st.env, w: r.0 }, ps, xs, vars.len() as int, n);
            }
        }
    }
    let e = entered(l, head, st, c);
    assert((e.1.env)(n) == (st.env)(n));
    if e.0 && fuel > 0 {
        let k = (fuel - 1) as nat;
        unwritten_run(l, body, e.1, n, k);
        let r = run(l, body, e.1, k);
        if r.out is Normal || r.out is Continue {
            let x = left(l, head, r.st);
            if !x.0 {
                unwritten_rounds(l, head, body, x.1, e.2, n, k);
            }
        }
    }
}

} // verus!
