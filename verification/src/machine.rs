//! What is known of the registers while code is read from top to bottom.
//!
//! A register that holds a constant or a global is remembered as that expression, and read in
//! its place; everything else is stored under the name of the register. What is remembered is
//! written down before control may leave or join, so that it never crosses an edge.
use vstd::prelude::*;
use vstd::string::StringExecFns;

use crate::ast::{block, Block, Expr, ExprV, FieldV, Stmt, StmtV, TableField};
use crate::bytecode::{live_name, number_name, numbered, register_name, string_at, Constant, Proto};
use crate::idents::{identifier, is_identifier};
use crate::maps::TextMap;
use crate::names::{insert_sorted, NameSet};
use crate::query::is_one_of;
use crate::sweeps::{assign, make_assign, push_stmt};
use crate::text::{owned, texts, Text};

verus! {

/// A function literal that is still to be reconstructed.
#[derive(Debug)]
pub struct Request {
    /// The index of the function.
    pub child: usize,
    /// Whether it is stored in a table.
    pub is_method: bool,
    /// The texts of the events that it may be connected to, in order.
    pub events: Vec<String>,
}

/// Model of a [`Request`].
#[verifier::ext_equal]
pub struct RequestV {
    pub child: nat,
    pub is_method: bool,
    pub events: Seq<Text>,
}

impl View for Request {
    type V = RequestV;

    open spec fn view(&self) -> RequestV {
        RequestV { child: self.child as nat, is_method: self.is_method, events: texts(self.events@) }
    }
}

/// Model of a [`Machine`].
#[verifier::ext_equal]
pub struct MachineV {
    /// The function that is read.
    pub proto: Proto,
    /// How numbers are printed.
    pub nums: Map<Text, Text>,
    /// What is remembered of each register.
    pub regs: Seq<Option<ExprV>>,
    /// Names that loops give to registers.
    pub names: Seq<Option<Text>>,
    /// Where the loop that begins at a position jumps back.
    pub loops: Seq<Option<int>>,
    /// The number of loop variables that were named.
    pub loopvars: nat,
    /// The register from which on the preceding instruction left an open list of values.
    pub multret: Option<u8>,
    pub globals: Seq<Text>,
    pub notes: Seq<Text>,
    pub requests: Seq<RequestV>,
    /// Which registers closures capture.
    pub captured: Seq<bool>,
}

/// What is known while a function is read.
pub struct Machine<'a> {
    proto: &'a Proto,
    nums: &'a TextMap,
    regs: Vec<Option<Expr>>,
    names: Vec<Option<String>>,
    loops: Vec<Option<usize>>,
    loopvars: Vec<bool>,
    multret: Option<u8>,
    globals: NameSet,
    notes: Vec<String>,
    requests: Vec<Request>,
    captured: Vec<bool>,
}

/// The models of optional expressions.
pub open spec fn opt_exprs(s: Seq<Option<Expr>>) -> Seq<Option<ExprV>> {
    Seq::new(s.len(), |i: int| crate::ast::opt_expr_view(s[i]))
}

/// The models of optional strings.
pub open spec fn opt_strings(s: Seq<Option<String>>) -> Seq<Option<Text>> {
    Seq::new(s.len(), |i: int| crate::render::opt_string(s[i]))
}

/// The models of optional positions.
pub open spec fn opt_indices(s: Seq<Option<usize>>) -> Seq<Option<int>> {
    Seq::new(s.len(), |i: int| crate::query::opt_index(s[i]))
}

/// The models of requests.
pub open spec fn requests_of(s: Seq<Request>) -> Seq<RequestV> {
    Seq::new(s.len(), |i: int| s[i]@)
}

impl<'a> View for Machine<'a> {
    type V = MachineV;

    closed spec fn view(&self) -> MachineV {
        MachineV {
            proto: *self.proto,
            nums: self.nums@,
            regs: opt_exprs(self.regs@),
            names: opt_strings(self.names@),
            loops: opt_indices(self.loops@),
            loopvars: self.loopvars@.len(),
            multret: self.multret,
            globals: self.globals@,
            notes: texts(self.notes@),
            requests: requests_of(self.requests@),
            captured: self.captured@,
        }
    }
}

// ---- reading --------------------------------------------------------------------------------------------------

/// The name of the register `r`.
pub open spec fn reg_name(m: MachineV, r: u8) -> Text {
    if r < m.names.len() && m.names[r as int] is Some {
        m.names[r as int]->Some_0
    } else {
        register_name(m.proto, r)
    }
}

/// What reading the register `r` gives.
pub open spec fn reg(m: MachineV, r: u8) -> ExprV {
    if r < m.regs.len() && m.regs[r as int] is Some {
        m.regs[r as int]->Some_0
    } else {
        ExprV::Var(reg_name(m, r))
    }
}

/// The constant at `k`, as an expression.
pub open spec fn const_expr(p: Proto, k: int) -> ExprV {
    if 0 <= k < p.constants.len() {
        match p.constants@[k] {
            Constant::Nil => ExprV::Nil,
            Constant::Boolean(b) => ExprV::Bool(b),
            Constant::Number(t) => ExprV::Num(t@),
            Constant::Vector(t) => ExprV::Vector("Vector3.new("@ + t@ + ")"@),
            Constant::Import(t) => ExprV::Var(t@),
            Constant::Str { literal, .. } => ExprV::Str(literal@),
            Constant::Closure { text, .. } => ExprV::Raw(text@),
            Constant::Table { text, .. } => ExprV::Raw(text@),
            Constant::Other(t) => ExprV::Raw(t@),
        }
    } else {
        ExprV::Raw("K?"@)
    }
}

/// The field of `table` that the string constant at `k` names.
pub open spec fn field_expr(p: Proto, table: ExprV, k: nat) -> ExprV {
    if identifier(string_at(p, k)) {
        ExprV::Field(Box::new(table), string_at(p, k))
    } else {
        ExprV::Index(Box::new(table), Box::new(ExprV::Str(key_literal(p, k))))
    }
}

/// The string constant at `k`, as a literal.
pub open spec fn key_literal(p: Proto, k: nat) -> Text {
    if k < p.constants.len() {
        match p.constants@[k as int] {
            Constant::Str { key, .. } => key@,
            _ => "\"\""@,
        }
    } else {
        "\"\""@
    }
}

/// The field that an entry of a table template sets, where its value is fixed.
pub open spec fn template_field(p: Proto, entry: (usize, Option<usize>)) -> Option<FieldV> {
    match entry.1 {
        None => None,
        Some(v) => if entry.0 < p.constants.len() {
            if p.constants@[entry.0 as int] is Str && identifier(string_at(p, entry.0 as nat)) {
                Some(FieldV::Named(string_at(p, entry.0 as nat), const_expr(p, v as int)))
            } else {
                Some(FieldV::Keyed(const_expr(p, entry.0 as int), const_expr(p, v as int)))
            }
        } else {
            None
        },
    }
}

/// The fields that the first `k` entries of a template set.
pub open spec fn template_fields(p: Proto, entries: Seq<(usize, Option<usize>)>, k: int) -> Seq<FieldV>
    decreases k,
{
    if k <= 0 {
        Seq::empty()
    } else {
        match template_field(p, entries[k - 1]) {
            Some(f) => template_fields(p, entries, k - 1).push(f),
            None => template_fields(p, entries, k - 1),
        }
    }
}

/// The table that the template at `k` makes.
pub open spec fn template_expr(p: Proto, k: int) -> ExprV {
    if 0 <= k < p.constants.len() {
        match p.constants@[k] {
            Constant::Table { entries, .. } => ExprV::Table(template_fields(p, entries@, entries.len() as int)),
            _ => ExprV::Table(Seq::empty()),
        }
    } else {
        ExprV::Table(Seq::empty())
    }
}

impl Proto {
    /// The constant at `k`, as an expression.
    pub fn const_expr(&self, k: usize) -> (r: Expr)
        ensures
            r@ == const_expr(*self, k as int),
    {
        if k < self.constants.len() {
            match &self.constants[k] {
                Constant::Nil => Expr::Nil,
                Constant::Boolean(b) => Expr::Bool(*b),
                Constant::Number(t) => Expr::Num(t.clone()),
                Constant::Vector(t) => {
                    let mut s = owned("Vector3.new(");
                    s.append(t);
                    s.append(")");
                    Expr::Vector(s)
                },
                Constant::Import(t) => Expr::Var(t.clone()),
                Constant::Str { literal, .. } => Expr::Str(literal.clone()),
                Constant::Closure { text, .. } => Expr::Raw(text.clone()),
                Constant::Table { text, .. } => Expr::Raw(text.clone()),
                Constant::Other(t) => Expr::Raw(t.clone()),
            }
        } else {
            Expr::Raw(owned("K?"))
        }
    }

    /// The constant at the signed index `k`, as an expression.
    pub fn signed_const_expr(&self, k: i32) -> (r: Expr)
        ensures
            r@ == const_expr(*self, k as int),
    {
        if k < 0 {
            Expr::Raw(owned("K?"))
        } else if (k as u64) < self.constants.len() as u64 {
            self.const_expr(k as usize)
        } else {
            Expr::Raw(owned("K?"))
        }
    }

    /// The constant at the index `k` of an operand, as an expression.
    pub fn operand_const_expr(&self, k: u32) -> (r: Expr)
        ensures
            r@ == const_expr(*self, k as int),
    {
        if (k as u64) < self.constants.len() as u64 {
            self.const_expr(k as usize)
        } else {
            Expr::Raw(owned("K?"))
        }
    }

    /// The field of `table` that the string constant at `k` names.
    pub fn field(&self, table: Expr, k: u32) -> (r: Expr)
        ensures
            r@ == field_expr(*self, table@, k as nat),
    {
        let name = self.string_const(k);
        if is_identifier(&name) {
            return Expr::Field(Box::new(table), name);
        }
        let mut literal = owned("\"\"");
        if (k as u64) < self.constants.len() as u64 {
            if let Constant::Str { key, .. } = &self.constants[k as usize] {
                literal = key.clone();
            }
        }
        index_expr(table, Expr::Str(literal))
    }

    fn field_of_entry(&self, key: usize, value: Option<usize>) -> (r: Option<TableField>)
        ensures
            crate::tables::field_of(r) == template_field(*self, (key, value)),
    {
        match value {
            None => None,
            Some(v) => {
                if key < self.constants.len() {
                    if matches!(self.constants[key], Constant::Str { .. }) {
                        let name = self.string_const_at(key);
                        if is_identifier(&name) {
                            return Some(TableField::Named(name, self.const_expr(v)));
                        }
                    }
                    Some(TableField::Keyed(self.const_expr(key), self.const_expr(v)))
                } else {
                    None
                }
            },
        }
    }

    fn string_const_at(&self, k: usize) -> (r: String)
        ensures
            r@ == string_at(*self, k as nat),
    {
        if k < self.constants.len() {
            if let Constant::Str { value: Some(t), .. } = &self.constants[k] {
                return t.clone();
            }
        }
        number_name("K", k as u128)
    }

    /// The table that the template at `k` makes.
    pub fn duptable_expr(&self, k: i32) -> (r: Expr)
        ensures
            r@ == template_expr(*self, k as int),
    {
        let mut fields: Vec<TableField> = Vec::new();
        assert(crate::ast::fields(fields@) =~= Seq::<FieldV>::empty());
        if k < 0 || k as u64 >= self.constants.len() as u64 {
            return Expr::Table(fields);
        }
        if let Constant::Table { entries, .. } = &self.constants[k as usize] {
            let mut i: usize = 0;
            while i < entries.len()
                invariant
                    i <= entries.len(),
                    crate::ast::fields(fields@) == template_fields(*self, entries@, i as int),
                decreases entries.len() - i,
            {
                let (key, value) = entries[i];
                match self.field_of_entry(key, value) {
                    Some(f) => {
                        let ghost o = crate::ast::fields(fields@);
                        fields.push(f);
                        assert(crate::ast::fields(fields@) =~= o.push(f@));
                    },
                    None => {},
                }
                i += 1;
            }
        }
        Expr::Table(fields)
    }
}

/// `table[key]`.
pub fn index_expr(table: Expr, key: Expr) -> (r: Expr)
    ensures
        r@ == ExprV::Index(Box::new(table@), Box::new(key@)),
{
    Expr::Index(Box::new(table), Box::new(key))
}

// ---- writing ----------------------------------------------------------------------------------------------------

/// `m`, remembering `e` of the register `r`, where the function has that register.
pub open spec fn remembered(m: MachineV, r: u8, e: Option<ExprV>) -> MachineV {
    if r < m.regs.len() {
        MachineV { regs: m.regs.update(r as int, e), ..m }
    } else {
        m
    }
}

/// `m`, with `r` under the name `n`.
pub open spec fn with_name(m: MachineV, r: u8, n: Option<Text>) -> MachineV {
    if r < m.names.len() {
        MachineV { names: m.names.update(r as int, n), ..m }
    } else {
        m
    }
}

/// `m` with another note, where it is new.
pub open spec fn noted(m: MachineV, t: Text) -> MachineV {
    if m.notes.contains(t) {
        m
    } else {
        MachineV { notes: m.notes.push(t), ..m }
    }
}

/// The assignments that write down what is remembered of the registers from `r` on.
pub open spec fn flushed_from(m: MachineV, r: int) -> Block
    decreases m.regs.len() - r,
{
    if r < 0 || r >= m.regs.len() {
        Seq::empty()
    } else {
        match m.regs[r] {
            Some(e) => seq![assign(reg_name(m, r as u8), e)] + flushed_from(m, r + 1),
            None => flushed_from(m, r + 1),
        }
    }
}

/// The assignments that write down what is remembered.
pub open spec fn flushed(m: MachineV) -> Block {
    flushed_from(m, 0)
}

/// `m`, remembering nothing.
pub open spec fn forgotten(m: MachineV) -> MachineV {
    MachineV { regs: Seq::new(m.regs.len(), |i: int| None), ..m }
}

/// Whether the register `r` is captured.
pub open spec fn is_captured(m: MachineV, r: int) -> bool {
    0 <= r < m.captured.len() && m.captured[r]
}

/// The assignments that write down what is remembered of captured registers from `r` on.
pub open spec fn captures_flushed_from(m: MachineV, r: int) -> Block
    decreases m.regs.len() - r,
{
    if r < 0 || r >= m.regs.len() {
        Seq::empty()
    } else if is_captured(m, r) && m.regs[r] is Some {
        seq![assign(reg_name(m, r as u8), m.regs[r]->Some_0)] + captures_flushed_from(m, r + 1)
    } else {
        captures_flushed_from(m, r + 1)
    }
}

/// `m`, remembering nothing of captured registers.
pub open spec fn captures_forgotten(m: MachineV) -> MachineV {
    MachineV {
        regs: Seq::new(
            m.regs.len(),
            |i: int| if is_captured(m, i) {
                None
            } else {
                m.regs[i]
            },
        ),
        ..m
    }
}

/// The name of the next loop variable where the source gives none.
pub open spec fn loop_letter(n: nat) -> Text {
    if n == 0 {
        "i"@
    } else if n == 1 {
        "j"@
    } else if n == 2 {
        "k"@
    } else if n == 3 {
        "l"@
    } else if n == 4 {
        "m"@
    } else if n == 5 {
        "o"@
    } else if n == 6 {
        "p"@
    } else if n == 7 {
        "q"@
    } else if n == 8 {
        "r"@
    } else if n == 9 {
        "s"@
    } else {
        numbered("idx"@, n)
    }
}

/// The name of the loop variable in the register `r` of a loop whose body begins at `pc`.
pub open spec fn loop_var(m: MachineV, r: u8, pc: int) -> Text {
    match live_name(m.proto, r, pc) {
        Some(n) => n,
        None => loop_letter(m.loopvars),
    }
}

/// `m` after naming that variable.
pub open spec fn loop_var_named(m: MachineV, r: u8, pc: int) -> MachineV {
    match live_name(m.proto, r, pc) {
        Some(_) => m,
        None => MachineV { loopvars: m.loopvars + 1, ..m },
    }
}

fn letter(n: usize) -> (r: String)
    ensures
        r@ == loop_letter(n as nat),
{
    if n == 0 {
        owned("i")
    } else if n == 1 {
        owned("j")
    } else if n == 2 {
        owned("k")
    } else if n == 3 {
        owned("l")
    } else if n == 4 {
        owned("m")
    } else if n == 5 {
        owned("o")
    } else if n == 6 {
        owned("p")
    } else if n == 7 {
        owned("q")
    } else if n == 8 {
        owned("r")
    } else if n == 9 {
        owned("s")
    } else {
        number_name("idx", n as u128)
    }
}

impl<'a> Machine<'a> {
    /// The state before the first instruction of `proto`.
    pub fn new(proto: &'a Proto, nums: &'a TextMap, loops: Vec<Option<usize>>, captured: Vec<bool>) -> (r: Machine<'a>)
        ensures
            r@ == (MachineV {
                proto: *proto,
                nums: nums@,
                regs: Seq::new((proto.max_stack_size + 1) as nat, |i: int| None),
                names: Seq::new(256, |i: int| None),
                loops: opt_indices(loops@),
                loopvars: 0,
                multret: None,
                globals: Seq::empty(),
                notes: Seq::empty(),
                requests: Seq::empty(),
                captured: captured@,
            }),
    {
        let n: usize = proto.max_stack_size as usize + 1;
        let mut regs: Vec<Option<Expr>> = Vec::new();
        let mut i: usize = 0;
        while i < n
            invariant
                i <= n,
                regs.len() == i,
                forall|j: int| 0 <= j < i ==> regs@[j] is None,
            decreases n - i,
        {
            regs.push(None);
            i += 1;
        }
        let mut names: Vec<Option<String>> = Vec::new();
        let mut k: usize = 0;
        while k < 256
            invariant
                k <= 256,
                names.len() == k,
                forall|j: int| 0 <= j < k ==> names@[j] is None,
            decreases 256 - k,
        {
            names.push(None);
            k += 1;
        }
        let m = Machine {
            proto,
            nums,
            regs,
            names,
            loops,
            loopvars: Vec::new(),
            multret: None,
            globals: NameSet::new(),
            notes: Vec::new(),
            requests: Vec::new(),
            captured,
        };
        assert(opt_exprs(m.regs@) =~= Seq::new((proto.max_stack_size + 1) as nat, |i: int| None));
        assert(opt_strings(m.names@) =~= Seq::new(256, |i: int| None));
        assert(texts(m.notes@) =~= Seq::<Text>::empty());
        assert(requests_of(m.requests@) =~= Seq::<RequestV>::empty());
        m
    }

    /// The function that is read.
    pub fn proto(&self) -> (r: &'a Proto)
        ensures
            *r == self@.proto,
    {
        self.proto
    }

    /// How numbers are printed.
    pub fn nums(&self) -> (r: &'a TextMap)
        ensures
            r@ == self@.nums,
    {
        self.nums
    }

    /// The name of the register `r`.
    pub fn reg_name(&self, r: u8) -> (n: String)
        ensures
            n@ == reg_name(self@, r),
    {
        if (r as usize) < self.names.len() {
            if let Some(n) = &self.names[r as usize] {
                assert(opt_strings(self.names@)[r as int] == Some(n@));
                return n.clone();
            }
            assert(opt_strings(self.names@)[r as int] is None);
        }
        self.proto.register_name(r)
    }

    /// What reading the register `r` gives.
    pub fn reg(&self, r: u8) -> (e: Expr)
        ensures
            e@ == reg(self@, r),
    {
        if (r as usize) < self.regs.len() {
            if let Some(e) = &self.regs[r as usize] {
                assert(opt_exprs(self.regs@)[r as int] == Some(e@));
                return e.clone();
            }
            assert(opt_exprs(self.regs@)[r as int] is None);
        }
        Expr::Var(self.reg_name(r))
    }

    /// The names of the globals that were assigned.
    pub fn globals(&self) -> (r: &NameSet)
        ensures
            r@ == self@.globals,
    {
        &self.globals
    }

    /// What was noted.
    pub fn notes(&self) -> (r: &Vec<String>)
        ensures
            texts(r@) == self@.notes,
    {
        &self.notes
    }

    /// The function literals that are still to be reconstructed.
    pub fn requests(&self) -> (r: &Vec<Request>)
        ensures
            requests_of(r@) == self@.requests,
    {
        &self.requests
    }

    /// Which registers closures capture.
    pub fn captured(&self) -> (r: &Vec<bool>)
        ensures
            r@ == self@.captured,
    {
        &self.captured
    }

    fn remember(&mut self, r: u8, e: Option<Expr>)
        ensures
            final(self)@ == remembered(old(self)@, r, crate::ast::opt_expr_view(e)),
    {
        let ghost m = self@;
        let ghost ev = crate::ast::opt_expr_view(e);
        if (r as usize) < self.regs.len() {
            let ghost o = self.regs@;
            self.regs.set(r as usize, e);
            assert(opt_exprs(self.regs@) =~= opt_exprs(o).update(r as int, ev));
            assert(self@ =~= remembered(m, r, ev));
        }
    }

    /// Remembers `e` of the register `r`.
    pub fn set_inline(&mut self, r: u8, e: Expr)
        ensures
            final(self)@ == remembered(old(self)@, r, Some(e@)),
    {
        self.remember(r, Some(e));
    }

    /// Remembers nothing of the register `r`.
    pub fn clear_inline(&mut self, r: u8)
        ensures
            final(self)@ == remembered(old(self)@, r, None),
    {
        self.remember(r, None);
    }

    /// Stores `e` in the register `r`.
    pub fn assign(&mut self, r: u8, e: Expr, out: &mut Vec<Stmt>)
        ensures
            final(self)@ == remembered(old(self)@, r, None),
            block(final(out)@) == block(old(out)@) + seq![assign(reg_name(old(self)@, r), e@)],
    {
        let ghost m = self@;
        self.clear_inline(r);
        assert(reg_name(self@, r) == reg_name(m, r));
        push_stmt(out, make_assign(self.reg_name(r), e));
    }

    /// Writes down what is remembered.
    pub fn flush_inline(&mut self, out: &mut Vec<Stmt>)
        ensures
            final(self)@ == forgotten(old(self)@),
            block(final(out)@) == block(old(out)@) + flushed(old(self)@),
    {
        let ghost m = self@;
        let ghost o = block(out@);
        let n: usize = self.regs.len();
        let mut r: usize = 0;
        assert(o + flushed(m) =~= block(out@) + flushed_from(m, 0));
        while r < n
            invariant
                r <= n,
                n == m.regs.len(),
                self@ == m,
                n == self.regs.len(),
                block(out@) + flushed_from(m, r as int) == o + flushed(m),
            decreases n - r,
        {
            assert(m.regs[r as int] == crate::ast::opt_expr_view(self.regs@[r as int]));
            let ghost rest = flushed_from(m, r + 1);
            let ghost b = block(out@);
            if let Some(e) = &self.regs[r] {
                let s = make_assign(self.reg_name(r as u8), e.clone());
                push_stmt(out, s);
                assert(b + (seq![s@] + rest) =~= block(out@) + rest);
            }
            r += 1;
        }
        assert(block(out@) + Seq::<StmtV>::empty() =~= block(out@));
        let mut fresh: Vec<Option<Expr>> = Vec::new();
        let mut k: usize = 0;
        while k < n
            invariant
                k <= n,
                fresh.len() == k,
                forall|j: int| 0 <= j < k ==> fresh@[j] is None,
            decreases n - k,
        {
            fresh.push(None);
            k += 1;
        }
        self.regs = fresh;
        assert(opt_exprs(self.regs@) =~= forgotten(m).regs);
        assert(self@ =~= forgotten(m));
    }

    /// Writes down what is remembered of captured registers.
    pub fn flush_captured(&mut self, out: &mut Vec<Stmt>)
        ensures
            final(self)@ == captures_forgotten(old(self)@),
            block(final(out)@) == block(old(out)@) + captures_flushed_from(old(self)@, 0),
    {
        let ghost m = self@;
        let ghost o = block(out@);
        let n: usize = self.regs.len();
        let mut fresh: Vec<Option<Expr>> = Vec::new();
        let mut r: usize = 0;
        assert(o + captures_flushed_from(m, 0) =~= block(out@) + captures_flushed_from(m, 0));
        while r < n
            invariant
                r <= n,
                n == m.regs.len(),
                self@ == m,
                n == self.regs.len(),
                fresh.len() == r,
                forall|j: int|
                    0 <= j < r ==> crate::ast::opt_expr_view(#[trigger] fresh@[j]) == captures_forgotten(m).regs[j],
                block(out@) + captures_flushed_from(m, r as int) == o + captures_flushed_from(m, 0),
            decreases n - r,
        {
            assert(m.regs[r as int] == crate::ast::opt_expr_view(self.regs@[r as int]));
            let ghost rest = captures_flushed_from(m, r + 1);
            let ghost b = block(out@);
            if r < self.captured.len() && self.captured[r] {
                assert(is_captured(m, r as int));
                if let Some(e) = &self.regs[r] {
                    let s = make_assign(self.reg_name(r as u8), e.clone());
                    push_stmt(out, s);
                    assert(b + (seq![s@] + rest) =~= block(out@) + rest);
                }
                fresh.push(None);
            } else {
                assert(!is_captured(m, r as int));
                fresh.push(crate::ast::clone_opt_expr(&self.regs[r]));
            }
            r += 1;
        }
        assert(block(out@) + Seq::<StmtV>::empty() =~= block(out@));
        self.regs = fresh;
        assert(opt_exprs(self.regs@) =~= captures_forgotten(m).regs);
        assert(self@ =~= captures_forgotten(m));
    }

    /// Gives the register `r` the name `n`, or takes such a name away.
    pub fn set_name(&mut self, r: u8, n: Option<String>)
        ensures
            final(self)@ == with_name(old(self)@, r, crate::render::opt_string(n)),
    {
        let ghost m = self@;
        let ghost nv = crate::render::opt_string(n);
        if (r as usize) < self.names.len() {
            let ghost o = self.names@;
            self.names.set(r as usize, n);
            assert(opt_strings(self.names@) =~= opt_strings(o).update(r as int, nv));
            assert(self@ =~= with_name(m, r, nv));
        }
    }

    /// Names the loop variable in the register `r` of a loop whose body begins at `pc`.
    pub fn loop_var_name(&mut self, r: u8, pc: usize) -> (n: String)
        ensures
            n@ == loop_var(old(self)@, r, pc as int),
            final(self)@ == loop_var_named(old(self)@, r, pc as int),
    {
        let ghost m = self@;
        match self.proto.debug_name_at(r, pc) {
            Some(n) => n,
            None => {
                let n = letter(self.loopvars.len());
                self.loopvars.push(true);
                assert(self@ =~= loop_var_named(m, r, pc as int));
                n
            },
        }
    }

    /// Adds a note, where it is new.
    pub fn note(&mut self, t: &str)
        ensures
            final(self)@ == noted(old(self)@, t@),
    {
        let ghost m = self@;
        if !is_one_of(&self.notes, t) {
            let ghost o = self.notes@;
            self.notes.push(owned(t));
            assert(texts(self.notes@) =~= texts(o).push(t@));
            assert(self@ =~= noted(m, t@));
        }
    }

    /// Takes the open list of values that the preceding instruction left.
    pub fn take_multret(&mut self) -> (r: Option<u8>)
        ensures
            r == old(self)@.multret,
            final(self)@ == (MachineV { multret: None, ..old(self)@ }),
    {
        let r = self.multret;
        self.multret = None;
        r
    }

    /// Leaves an open list of values.
    pub fn set_multret(&mut self, r: Option<u8>)
        ensures
            final(self)@ == (MachineV { multret: r, ..old(self)@ }),
    {
        self.multret = r;
    }

    /// The open list of values that the instruction left.
    pub fn multret(&self) -> (r: Option<u8>)
        ensures
            r == self@.multret,
    {
        self.multret
    }

    /// Remembers that `n` is a global.
    pub fn add_global(&mut self, n: &str)
        ensures
            final(self)@ == (MachineV { globals: insert_sorted(old(self)@.globals, n@), ..old(self)@ }),
    {
        self.globals.insert(n);
    }

    /// Asks for a function literal.
    pub fn add_request(&mut self, q: Request)
        ensures
            final(self)@ == (MachineV { requests: old(self)@.requests.push(q@), ..old(self)@ }),
    {
        let ghost m = self@;
        let ghost o = self.requests@;
        self.requests.push(q);
        assert(requests_of(self.requests@) =~= requests_of(o).push(q@));
        assert(self@ =~= (MachineV { requests: m.requests.push(q@), ..m }));
    }

    /// The number of function literals that were asked for.
    pub fn request_count(&self) -> (r: usize)
        ensures
            r == self@.requests.len(),
    {
        self.requests.len()
    }

    /// A copy of what is remembered.
    pub fn copy_regs(&self) -> (r: Vec<Option<Expr>>)
        ensures
            opt_exprs(r@) == self@.regs,
    {
        let mut out: Vec<Option<Expr>> = Vec::new();
        let mut i: usize = 0;
        while i < self.regs.len()
            invariant
                i <= self.regs.len(),
                out.len() == i,
                forall|j: int|
                    0 <= j < i ==> crate::ast::opt_expr_view(#[trigger] out@[j]) == crate::ast::opt_expr_view(self.regs@[j]),
            decreases self.regs.len() - i,
        {
            out.push(crate::ast::clone_opt_expr(&self.regs[i]));
            i += 1;
        }
        assert(opt_exprs(out@) =~= self@.regs);
        out
    }

    /// Remembers what was remembered before.
    pub fn restore_regs(&mut self, regs: Vec<Option<Expr>>)
        ensures
            final(self)@ == (MachineV { regs: opt_exprs(regs@), ..old(self)@ }),
    {
        self.regs = regs;
    }

    /// Where the loop that begins at `pc` jumps back.
    pub fn loop_back(&self, pc: usize) -> (r: Option<usize>)
        ensures
            crate::query::opt_index(r) == loop_at(self@, pc as int),
    {
        if pc < self.loops.len() {
            assert(opt_indices(self.loops@)[pc as int] == crate::query::opt_index(self.loops@[pc as int]));
            self.loops[pc]
        } else {
            None
        }
    }

    /// Sets where the loop that begins at `pc` jumps back.
    pub fn set_loop_back(&mut self, pc: usize, back: Option<usize>)
        ensures
            final(self)@ == with_loop(old(self)@, pc as int, crate::query::opt_index(back)),
    {
        let ghost m = self@;
        let ghost bv = crate::query::opt_index(back);
        if pc < self.loops.len() {
            let ghost o = self.loops@;
            self.loops.set(pc, back);
            assert(opt_indices(self.loops@) =~= opt_indices(o).update(pc as int, bv));
            assert(self@ =~= with_loop(m, pc as int, bv));
        }
    }
}

/// Where the loop that begins at `pc` jumps back.
pub open spec fn loop_at(m: MachineV, pc: int) -> Option<int> {
    if 0 <= pc < m.loops.len() {
        m.loops[pc]
    } else {
        None
    }
}

/// `m`, with a loop at `pc` that jumps back at `back`.
pub open spec fn with_loop(m: MachineV, pc: int, back: Option<int>) -> MachineV {
    if 0 <= pc < m.loops.len() {
        MachineV { loops: m.loops.update(pc, back), ..m }
    } else {
        m
    }
}

} // verus!
