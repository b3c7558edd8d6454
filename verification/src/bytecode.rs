//! Functions in bytecode, as plain values.
//!
//! A reader of the binary format decodes each code word once and hands over what the
//! reconstruction asks of it: the operation, the operands, where a jump leads.
use vstd::prelude::*;
use vstd::string::StringExecFns;

use crate::idents::{identifier, is_identifier};
use crate::text::{decimal, decimal_of, owned, Text};

verus! {

/// An operation of the register machine.
#[derive(Debug, Clone, Copy, PartialEq, Eq, Structural)]
pub enum Opcode {
    Nop,
    Break,
    LoadNil,
    LoadB,
    LoadN,
    LoadK,
    LoadKx,
    Move,
    GetGlobal,
    SetGlobal,
    GetUpval,
    SetUpval,
    CloseUpvals,
    GetImport,
    GetTable,
    SetTable,
    GetTableKs,
    SetTableKs,
    GetUdataKs,
    SetUdataKs,
    GetTableN,
    SetTableN,
    NewClosure,
    DupClosure,
    NewClassMember,
    NameCall,
    NameCallUdata,
    Call,
    CallFb,
    Return,
    Jump,
    JumpBack,
    JumpX,
    JumpIf,
    JumpIfNot,
    JumpIfEq,
    JumpIfLe,
    JumpIfLt,
    JumpIfNotEq,
    JumpIfNotLe,
    JumpIfNotLt,
    JumpXEqKNil,
    JumpXEqKB,
    JumpXEqKN,
    JumpXEqKS,
    CmpProto,
    Add,
    Sub,
    Mul,
    Div,
    IDiv,
    Mod,
    Pow,
    AddK,
    SubK,
    MulK,
    DivK,
    IDivK,
    ModK,
    PowK,
    SubRk,
    DivRk,
    And,
    Or,
    AndK,
    OrK,
    Concat,
    Not,
    Minus,
    Length,
    NewTable,
    DupTable,
    SetList,
    ForNPrep,
    ForNLoop,
    ForGPrep,
    ForGPrepINext,
    ForGPrepNext,
    ForGLoop,
    GetVarargs,
    PrepVarargs,
    Capture,
    Coverage,
    NativeCall,
    FastCall,
    FastCall1,
    FastCall2,
    FastCall2K,
    FastCall3,
}

/// What a capture instruction captures.
#[derive(Debug, Clone, Copy, PartialEq, Eq, Structural)]
pub enum CaptureKind {
    /// A register, by value or by reference.
    Register,
    /// An upvalue of the enclosing function.
    Upvalue,
    Unknown,
}

/// One code word. A word can be an instruction or the operand of the instruction before it, so
/// it is decoded both ways.
#[derive(Debug, Clone, Copy, PartialEq, Eq, Structural)]
pub struct Word {
    /// The word itself.
    pub raw: u32,
    /// Its operation, where it encodes one.
    pub op: Option<Opcode>,
    /// The number of words that the instruction takes.
    pub len: u8,
    pub a: u8,
    pub b: u8,
    pub c: u8,
    pub d: i32,
    /// Where the instruction jumps to, where it is a jump that stays inside the function.
    pub target: Option<usize>,
    pub capture: CaptureKind,
    /// As an operand: the index of a constant, and whether a comparison is negated.
    pub kv: u32,
    pub kv16: u32,
    pub not: bool,
}

/// A constant of a function. Texts are as a listing of the bytecode shows them.
#[derive(Debug)]
pub enum Constant {
    Nil,
    Boolean(bool),
    Number(String),
    Vector(String),
    /// A dotted path of globals.
    Import(String),
    /// A string: as text, where it is there; as a literal; and that text as a literal.
    Str { value: Option<String>, literal: String, key: String },
    Closure { proto: usize, text: String },
    /// A table template: indices of keys and of the values that are fixed.
    Table { entries: Vec<(usize, Option<usize>)>, text: String },
    Other(String),
}

/// A local variable of the source.
#[derive(Debug)]
pub struct DebugLocal {
    pub reg: u8,
    pub start_pc: usize,
    pub end_pc: usize,
    pub name: Option<String>,
}

/// Names of the source.
#[derive(Debug)]
pub struct DebugInfo {
    pub locals: Vec<DebugLocal>,
    pub upvalues: Vec<Option<String>>,
}

/// A function.
#[derive(Debug)]
pub struct Proto {
    pub code: Vec<Word>,
    pub constants: Vec<Constant>,
    pub children: Vec<usize>,
    pub num_params: u8,
    pub num_upvalues: u8,
    pub max_stack_size: u8,
    pub is_vararg: bool,
    pub debug: Option<DebugInfo>,
    /// The label of each word that is jumped to.
    pub labels: Vec<Option<u32>>,
}

// ---- instructions -------------------------------------------------------------------------------------------

/// The operation at `pc`.
pub open spec fn op_at(p: Proto, pc: int) -> Option<Opcode> {
    if 0 <= pc < p.code.len() {
        p.code@[pc].op
    } else {
        None
    }
}

/// The number of words that the instruction at `pc` takes, at least one.
pub open spec fn len_at(p: Proto, pc: int) -> int {
    if 0 <= pc < p.code.len() && p.code@[pc].len > 1 {
        p.code@[pc].len as int
    } else {
        1
    }
}

/// Where the instruction at `pc` jumps to.
pub open spec fn target_at(p: Proto, pc: int) -> Option<int> {
    if 0 <= pc < p.code.len() {
        match p.code@[pc].target {
            Some(t) => Some(t as int),
            None => None,
        }
    } else {
        None
    }
}

/// The operand word of the instruction at `pc`.
pub open spec fn aux_at(p: Proto, pc: int) -> Word {
    if 0 <= pc + 1 < p.code.len() {
        p.code@[pc + 1]
    } else {
        no_word()
    }
}

/// What stands where no operand word does.
pub open spec fn no_word() -> Word {
    Word {
        raw: 0,
        op: None,
        len: 0,
        a: 0,
        b: 0,
        c: 0,
        d: 0,
        target: None,
        capture: CaptureKind::Unknown,
        kv: 0,
        kv16: 0,
        not: false,
    }
}

/// Whether `op` jumps or falls through.
pub open spec fn conditional(op: Opcode) -> bool {
    op == Opcode::JumpIf || op == Opcode::JumpIfNot || comparing(op) || matching(op)
}

/// Whether `op` jumps on a comparison of two registers.
pub open spec fn comparing(op: Opcode) -> bool {
    op == Opcode::JumpIfEq || op == Opcode::JumpIfLe || op == Opcode::JumpIfLt || op == Opcode::JumpIfNotEq || op
        == Opcode::JumpIfNotLe || op == Opcode::JumpIfNotLt
}

/// Whether `op` jumps on a comparison with a constant.
pub open spec fn matching(op: Opcode) -> bool {
    op == Opcode::JumpXEqKNil || op == Opcode::JumpXEqKB || op == Opcode::JumpXEqKN || op == Opcode::JumpXEqKS
}

/// Whether `op` cannot stand between two tests of one condition.
pub open spec fn breaks_chain(op: Opcode) -> bool {
    op == Opcode::Jump || op == Opcode::JumpBack || op == Opcode::JumpX || conditional(op) || op == Opcode::Return || op
        == Opcode::ForNPrep || op == Opcode::ForNLoop || for_in_prep(op) || op == Opcode::ForGLoop || op
        == Opcode::CmpProto
}

/// Whether `op` enters a generic `for`.
pub open spec fn for_in_prep(op: Opcode) -> bool {
    op == Opcode::ForGPrep || op == Opcode::ForGPrepINext || op == Opcode::ForGPrepNext
}

/// Whether the instruction `w`, which does `op`, writes the register `reg`.
pub open spec fn writes(op: Opcode, w: Word, reg: u8) -> bool {
    !(op == Opcode::Jump || op == Opcode::JumpBack || op == Opcode::JumpX || conditional(op) || op == Opcode::SetTable || op
        == Opcode::SetTableKs || op == Opcode::SetTableN || op == Opcode::SetUpval || op == Opcode::SetGlobal || op
        == Opcode::Return || op == Opcode::Break || op == Opcode::ForNPrep || op == Opcode::ForGLoop || for_in_prep(op))
        && w.a == reg
}

/// The Luau operator that `op` applies.
pub open spec fn operator(op: Opcode) -> Text {
    match op {
        Opcode::Add | Opcode::AddK => "+"@,
        Opcode::Sub | Opcode::SubK | Opcode::SubRk => "-"@,
        Opcode::Mul | Opcode::MulK => "*"@,
        Opcode::Div | Opcode::DivK | Opcode::DivRk => "/"@,
        Opcode::IDiv | Opcode::IDivK => "//"@,
        Opcode::Mod | Opcode::ModK => "%"@,
        Opcode::Pow | Opcode::PowK => "^"@,
        Opcode::Concat => ".."@,
        Opcode::And | Opcode::AndK => "and"@,
        Opcode::Or | Opcode::OrK => "or"@,
        _ => "?"@,
    }
}

/// The comparison on which `op` jumps.
pub open spec fn comparison_of(op: Opcode) -> Text {
    match op {
        Opcode::JumpIfEq => "=="@,
        Opcode::JumpIfLe => "<="@,
        Opcode::JumpIfLt => "<"@,
        Opcode::JumpIfNotEq => "~="@,
        Opcode::JumpIfNotLe => ">"@,
        Opcode::JumpIfNotLt => ">="@,
        _ => "=="@,
    }
}

/// Whether `op` is a two-way conditional jump.
pub fn is_conditional_jump(op: Opcode) -> (r: bool)
    ensures
        r == conditional(op),
{
    op == Opcode::JumpIf || op == Opcode::JumpIfNot || is_comparing(op) || is_matching(op)
}

/// Whether `op` jumps on a comparison of two registers.
pub fn is_comparing(op: Opcode) -> (r: bool)
    ensures
        r == comparing(op),
{
    op == Opcode::JumpIfEq || op == Opcode::JumpIfLe || op == Opcode::JumpIfLt || op == Opcode::JumpIfNotEq || op
        == Opcode::JumpIfNotLe || op == Opcode::JumpIfNotLt
}

/// Whether `op` jumps on a comparison with a constant.
pub fn is_matching(op: Opcode) -> (r: bool)
    ensures
        r == matching(op),
{
    op == Opcode::JumpXEqKNil || op == Opcode::JumpXEqKB || op == Opcode::JumpXEqKN || op == Opcode::JumpXEqKS
}

/// Whether `op` enters a generic `for`.
pub fn is_for_in_prep(op: Opcode) -> (r: bool)
    ensures
        r == for_in_prep(op),
{
    op == Opcode::ForGPrep || op == Opcode::ForGPrepINext || op == Opcode::ForGPrepNext
}

/// Whether `op` cannot stand between two tests of one condition.
pub fn op_breaks_chain(op: Opcode) -> (r: bool)
    ensures
        r == breaks_chain(op),
{
    op == Opcode::Jump || op == Opcode::JumpBack || op == Opcode::JumpX || is_conditional_jump(op) || op
        == Opcode::Return || op == Opcode::ForNPrep || op == Opcode::ForNLoop || is_for_in_prep(op) || op
        == Opcode::ForGLoop || op == Opcode::CmpProto
}

/// Whether the instruction `w`, which does `op`, writes the register `reg`.
pub fn writes_register(op: Opcode, w: Word, reg: u8) -> (r: bool)
    ensures
        r == writes(op, w, reg),
{
    !(op == Opcode::Jump || op == Opcode::JumpBack || op == Opcode::JumpX || is_conditional_jump(op) || op
        == Opcode::SetTable || op == Opcode::SetTableKs || op == Opcode::SetTableN || op == Opcode::SetUpval || op
        == Opcode::SetGlobal || op == Opcode::Return || op == Opcode::Break || op == Opcode::ForNPrep || op
        == Opcode::ForGLoop || is_for_in_prep(op)) && w.a == reg
}

/// The Luau operator that `op` applies.
pub fn bin_op_text(op: Opcode) -> (r: &'static str)
    ensures
        r@ == operator(op),
{
    match op {
        Opcode::Add | Opcode::AddK => "+",
        Opcode::Sub | Opcode::SubK | Opcode::SubRk => "-",
        Opcode::Mul | Opcode::MulK => "*",
        Opcode::Div | Opcode::DivK | Opcode::DivRk => "/",
        Opcode::IDiv | Opcode::IDivK => "//",
        Opcode::Mod | Opcode::ModK => "%",
        Opcode::Pow | Opcode::PowK => "^",
        Opcode::Concat => "..",
        Opcode::And | Opcode::AndK => "and",
        Opcode::Or | Opcode::OrK => "or",
        _ => "?",
    }
}

/// The comparison on which `op` jumps.
pub fn comparison_text(op: Opcode) -> (r: &'static str)
    ensures
        r@ == comparison_of(op),
{
    match op {
        Opcode::JumpIfEq => "==",
        Opcode::JumpIfLe => "<=",
        Opcode::JumpIfLt => "<",
        Opcode::JumpIfNotEq => "~=",
        Opcode::JumpIfNotLe => ">",
        Opcode::JumpIfNotLt => ">=",
        _ => "==",
    }
}

impl Proto {
    /// The operation at `pc`.
    pub fn op(&self, pc: usize) -> (r: Option<Opcode>)
        ensures
            r == op_at(*self, pc as int),
    {
        if pc < self.code.len() {
            self.code[pc].op
        } else {
            None
        }
    }

    /// The position after the instruction at `pc`.
    pub fn after(&self, pc: usize) -> (r: usize)
        requires
            pc < self.code.len(),
            pc + len_at(*self, pc as int) <= usize::MAX,
        ensures
            r == pc + len_at(*self, pc as int),
    {
        if self.code[pc].len > 1 {
            pc + self.code[pc].len as usize
        } else {
            pc + 1
        }
    }

    /// Where the instruction at `pc` jumps to.
    pub fn target(&self, pc: usize) -> (r: Option<usize>)
        ensures
            crate::query::opt_index(r) == target_at(*self, pc as int),
    {
        if pc < self.code.len() {
            self.code[pc].target
        } else {
            None
        }
    }

    /// The operand word of the instruction at `pc`.
    pub fn aux(&self, pc: usize) -> (r: Word)
        requires
            pc < self.code.len(),
        ensures
            r == aux_at(*self, pc as int),
    {
        if pc + 1 < self.code.len() {
            self.code[pc + 1]
        } else {
            Word {
                raw: 0,
                op: None,
                len: 0,
                a: 0,
                b: 0,
                c: 0,
                d: 0,
                target: None,
                capture: CaptureKind::Unknown,
                kv: 0,
                kv16: 0,
                not: false,
            }
        }
    }
}

// ---- names ------------------------------------------------------------------------------------------------

/// `prefix` and a number.
pub open spec fn numbered(prefix: Text, n: nat) -> Text {
    prefix + decimal(n)
}

/// `prefix` and a number.
pub fn number_name(prefix: &str, n: u128) -> (r: String)
    ensures
        r@ == numbered(prefix@, n as nat),
{
    let mut s = owned(prefix);
    s.append(&decimal_of(n));
    s
}

/// The string constant at `k`, or a name for what is there.
pub open spec fn string_at(p: Proto, k: nat) -> Text {
    if k < p.constants.len() {
        match p.constants@[k as int] {
            Constant::Str { value: Some(t), .. } => t@,
            _ => numbered("K"@, k),
        }
    } else {
        numbered("K"@, k)
    }
}

/// What the first `k` local variables of the source say about the register `r`: `None` where
/// they contradict each other, or one has no name.
pub open spec fn agreed_name(locals: Seq<DebugLocal>, k: int, r: u8) -> Option<Option<Text>>
    decreases k,
{
    if k <= 0 {
        Some(None)
    } else {
        match agreed_name(locals, k - 1, r) {
            None => None,
            Some(found) => if locals[k - 1].reg != r {
                Some(found)
            } else {
                match locals[k - 1].name {
                    None => None,
                    Some(n) => match found {
                        Some(m) => if m == n@ {
                            Some(found)
                        } else {
                            None
                        },
                        None => Some(Some(n@)),
                    },
                }
            },
        }
    }
}

/// The one name that the source gives the register `r`.
pub open spec fn source_name(p: Proto, r: u8) -> Option<Text> {
    match p.debug {
        Some(d) => match agreed_name(d.locals@, d.locals.len() as int, r) {
            Some(Some(n)) => if identifier(n) {
                Some(n)
            } else {
                None
            },
            _ => None,
        },
        None => None,
    }
}

/// The name that the source gives the register `r` at `pc`, from the `k`-th variable on.
pub open spec fn live_name_from(locals: Seq<DebugLocal>, k: int, r: u8, pc: int) -> Option<Text>
    decreases locals.len() - k,
{
    if k < 0 || k >= locals.len() {
        None
    } else {
        let l = locals[k];
        match l.name {
            Some(n) => if l.reg == r && l.start_pc <= pc < l.end_pc && identifier(n@) {
                Some(n@)
            } else {
                live_name_from(locals, k + 1, r, pc)
            },
            None => live_name_from(locals, k + 1, r, pc),
        }
    }
}

/// The name that the source gives the register `r` at `pc`.
pub open spec fn live_name(p: Proto, r: u8, pc: int) -> Option<Text> {
    match p.debug {
        Some(d) => live_name_from(d.locals@, 0, r, pc),
        None => None,
    }
}

/// The name that the source gives the upvalue `i`.
pub open spec fn source_upvalue(p: Proto, i: u8) -> Option<Text> {
    match p.debug {
        Some(d) => if i < d.upvalues.len() {
            match d.upvalues@[i as int] {
                Some(n) => if identifier(n@) {
                    Some(n@)
                } else {
                    None
                },
                None => None,
            }
        } else {
            None
        },
        None => None,
    }
}

/// The name of the upvalue `i`.
pub open spec fn upvalue_name(p: Proto, i: u8) -> Text {
    match source_upvalue(p, i) {
        Some(n) => n,
        None => numbered("u"@, i as nat),
    }
}

/// The name of the register `r` where no loop gives it another.
pub open spec fn register_name(p: Proto, r: u8) -> Text {
    match source_name(p, r) {
        Some(n) => n,
        None => if r < p.num_params {
            numbered("p"@, r as nat)
        } else {
            numbered("v"@, r as nat)
        },
    }
}

impl Proto {
    /// The string constant at `k`, or a name for what is there.
    pub fn string_const(&self, k: u32) -> (r: String)
        ensures
            r@ == string_at(*self, k as nat),
    {
        if (k as u64) < self.constants.len() as u64 {
            if let Constant::Str { value: Some(t), .. } = &self.constants[k as usize] {
                return t.clone();
            }
        }
        number_name("K", k as u128)
    }

    fn unique_debug_name(&self, r: u8) -> (n: Option<String>)
        ensures
            crate::render::opt_string(n) == source_name(*self, r),
    {
        match &self.debug {
            None => None,
            Some(d) => {
                let ghost ls = d.locals@;
                let mut found: Option<String> = None;
                let mut k: usize = 0;
                while k < d.locals.len()
                    invariant
                        k <= d.locals.len(),
                        ls == d.locals@,
                        agreed_name(ls, k as int, r) == Some(crate::render::opt_string(found)),
                        self.debug == Some(*d),
                    decreases d.locals.len() - k,
                {
                    let l = &d.locals[k];
                    if l.reg == r {
                        match &l.name {
                            None => {
                                proof {
                                    agreed_name_stays(ls, k + 1, ls.len() as int, r);
                                }
                                return None;
                            },
                            Some(n) => {
                                if let Some(m) = &found {
                                    if !crate::text::str_eq(m, n) {
                                        proof {
                                            agreed_name_stays(ls, k + 1, ls.len() as int, r);
                                        }
                                        return None;
                                    }
                                } else {
                                    found = Some(n.clone());
                                }
                            },
                        }
                    }
                    k += 1;
                }
                match found {
                    Some(n) => {
                        if is_identifier(&n) {
                            Some(n)
                        } else {
                            None
                        }
                    },
                    None => None,
                }
            },
        }
    }

    /// The name that the source gives the register `r` at `pc`.
    pub fn debug_name_at(&self, r: u8, pc: usize) -> (n: Option<String>)
        ensures
            crate::render::opt_string(n) == live_name(*self, r, pc as int),
    {
        match &self.debug {
            None => None,
            Some(d) => {
                let mut k: usize = 0;
                while k < d.locals.len()
                    invariant
                        k <= d.locals.len(),
                        self.debug == Some(*d),
                        live_name(*self, r, pc as int) == live_name_from(d.locals@, k as int, r, pc as int),
                    decreases d.locals.len() - k,
                {
                    let l = &d.locals[k];
                    if l.reg == r && l.start_pc <= pc && pc < l.end_pc {
                        if let Some(n) = &l.name {
                            if is_identifier(n) {
                                return Some(n.clone());
                            }
                        }
                    }
                    k += 1;
                }
                None
            },
        }
    }

    /// The name of the upvalue `i`.
    pub fn upval_name(&self, i: u8) -> (r: String)
        ensures
            r@ == upvalue_name(*self, i),
    {
        if let Some(d) = &self.debug {
            if (i as usize) < d.upvalues.len() {
                if let Some(n) = &d.upvalues[i as usize] {
                    if is_identifier(n) {
                        return n.clone();
                    }
                }
            }
        }
        number_name("u", i as u128)
    }

    /// The name of the register `r` where no loop gives it another.
    pub fn register_name(&self, r: u8) -> (n: String)
        ensures
            n@ == register_name(*self, r),
    {
        match self.unique_debug_name(r) {
            Some(n) => n,
            None => {
                if r < self.num_params {
                    number_name("p", r as u128)
                } else {
                    number_name("v", r as u128)
                }
            },
        }
    }
}

/// Once names contradict each other, nothing settles it.
proof fn agreed_name_stays(locals: Seq<DebugLocal>, i: int, k: int, r: u8)
    requires
        0 <= i <= k,
        agreed_name(locals, i, r) is None,
    ensures
        agreed_name(locals, k, r) is None,
    decreases k,
{
    if i < k {
        agreed_name_stays(locals, i, k - 1, r);
    }
}

} // verus!
