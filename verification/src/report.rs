//! What is said of a function, and the text of a whole module.
use vstd::prelude::*;
use vstd::string::StringExecFns;

use crate::ast::{block, Block, Stmt};
use crate::bytecode::upvalue_name;
use crate::closures::{contains_unstructured, retexted_block, unstructured};
use crate::locals::{initialized, promote_top_level_initializers};
use crate::machine::{reg_name, Machine, MachineV};
use crate::maps::TextMap;
use crate::names::{insert_all, insert_sorted_members, NameSet};
use crate::pipeline::{close_up, closed_up, fresh_rounds, literals, reduce, reduced, tidied_all};
use crate::render::{block_text, render_block, tabs};
use crate::text::{join_names, joined, str_eq, texts, Text};
use crate::upvalues::{renamed_to, resolve_closures, Resolve};

verus! {

/// What decompiling a whole module gives.
#[derive(Debug, Clone)]
pub struct Decompiled {
    pub source: String,
    /// Whether some function could not be given structure: the source is then only the best that
    /// was found.
    pub partial: bool,
    pub per_proto: Vec<ProtoReport>,
}

/// What is said of one function.
#[derive(Debug, Clone)]
pub struct ProtoReport {
    pub index: usize,
    pub name: Option<String>,
    pub partial: bool,
    pub has_unstructured: bool,
    /// What was uncertain.
    pub notes: Vec<String>,
}

/// The text of one function.
pub struct ProtoDecompileResult {
    pub body: String,
    pub params: Vec<String>,
}

// ---- names ----------------------------------------------------------------------------------------------------

/// Whether a closure captures a register named `n`.
pub open spec fn captured_name(m: MachineV, n: Text) -> bool {
    exists|r: int| 0 <= r < m.captured.len() && r < 256 && #[trigger] m.captured[r] && n == reg_name(m, r as u8)
}

/// Whether one of the first `k` upvalues is named `n`.
pub open spec fn upvalue_named(m: MachineV, k: int, n: Text) -> bool {
    exists|i: int| 0 <= i < k && n == #[trigger] upvalue_name(m.proto, i as u8)
}

/// Whether one of the first `k` registers is named `n`.
pub open spec fn register_named(m: MachineV, k: int, n: Text) -> bool {
    exists|i: int| 0 <= i < k && n == #[trigger] reg_name(m, i as u8)
}

/// Whether what is assigned to `n` can be seen elsewhere: closures capture it, or it is a global or
/// an upvalue.
pub open spec fn shared(m: MachineV, n: Text) -> bool {
    captured_name(m, n) || m.globals.contains(n) || upvalue_named(m, m.proto.num_upvalues as int, n)
}

/// Whether `n` needs no declaration: it is a parameter, a global or an upvalue.
pub open spec fn declared_elsewhere(m: MachineV, n: Text) -> bool {
    register_named(m, m.proto.num_params as int, n) || m.globals.contains(n) || upvalue_named(
        m,
        m.proto.num_upvalues as int,
        n,
    )
}

fn insert_globals(m: &Machine, acc: &mut NameSet)
    ensures
        old(acc).wf() ==> final(acc).wf(),
        forall|n: Text| #[trigger] final(acc)@.contains(n) <==> old(acc)@.contains(n) || m@.globals.contains(n),
{
    let g = m.globals();
    let ghost a0 = acc@;
    let ghost w0 = acc.wf();
    let mut i: usize = 0;
    while i < g.len()
        invariant
            i <= g@.len(),
            g@ == m@.globals,
            w0 ==> acc.wf(),
            a0 == old(acc)@,
            w0 == old(acc).wf(),
            forall|n: Text|
                #[trigger] acc@.contains(n) <==> a0.contains(n) || exists|k: int| 0 <= k < i && #[trigger] g@[k] == n,
        decreases g@.len() - i,
    {
        let ghost a = acc@;
        acc.insert(g.get(i));
        assert forall|n: Text|
            #[trigger] acc@.contains(n) <==> a0.contains(n) || exists|k: int| 0 <= k < i + 1 && #[trigger] g@[k] == n by {
            insert_sorted_members(a, g@[i as int], n);
            assert(acc@.contains(n) <==> a.contains(n) || n == g@[i as int]);
        }
        i += 1;
    }
}

fn insert_upvalues(m: &Machine, acc: &mut NameSet)
    ensures
        old(acc).wf() ==> final(acc).wf(),
        forall|n: Text|
            #[trigger] final(acc)@.contains(n) <==> old(acc)@.contains(n) || upvalue_named(
                m@,
                m@.proto.num_upvalues as int,
                n,
            ),
{
    let ghost a0 = acc@;
    let ghost w0 = acc.wf();
    let p = m.proto();
    let mut i: u8 = 0;
    while i < p.num_upvalues
        invariant
            i <= p.num_upvalues,
            *p == m@.proto,
            a0 == old(acc)@,
            w0 == old(acc).wf(),
            w0 ==> acc.wf(),
            forall|n: Text| #[trigger] acc@.contains(n) <==> a0.contains(n) || upvalue_named(m@, i as int, n),
        decreases p.num_upvalues - i,
    {
        let ghost a = acc@;
        let u = p.upval_name(i);
        acc.insert(&u);
        assert forall|n: Text| #[trigger] acc@.contains(n) <==> a0.contains(n) || upvalue_named(m@, i + 1, n) by {
            insert_sorted_members(a, u@, n);
            if upvalue_named(m@, i as int, n) {
                let k = choose|k: int| 0 <= k < i && n == #[trigger] upvalue_name(m@.proto, k as u8);
                assert(n == upvalue_name(m@.proto, k as u8));
            }
            if n == u@ {
                assert(n == upvalue_name(m@.proto, (i as int) as u8));
            }
        }
        i += 1;
    }
}

/// The names of the registers that closures capture.
fn captured_names(m: &Machine) -> (r: NameSet)
    ensures
        r.wf(),
        forall|n: Text| #[trigger] r@.contains(n) <==> captured_name(m@, n),
{
    let mut acc = NameSet::new();
    let c = m.captured();
    let mut i: usize = 0;
    while i < c.len() && i < 256
        invariant
            i <= c.len(),
            i <= 256,
            c@ == m@.captured,
            acc.wf(),
            forall|n: Text|
                #[trigger] acc@.contains(n) <==> exists|k: int|
                    0 <= k < i && #[trigger] m@.captured[k] && n == reg_name(m@, k as u8),
        decreases 256 - i,
    {
        let ghost a = acc@;
        if c[i] {
            let u = m.reg_name(i as u8);
            acc.insert(&u);
            assert forall|n: Text|
                #[trigger] acc@.contains(n) <==> exists|k: int|
                    0 <= k < i + 1 && #[trigger] m@.captured[k] && n == reg_name(m@, k as u8) by {
                insert_sorted_members(a, u@, n);
                if a.contains(n) {
                    let k = choose|k: int| 0 <= k < i && #[trigger] m@.captured[k] && n == reg_name(m@, k as u8);
                    assert(m@.captured[k]);
                }
                if n == u@ {
                    assert(m@.captured[i as int]);
                }
            }
        }
        i += 1;
    }
    acc
}

/// The names that keep their assignments, whatever reads them.
pub fn protected_names(m: &Machine) -> (r: NameSet)
    ensures
        r.wf(),
        forall|n: Text| #[trigger] r@.contains(n) <==> shared(m@, n),
{
    let mut acc = captured_names(m);
    insert_globals(m, &mut acc);
    insert_upvalues(m, &mut acc);
    acc
}

/// The names that need no declaration.
pub fn non_local_names(m: &Machine) -> (r: NameSet)
    ensures
        r.wf(),
        forall|n: Text| #[trigger] r@.contains(n) <==> declared_elsewhere(m@, n),
{
    let mut acc = NameSet::new();
    let p = m.proto();
    let mut i: u8 = 0;
    while i < p.num_params
        invariant
            i <= p.num_params,
            *p == m@.proto,
            acc.wf(),
            forall|n: Text| #[trigger] acc@.contains(n) <==> register_named(m@, i as int, n),
        decreases p.num_params - i,
    {
        let ghost a = acc@;
        let u = m.reg_name(i);
        acc.insert(&u);
        assert forall|n: Text| #[trigger] acc@.contains(n) <==> register_named(m@, i + 1, n) by {
            insert_sorted_members(a, u@, n);
            if register_named(m@, i as int, n) {
                let k = choose|k: int| 0 <= k < i && n == #[trigger] reg_name(m@, k as u8);
                assert(n == reg_name(m@, k as u8));
            }
            if n == u@ {
                assert(n == reg_name(m@, (i as int) as u8));
            }
        }
        i += 1;
    }
    insert_upvalues(m, &mut acc);
    insert_globals(m, &mut acc);
    acc
}

/// The names of the parameters after renaming.
pub open spec fn params_of(m: MachineV, rename: Map<Text, Text>) -> Seq<Text> {
    Seq::new(m.proto.num_params as nat, |i: int| renamed_to(rename, reg_name(m, i as u8)))
}

/// The names of the parameters after renaming.
pub fn param_names(m: &Machine, rename: &TextMap) -> (r: Vec<String>)
    ensures
        texts(r@) == params_of(m@, rename@),
{
    let p = m.proto();
    let mut out: Vec<String> = Vec::new();
    let mut i: u8 = 0;
    while i < p.num_params
        invariant
            i <= p.num_params,
            *p == m@.proto,
            out.len() == i,
            forall|j: int| 0 <= j < i ==> (#[trigger] out@[j])@ == renamed_to(rename@, reg_name(m@, j as u8)),
        decreases p.num_params - i,
    {
        let n = m.reg_name(i);
        match rename.get(&n) {
            Some(new) => out.push(new.clone()),
            None => out.push(n),
        }
        i += 1;
    }
    assert(texts(out@) =~= params_of(m@, rename@));
    out
}

/// The new names of those of the first `k` of `names` that are renamed.
pub open spec fn new_names(names: Seq<Text>, rename: Map<Text, Text>, k: int) -> Seq<Text>
    decreases k,
{
    if k <= 0 {
        Seq::empty()
    } else if rename.dom().contains(names[k - 1]) {
        new_names(names, rename, k - 1).push(rename[names[k - 1]])
    } else {
        new_names(names, rename, k - 1)
    }
}

/// The set `names`, and the new names of those that are renamed.
pub fn with_new_names(names: &NameSet, rename: &TextMap) -> (r: NameSet)
    ensures
        r@ == insert_all(names@, new_names(names@, rename@, names@.len() as int)),
        names.wf() ==> r.wf(),
{
    let mut more: Vec<String> = Vec::new();
    assert(texts(more@) =~= Seq::<Text>::empty());
    let mut i: usize = 0;
    while i < names.len()
        invariant
            i <= names@.len(),
            texts(more@) == new_names(names@, rename@, i as int),
        decreases names@.len() - i,
    {
        let ghost m0 = more@;
        if let Some(new) = rename.get(names.get(i)) {
            more.push(new.clone());
            assert(texts(more@) =~= texts(m0).push(new@));
        }
        i += 1;
    }
    let mut r = names.copy();
    r.insert_all(&more);
    r
}

// ---- the rest of the way ------------------------------------------------------------------------------------

/// `b`, whose variables have their final names, as short as it gets, with jumps still in it.
pub open spec fn shortened(
    m: &Machine,
    rename: &TextMap,
    non_local: Seq<Text>,
    protected: &NameSet,
    b: Block,
) -> Block {
    let named = initialized(retexted_block(Resolve { machine: m, rename }, b), non_local);
    reduced(fresh_rounds(), tidied_all(literals(), named, protected), protected)
}

/// `b`, whose variables have their final names, to its last form.
pub open spec fn settled(m: &Machine, rename: &TextMap, non_local: Seq<Text>, protected: &NameSet, b: Block) -> Block {
    closed_up(shortened(m, rename, non_local, protected, b), protected)
}

/// Brings a function whose variables have their final names to its last form.
pub fn settle(stmts: &mut Vec<Stmt>, m: &Machine, rename: &TextMap, non_local: &NameSet, protected: &NameSet)
    ensures
        block(final(stmts)@) == settled(m, rename, non_local@, protected, block(old(stmts)@)),
{
    resolve_closures(stmts, m, rename);
    promote_top_level_initializers(stmts, non_local);
    reduce(stmts, protected);
    close_up(stmts, protected);
}

// ---- reports --------------------------------------------------------------------------------------------------

/// The note on control flow without structure.
pub open spec fn jump_note() -> Text {
    "control flow rendered with goto/labels (structuring incomplete)"@
}

/// The first `k` of `notes`, but for those on control flow without structure where there is none
/// left.
pub open spec fn notes_kept(notes: Seq<Text>, jumps: bool, k: int) -> Seq<Text>
    decreases k,
{
    if k <= 0 {
        Seq::empty()
    } else if !jumps && notes[k - 1] == jump_note() {
        notes_kept(notes, jumps, k - 1)
    } else {
        notes_kept(notes, jumps, k - 1).push(notes[k - 1])
    }
}

/// What is said of the function at `index`, whose last form is `stmts`.
pub fn report(index: usize, name: Option<String>, m: &Machine, stmts: &[Stmt], partial_child: bool) -> (r: ProtoReport)
    ensures
        r.index == index,
        r.name == name,
        r.has_unstructured == unstructured(block(stmts@)),
        r.partial == (unstructured(block(stmts@)) || partial_child),
        texts(r.notes@) == notes_kept(m@.notes, unstructured(block(stmts@)), m@.notes.len() as int),
{
    let has_unstructured = contains_unstructured(stmts);
    let notes = m.notes();
    let ghost v = m@.notes;
    assert(texts(notes@).len() == notes@.len());
    let mut kept: Vec<String> = Vec::new();
    assert(texts(kept@) =~= Seq::<Text>::empty());
    let mut i: usize = 0;
    while i < notes.len()
        invariant
            i <= notes.len(),
            v == texts(notes@),
            texts(kept@) == notes_kept(v, has_unstructured, i as int),
        decreases notes.len() - i,
    {
        let ghost k0 = kept@;
        assert(v[i as int] == notes@[i as int]@);
        if has_unstructured || !str_eq(
            &notes[i],
            "control flow rendered with goto/labels (structuring incomplete)",
        ) {
            kept.push(notes[i].clone());
            assert(texts(kept@) =~= texts(k0).push(v[i as int]));
        }
        i += 1;
    }
    ProtoReport { index, name, partial: has_unstructured || partial_child, has_unstructured, notes: kept }
}

// ---- sources --------------------------------------------------------------------------------------------------

/// One line for each of the first `k` of `names`.
pub open spec fn declaration_lines(names: Seq<Text>, k: int) -> Text
    decreases k,
{
    if k <= 0 {
        Seq::empty()
    } else {
        declaration_lines(names, k - 1) + "local "@ + names[k - 1] + "\n"@
    }
}

/// The declarations of `names`: on one line, where there are few.
pub open spec fn declarations(names: Seq<Text>) -> Text {
    if names.len() == 0 {
        Seq::empty()
    } else if names.len() > 4 {
        declaration_lines(names, names.len() as int)
    } else {
        "local "@ + joined(names) + "\n"@
    }
}

fn declare(names: &Vec<String>) -> (r: String)
    ensures
        r@ == declarations(texts(names@)),
{
    let ghost v = texts(names@);
    assert(v.len() == names@.len());
    let mut out = String::new();
    assert(out@ =~= Seq::<char>::empty());
    if names.len() == 0 {
        return out;
    }
    if names.len() > 4 {
        let mut i: usize = 0;
        while i < names.len()
            invariant
                i <= names.len(),
                v == texts(names@),
                out@ == declaration_lines(v, i as int),
            decreases names.len() - i,
        {
            assert(v[i as int] == names@[i as int]@);
            out.append("local ");
            out.append(&names[i]);
            out.append("\n");
            i += 1;
        }
    } else {
        out.append("local ");
        out.append(&join_names(names));
        out.append("\n");
        assert(out@ =~= "local "@ + joined(v) + "\n"@);
    }
    out
}

/// The text of a function body with the statements `b`, in which `names` are declared first.
pub open spec fn body_text(names: Seq<Text>, b: Block, nums: Map<Text, Text>) -> Text {
    declarations(names) + block_text(b, tabs(0), nums)
}

/// Prints a function: its declarations, and its statements.
pub fn proto_source(names: &Vec<String>, stmts: &[Stmt], params: Vec<String>, nums: &TextMap) -> (r: ProtoDecompileResult)
    ensures
        r.body@ == body_text(texts(names@), block(stmts@), nums@),
        r.params == params,
{
    let mut body = declare(names);
    body.append(&render_block(stmts, 0, nums));
    ProtoDecompileResult { body, params }
}

/// Whether some function was not given structure, or holds one that was not.
pub open spec fn any_partial(reports: Seq<ProtoReport>) -> bool {
    exists|i: int| 0 <= i < reports.len() && (#[trigger] reports[i]).partial
}

/// Whether some function still holds labels or jumps.
pub open spec fn any_unstructured(reports: Seq<ProtoReport>) -> bool {
    exists|i: int| 0 <= i < reports.len() && (#[trigger] reports[i]).has_unstructured
}

/// The comment before the source of a module.
pub open spec fn header(partial: bool, jumps: bool) -> Text {
    if !partial {
        "-- Decompiled by luau-decompile.\n"@
            + "-- Github repository https://github.com/PolarisHub/luau-disassembler-decompiler.\n\n"@
    } else {
        "-- Decompiled by luau-decompile (best-effort reconstruction).\n"@
            + "-- Github repository https://github.com/PolarisHub/luau-disassembler-decompiler.\n\n"@ + if jumps {
            "-- Some regions use goto/labels where structuring is incomplete.\n\n"@
        } else {
            "\n"@
        }
    }
}

/// Whether one of the reports from number `from` on is on a function that was not given structure,
/// or that holds one that was not.
pub fn partial_from(reports: &Vec<ProtoReport>, from: usize) -> (r: bool)
    ensures
        r == exists|i: int| from <= i < reports@.len() && (#[trigger] reports@[i]).partial,
{
    let mut i: usize = from;
    while i < reports.len()
        invariant
            from <= i,
            forall|j: int| from <= j < i && j < reports@.len() ==> !(#[trigger] reports@[j]).partial,
        decreases reports.len() - i,
    {
        if reports[i].partial {
            return true;
        }
        i += 1;
    }
    false
}

/// Puts the source of a module together from the text of its main function and the reports on all
/// of its functions.
pub fn module_source(body: &str, reports: Vec<ProtoReport>) -> (r: Decompiled)
    ensures
        r.partial == any_partial(reports@),
        r.source@ == header(any_partial(reports@), any_unstructured(reports@)) + body@,
        r.per_proto == reports,
{
    let mut partial = false;
    let mut jumps = false;
    let mut i: usize = 0;
    while i < reports.len()
        invariant
            i <= reports.len(),
            partial <==> exists|j: int| 0 <= j < i && (#[trigger] reports@[j]).partial,
            jumps <==> exists|j: int| 0 <= j < i && (#[trigger] reports@[j]).has_unstructured,
        decreases reports.len() - i,
    {
        partial = partial || reports[i].partial;
        jumps = jumps || reports[i].has_unstructured;
        i += 1;
    }
    let mut source = String::new();
    assert(source@ =~= Seq::<char>::empty());
    if partial {
        source.append("-- Decompiled by luau-decompile (best-effort reconstruction).\n");
        source.append("-- Github repository https://github.com/PolarisHub/luau-disassembler-decompiler.\n\n");
        if jumps {
            source.append("-- Some regions use goto/labels where structuring is incomplete.\n\n");
        } else {
            source.append("\n");
        }
    } else {
        source.append("-- Decompiled by luau-decompile.\n");
        source.append("-- Github repository https://github.com/PolarisHub/luau-disassembler-decompiler.\n\n");
    }
    assert(source@ =~= header(partial, jumps));
    source.append(body);
    Decompiled { source, partial, per_proto: reports }
}

} // verus!
