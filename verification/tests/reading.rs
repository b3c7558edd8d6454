//! Functions from their code words to their source.
use luau_decompile::ast::{Expr, Stmt};
use luau_decompile::bytecode::{CaptureKind, Constant, DebugInfo, DebugLocal, Opcode, Proto, Word};
use luau_decompile::entry::read_proto;
use luau_decompile::locals::assigned_locals;
use luau_decompile::maps::TextMap;
use luau_decompile::pipeline::{open_up, reduce_once, restructure, Rounds};
use luau_decompile::render::render_block;
use luau_decompile::report::{
    module_source, non_local_names, param_names, partial_from, proto_source, protected_names, report, settle,
    with_new_names, Decompiled, ProtoReport,
};
use luau_decompile::sweeps::count_stmts;
use luau_decompile::upvalues::{avoid_closure_capture_name_collisions, fill_closures, function_literal};

fn word(op: Opcode, a: u8, b: u8, c: u8) -> Word {
    Word {
        raw: 0,
        op: Some(op),
        len: 1,
        a,
        b,
        c,
        d: 0,
        target: None,
        capture: CaptureKind::Unknown,
        kv: 0,
        kv16: 0,
        not: false,
    }
}

fn load(op: Opcode, a: u8, d: i32) -> Word {
    Word { d, ..word(op, a, 0, 0) }
}

fn jump(op: Opcode, a: u8, target: usize) -> Word {
    Word { target: Some(target), ..word(op, a, 0, 0) }
}

fn long(first: Word, operand: u32) -> [Word; 2] {
    let second = Word { raw: operand, op: None, kv: operand & 0xff_ffff, kv16: operand & 0xffff, not: operand >> 31 == 1, ..word(Opcode::Nop, 0, 0, 0) };
    [Word { len: 2, ..first }, second]
}

fn import(a: u8, k: i32) -> [Word; 2] {
    long(load(Opcode::GetImport, a, k), 0)
}

fn text(s: &str) -> Constant {
    Constant::Str { value: Some(s.to_string()), literal: format!("\"{s}\""), key: format!("\"{s}\"") }
}

fn function(code: Vec<Word>, constants: Vec<Constant>, num_params: u8) -> Proto {
    let jumped_to = |k: usize| code.iter().any(|w| w.target == Some(k));
    let labels = (0..code.len()).map(|k| if jumped_to(k) { Some(k as u32) } else { None }).collect();
    Proto {
        code,
        constants,
        children: vec![],
        num_params,
        num_upvalues: 0,
        max_stack_size: 10,
        is_vararg: false,
        debug: None,
        labels,
    }
}

fn body(functions: &[Proto], index: usize) -> (String, Vec<String>, ProtoReport) {
    let nums = TextMap::new();
    let (machine, mut stmts) = read_proto(&functions[index], &nums);
    let mut sources = TextMap::new();
    let mut partial = false;
    for (k, q) in machine.requests().iter().enumerate() {
        let (inner, params, said) = body(functions, q.child);
        partial |= said.partial;
        let literal = function_literal(&params, functions[q.child].is_vararg, &inner);
        sources = sources.with(&k.to_string(), &literal);
    }
    fill_closures(&mut stmts, &sources);
    let protected = protected_names(&machine);
    open_up(&mut stmts, &protected);
    let mut rounds = Some(Rounds::new());
    while let Some(now) = rounds {
        reduce_once(&mut stmts, &protected);
        rounds = now.next_round(count_stmts(&stmts));
    }
    restructure(&mut stmts, &protected);
    let non_local = non_local_names(&machine);
    let rename = avoid_closure_capture_name_collisions(&stmts, &machine, TextMap::new());
    let protected = with_new_names(&protected, &rename);
    settle(&mut stmts, &machine, &rename, &non_local, &protected);
    let said = report(index, None, &machine, &stmts, partial);
    let declared = assigned_locals(&stmts, &non_local);
    let result = proto_source(&declared, &stmts, param_names(&machine, &rename), &nums);
    (result.body, result.params, said)
}

fn source(f: Proto) -> String {
    body(&[f], 0).0
}

fn raw(f: &Proto) -> String {
    let nums = TextMap::new();
    let (_, stmts) = read_proto(f, &nums);
    render_block(&stmts, 0, &nums)
}

#[test]
fn a_constant_is_returned() {
    let f = function(vec![load(Opcode::LoadN, 0, -5), word(Opcode::Return, 0, 2, 0)], vec![], 0);
    assert_eq!(raw(&f), "return -5\n");
    assert_eq!(source(f), "return -5\n");
}

#[test]
fn arithmetic_is_materialized_and_inlined() {
    let f = function(vec![word(Opcode::Add, 2, 0, 1), word(Opcode::Return, 2, 2, 0)], vec![], 2);
    assert_eq!(raw(&f), "v2 = p0 + p1\n\nreturn v2\n");
    let (text, params, said) = body(&[f], 0);
    assert_eq!(text, "return p0 + p1\n");
    assert_eq!(params, vec!["p0".to_string(), "p1".to_string()]);
    assert!(!said.partial);
}

#[test]
fn a_numeric_for_has_its_bounds() {
    let mut code = vec![
        load(Opcode::LoadN, 0, 3),
        load(Opcode::LoadN, 1, 1),
        load(Opcode::LoadN, 2, 1),
        jump(Opcode::ForNPrep, 0, 9),
    ];
    code.extend(import(3, 0));
    code.push(word(Opcode::Move, 4, 2, 0));
    code.push(word(Opcode::Call, 3, 2, 1));
    code.push(jump(Opcode::ForNLoop, 0, 4));
    code.push(word(Opcode::Return, 0, 1, 0));
    let f = function(code, vec![Constant::Import("print".to_string())], 0);
    assert_eq!(source(f), "for i = 1, 3 do\n\tprint(i)\nend\n");
}

#[test]
fn a_step_other_than_one_is_kept() {
    let code = vec![
        load(Opcode::LoadN, 0, 9),
        load(Opcode::LoadN, 1, 2),
        load(Opcode::LoadN, 2, 1),
        jump(Opcode::ForNPrep, 0, 6),
        word(Opcode::Call, 5, 1, 1),
        jump(Opcode::ForNLoop, 0, 4),
        word(Opcode::Return, 0, 1, 0),
    ];
    assert!(source(function(code, vec![], 0)).contains("for i = 1, 9, 2 do"));
}

#[test]
fn a_generic_for_has_its_variables() {
    let mut code = Vec::new();
    code.extend(import(0, 0));
    code.push(load(Opcode::LoadNil, 1, 0));
    code.push(load(Opcode::LoadNil, 2, 0));
    code.push(jump(Opcode::ForGPrep, 0, 8));
    code.extend(import(5, 1));
    code.push(word(Opcode::Call, 5, 1, 1));
    code.extend(long(jump(Opcode::ForGLoop, 0, 5), 2));
    code.push(word(Opcode::Return, 0, 1, 0));
    let f = function(code, vec![Constant::Import("things".to_string()), Constant::Import("use".to_string())], 0);
    assert_eq!(source(f), "for i, j in things do\n\tuse()\nend\n");
}

#[test]
fn a_conditional_jump_becomes_an_if() {
    let code = vec![
        jump(Opcode::JumpIfNot, 0, 3),
        load(Opcode::LoadN, 1, 1),
        word(Opcode::Return, 1, 2, 0),
        load(Opcode::LoadN, 1, 2),
        word(Opcode::Return, 1, 2, 0),
    ];
    assert_eq!(source(function(code, vec![], 1)), "if p0 then\n\treturn 1\nend\n\nreturn 2\n");
}

#[test]
fn a_comparison_is_read_from_its_jump() {
    let mut code = Vec::new();
    code.extend(long(jump(Opcode::JumpIfNotLt, 0, 4), 1));
    code.push(load(Opcode::LoadB, 2, 0));
    code.push(word(Opcode::Return, 2, 2, 0));
    code.push(word(Opcode::Return, 0, 1, 0));
    assert_eq!(source(function(code, vec![], 2)), "if p0 < p1 then\n\treturn false\nend\n");
}

#[test]
fn a_backward_jump_becomes_a_while() {
    let mut code = vec![jump(Opcode::JumpIfNot, 0, 5)];
    code.extend(import(1, 0));
    code.push(word(Opcode::Call, 1, 1, 1));
    code.push(jump(Opcode::JumpBack, 0, 0));
    code.push(word(Opcode::Return, 0, 1, 0));
    let f = function(code, vec![Constant::Import("work".to_string())], 1);
    assert_eq!(source(f), "while p0 do\n\twork()\nend\n");
}

#[test]
fn a_backward_test_becomes_a_repeat() {
    let mut code = Vec::new();
    code.extend(import(1, 0));
    code.push(word(Opcode::Call, 1, 1, 2));
    code.push(jump(Opcode::JumpIfNot, 1, 0));
    code.push(word(Opcode::Return, 0, 1, 0));
    let f = function(code, vec![Constant::Import("done".to_string())], 0);
    let text = source(f);
    assert!(text.contains("repeat"), "{text}");
    assert!(text.contains("until"), "{text}");
}

#[test]
fn fields_methods_and_tables_are_read() {
    let mut code = Vec::new();
    code.extend(import(0, 0));
    code.extend(long(word(Opcode::GetTableKs, 1, 0, 0), 1));
    code.extend(long(word(Opcode::NameCall, 2, 1, 0), 2));
    code.push(load(Opcode::LoadK, 4, 3));
    code.push(word(Opcode::Call, 2, 3, 1));
    code.push(word(Opcode::Return, 0, 1, 0));
    let f = function(
        code,
        vec![Constant::Import("game".to_string()), text("Sound"), text("Play"), Constant::Number("0.5".to_string())],
        0,
    );
    assert_eq!(source(f), "game.Sound:Play(0.5)\n");
}

#[test]
fn a_key_that_is_no_identifier_is_indexed() {
    let mut code = Vec::new();
    code.extend(import(0, 0));
    code.extend(long(word(Opcode::GetTableKs, 1, 0, 0), 1));
    code.push(word(Opcode::Return, 1, 2, 0));
    let f = function(code, vec![Constant::Import("t".to_string()), text("two words")], 0);
    assert_eq!(source(f), "return t[\"two words\"]\n");
}

#[test]
fn a_table_is_filled() {
    let mut code = Vec::new();
    code.extend(long(word(Opcode::NewTable, 0, 0, 0), 0));
    code.push(load(Opcode::LoadN, 1, 7));
    code.extend(long(word(Opcode::SetTableKs, 1, 0, 0), 0));
    code.push(word(Opcode::Return, 0, 2, 0));
    let f = function(code, vec![text("x")], 0);
    assert_eq!(source(f), "return {x = 7}\n");
}

#[test]
fn globals_keep_their_assignments() {
    let mut code = vec![load(Opcode::LoadN, 0, 7)];
    code.extend(long(word(Opcode::SetGlobal, 0, 0, 0), 0));
    code.push(word(Opcode::Return, 0, 1, 0));
    assert_eq!(source(function(code, vec![text("shared")], 0)), "shared = 7\n");
}

fn with_closure() -> Vec<Proto> {
    let mut code = Vec::new();
    code.extend(import(0, 0));
    code.push(word(Opcode::Call, 0, 1, 2));
    code.extend(import(1, 1));
    code.push(load(Opcode::NewClosure, 2, 0));
    code.push(Word { capture: CaptureKind::Register, ..word(Opcode::Capture, 0, 0, 0) });
    code.push(word(Opcode::Call, 1, 2, 1));
    code.push(word(Opcode::Return, 0, 1, 0));
    let mut outer = function(code, vec![Constant::Import("make".to_string()), Constant::Import("run".to_string())], 0);
    outer.children = vec![1];
    let mut inner = function(vec![word(Opcode::GetUpval, 0, 0, 0), word(Opcode::Return, 0, 2, 0)], vec![], 0);
    inner.num_upvalues = 1;
    vec![outer, inner]
}

#[test]
fn a_closure_reads_what_it_captures() {
    let (text, _, said) = body(&with_closure(), 0);
    assert_eq!(text, "local v0 = make()\nrun(function()\n\treturn v0\nend)\n");
    assert!(!said.partial);
}

#[test]
fn a_missing_child_is_noted() {
    let f = function(vec![load(Opcode::NewClosure, 0, 4), word(Opcode::Return, 0, 2, 0)], vec![], 0);
    let (text, _, said) = body(&[f], 0);
    assert!(text.contains("--[[closure?]]"), "{text}");
    assert_eq!(said.notes, vec!["NEWCLOSURE child index out of range".to_string()]);
}

#[test]
fn debug_names_are_used() {
    let mut f = function(vec![word(Opcode::Add, 2, 0, 1), word(Opcode::Return, 2, 2, 0)], vec![], 2);
    f.debug = Some(DebugInfo {
        locals: vec![
            DebugLocal { reg: 0, start_pc: 0, end_pc: 2, name: Some("left".to_string()) },
            DebugLocal { reg: 1, start_pc: 0, end_pc: 2, name: Some("not a name".to_string()) },
        ],
        upvalues: vec![],
    });
    let (text, params, _) = body(&[f], 0);
    assert_eq!(text, "return left + p1\n");
    assert_eq!(params, vec!["left".to_string(), "p1".to_string()]);
}

#[test]
fn an_unknown_constant_is_marked() {
    let f = function(vec![load(Opcode::LoadK, 0, 3), word(Opcode::Return, 0, 2, 0)], vec![], 0);
    assert_eq!(source(f), "return K?\n");
}

#[test]
fn words_that_are_no_instruction_are_skipped() {
    let nothing = Word { op: None, ..word(Opcode::Nop, 0, 0, 0) };
    let f = function(vec![nothing, load(Opcode::LoadNil, 0, 0), word(Opcode::Return, 0, 2, 0)], vec![], 0);
    assert_eq!(source(f), "return nil\n");
}

fn said(partial: bool, has_unstructured: bool) -> ProtoReport {
    ProtoReport { index: 0, name: None, partial, has_unstructured, notes: vec![] }
}

fn start_of(d: &Decompiled) -> &str {
    d.source.strip_suffix("return\n").unwrap()
}

#[test]
fn the_header_tells_how_far_it_got() {
    let repository = "-- Github repository https://github.com/PolarisHub/luau-disassembler-decompiler.\n\n";
    let whole = module_source("return\n", vec![said(false, false)]);
    assert!(!whole.partial);
    assert_eq!(start_of(&whole), format!("-- Decompiled by luau-decompile.\n{repository}"));
    let child = module_source("return\n", vec![said(true, false)]);
    assert!(child.partial);
    assert_eq!(
        start_of(&child),
        format!("-- Decompiled by luau-decompile (best-effort reconstruction).\n{repository}\n")
    );
    let jumps = module_source("return\n", vec![said(false, false), said(true, true)]);
    assert!(jumps.partial);
    assert_eq!(jumps.per_proto.len(), 2);
    assert_eq!(
        start_of(&jumps),
        format!(
            "-- Decompiled by luau-decompile (best-effort reconstruction).\n{repository}-- Some regions use goto/labels where structuring is incomplete.\n\n"
        )
    );
}

#[test]
fn the_note_on_jumps_goes_with_the_jumps() {
    let nums = TextMap::new();
    let f = function(vec![load(Opcode::NewClosure, 0, 4)], vec![], 0);
    let (mut machine, _) = read_proto(&f, &nums);
    machine.note("control flow rendered with goto/labels (structuring incomplete)");
    let clean = report(3, Some("f".to_string()), &machine, &[], false);
    assert_eq!(clean.notes, vec!["NEWCLOSURE child index out of range".to_string()]);
    assert_eq!((clean.index, clean.name.as_deref(), clean.partial), (3, Some("f"), false));
    let left = report(3, None, &machine, &[Stmt::Goto("L1".to_string())], false);
    assert_eq!(left.notes.len(), 2);
    assert!(left.partial && left.has_unstructured);
    let child = report(3, None, &machine, &[], true);
    assert!(child.partial && !child.has_unstructured);
}

#[test]
fn many_locals_are_declared_line_by_line() {
    let nums = TextMap::new();
    let names = |n: usize| -> Vec<String> { (0..n).map(|k| format!("x{k}")).collect() };
    let done = vec![Stmt::Return(vec![Expr::Nil])];
    assert_eq!(proto_source(&names(0), &done, vec![], &nums).body, "return nil\n");
    assert_eq!(proto_source(&names(4), &done, vec![], &nums).body, "local x0, x1, x2, x3\nreturn nil\n");
    assert_eq!(
        proto_source(&names(5), &done, vec![], &nums).body,
        "local x0\nlocal x1\nlocal x2\nlocal x3\nlocal x4\nreturn nil\n"
    );
}

#[test]
fn rounds_end_when_nothing_changes() {
    let first = Rounds::new();
    let second = first.next_round(7).unwrap();
    assert_eq!(second.left, 15);
    assert!(second.next_round(7).is_none());
    let mut rounds = Some(first);
    let mut count = 0;
    while let Some(now) = rounds {
        count += 1;
        rounds = now.next_round(count);
    }
    assert_eq!(count, 16);
}

#[test]
fn values_are_written_down_before_a_branch() {
    let mut code = vec![load(Opcode::LoadN, 1, 5), jump(Opcode::JumpIfNot, 0, 5)];
    code.extend(import(2, 0));
    code.push(word(Opcode::Call, 2, 1, 1));
    code.push(word(Opcode::Return, 1, 2, 0));
    let f = function(code, vec![Constant::Import("work".to_string())], 1);
    let text = raw(&f);
    assert_eq!(text, "v1 = 5\n\nif p0 then\n\twork()\n\tv2 = work\nend\n\nreturn v1\n");
}

#[test]
fn an_open_list_goes_into_the_next_call() {
    let mut code = Vec::new();
    code.extend(import(0, 0));
    code.extend(import(1, 1));
    code.push(word(Opcode::Call, 1, 1, 0));
    code.push(word(Opcode::Call, 0, 0, 1));
    code.push(word(Opcode::Return, 0, 1, 0));
    let f = function(code, vec![Constant::Import("outer".to_string()), Constant::Import("inner".to_string())], 0);
    assert_eq!(source(f), "outer(inner())\n");
}

#[test]
fn a_test_whose_outcome_is_stored_is_no_branch() {
    let mut code = Vec::new();
    code.extend(long(jump(Opcode::JumpIfLt, 0, 3), 1));
    code.push(Word { c: 1, ..word(Opcode::LoadB, 2, 0, 0) });
    code.push(word(Opcode::LoadB, 2, 1, 0));
    code.push(word(Opcode::Return, 2, 2, 0));
    assert_eq!(source(function(code, vec![], 2)), "return p0 < p1\n");
}

#[test]
fn tests_that_guard_one_block_are_joined() {
    let mut code = vec![jump(Opcode::JumpIfNot, 0, 2), jump(Opcode::JumpIf, 1, 3), word(Opcode::Return, 0, 1, 0)];
    code.extend(import(2, 0));
    code.push(word(Opcode::Call, 2, 1, 1));
    code.push(word(Opcode::Return, 0, 1, 0));
    let text = source(function(code, vec![Constant::Import("work".to_string())], 2));
    assert!(text.contains("work()"), "{text}");
    assert!(!text.contains("goto"), "{text}");
}

#[test]
fn what_stands_before_a_guarded_block_is_kept() {
    let mut code = vec![jump(Opcode::JumpIfNot, 0, 5), jump(Opcode::JumpIf, 1, 6)];
    code.extend(import(2, 0));
    code.push(word(Opcode::Call, 2, 1, 1));
    code.push(word(Opcode::Return, 0, 1, 0));
    code.extend(import(2, 1));
    code.push(word(Opcode::Call, 2, 1, 1));
    code.push(word(Opcode::Return, 0, 1, 0));
    let f = function(code, vec![Constant::Import("f".to_string()), Constant::Import("g".to_string())], 2);
    let text = source(f);
    assert!(text.contains("f()"), "{text}");
    assert!(text.contains("g()"), "{text}");
}

#[test]
fn an_upvalue_keeps_the_text_that_is_stored_in_it() {
    let mut functions = with_closure();
    functions[1].code = vec![
        load(Opcode::LoadK, 0, 0),
        word(Opcode::SetUpval, 0, 0, 0),
        word(Opcode::Return, 0, 1, 0),
    ];
    functions[1].labels = vec![None, None, None];
    functions[1].constants = vec![text("fast")];
    let (text, _, _) = body(&functions, 0);
    assert_eq!(text, "local v0 = make()\nrun(function()\n\tv0 = \"fast\"\nend)\n");
}

#[test]
fn a_captured_variable_keeps_its_text() {
    let code = vec![
        load(Opcode::LoadK, 0, 0),
        load(Opcode::NewClosure, 1, 0),
        Word { capture: CaptureKind::Register, ..word(Opcode::Capture, 0, 0, 0) },
        word(Opcode::Return, 1, 2, 0),
    ];
    let mut outer = function(code, vec![text("Bob")], 0);
    outer.children = vec![1];
    let mut inner = function(vec![word(Opcode::GetUpval, 0, 0, 0), word(Opcode::Return, 0, 2, 0)], vec![], 0);
    inner.num_upvalues = 1;
    let (text, _, _) = body(&[outer, inner], 0);
    assert_eq!(text, "local v0 = \"Bob\"\n\nreturn function()\n\treturn v0\nend\n");
}

#[test]
fn partial_functions_are_looked_for_from_a_place_on() {
    let reports = vec![said(true, true), said(false, false), said(true, false)];
    assert!(partial_from(&reports, 0));
    assert!(partial_from(&reports, 2));
    assert!(!partial_from(&reports, 3));
    assert!(!partial_from(&vec![said(true, true), said(false, false)], 1));
}
