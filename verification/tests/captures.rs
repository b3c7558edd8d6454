//! Names of captured variables.
use luau_decompile::ast::{Capture, Expr, Stmt};
use luau_decompile::bytecode::Proto;
use luau_decompile::entry::read_proto;
use luau_decompile::maps::TextMap;
use luau_decompile::names::NameSet;
use luau_decompile::render::render_block;
use luau_decompile::upvalues::{
    avoid_closure_capture_name_collisions, declared_names_in_rendered_closure, fill_closures, fresh_capture_name,
    function_literal, resolve_closures, substitute_upvalues,
};

fn set(names: &[&str]) -> NameSet {
    let mut s = NameSet::new();
    for n in names {
        s.insert(n);
    }
    s
}

#[test]
fn rendered_closure_declared_names_include_params_locals_and_loops() {
    let names = declared_names_in_rendered_closure(
        "function(input, gameProcessed)\n\
        \tlocal value, other = 1, 2\n\
        \tlocal function helper(item)\n\
        \tend\n\
        \tfor index, child in children do\n\
        \tend\n\
        \tfor step = 1, 3 do\n\
        \tend\n\
        end",
    );

    for expected in [
        "input",
        "gameProcessed",
        "value",
        "other",
        "helper",
        "item",
        "index",
        "child",
        "step",
    ] {
        assert!(names.contains(expected), "missing {expected}: {names:?}");
    }
}

#[test]
fn fresh_capture_names_avoid_child_and_parent_collisions() {
    let declared = set(&["v1", "outerV1"]);
    let taken = set(&["outerV12"]);

    assert_eq!(fresh_capture_name("v1", &declared, &taken), "outerV13");
}

#[test]
fn placeholders_are_replaced_as_whole_words() {
    let names = vec!["first".to_string(), "second".to_string()];
    assert_eq!(substitute_upvalues("u0(u1, u2, xu0, u01)", &names), "first(second, u2, xu0, second)");
}

#[test]
fn strings_are_left_alone() {
    let names = vec!["first".to_string()];
    assert_eq!(substitute_upvalues("u0(\"u0\", 'u0', \"a\\\"u0\", u0)", &names), "first(\"u0\", 'u0', \"a\\\"u0\", first)");
}

#[test]
fn literals_are_indented() {
    let params = vec!["a".to_string(), "b".to_string()];
    assert_eq!(function_literal(&params, true, "x()\n\ny()\n"), "function(a, b, ...)\n\tx()\n\n\ty()\nend");
    assert_eq!(function_literal(&vec![], true, ""), "function(...)\nend");
    assert_eq!(function_literal(&vec![], false, ""), "function()\nend");
}

#[test]
fn names_are_kept_in_order() {
    let s = set(&["b", "a", "c", "b", "B"]);
    let listed: Vec<&String> = (0..s.len()).map(|k| s.get(k)).collect();
    assert_eq!(listed, ["B", "a", "b", "c"]);
}

fn nothing() -> Proto {
    Proto {
        code: vec![],
        constants: vec![],
        children: vec![],
        num_params: 0,
        num_upvalues: 0,
        max_stack_size: 4,
        is_vararg: false,
        debug: None,
        labels: vec![],
    }
}

fn closure(text: &str) -> Stmt {
    let e = Expr::Closure { text: text.to_string(), captures: vec![Capture::Reg(0), Capture::Upval(3)] };
    Stmt::Assign { targets: vec![Expr::Var("f".to_string())], values: vec![e] }
}

#[test]
fn captured_variables_are_kept_apart_from_declared_ones() {
    let nums = TextMap::new();
    let p = nothing();
    let (machine, _) = read_proto(&p, &nums);
    let mut stmts = vec![closure("function()\n\tlocal v0 = 1\n\treturn u0 + u1 + v0\nend")];
    let rename = avoid_closure_capture_name_collisions(&stmts, &machine, TextMap::new());
    assert_eq!(rename.get("v0").map(|s| s.as_str()), Some("outerV0"));
    resolve_closures(&mut stmts, &machine, &rename);
    let text = render_block(&stmts, 0, &nums);
    assert!(text.contains("return outerV0 + u3 + v0"), "{text}");
}

#[test]
fn captured_variables_keep_names_that_are_free() {
    let nums = TextMap::new();
    let p = nothing();
    let (machine, _) = read_proto(&p, &nums);
    let stmts = vec![closure("function()\n\treturn u0\nend")];
    let rename = avoid_closure_capture_name_collisions(&stmts, &machine, TextMap::new());
    assert!(rename.get("v0").is_none());
}

#[test]
fn requests_are_answered_by_their_numbers() {
    let mut stmts = vec![closure("0"), closure("1"), closure("7")];
    fill_closures(&mut stmts, &TextMap::new().with("0", "function()\nend").with("1", "function(a)\nend"));
    let text = render_block(&stmts, 0, &TextMap::new());
    assert!(text.contains("(a)"), "{text}");
    assert!(text.contains('7'), "{text}");
}
