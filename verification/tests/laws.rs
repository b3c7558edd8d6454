//! What the passes keep, on small programs.
use luau_decompile::and_or::recover_and_or;
use luau_decompile::ast::{Expr, Stmt, TableField};
use luau_decompile::conditions::{negate, negate_condition};
use luau_decompile::dead_stores::{dead_store_elim, remove_dead_pure_stores_after_last_read};
use luau_decompile::idents::{is_identifier, is_luau_keyword};
use luau_decompile::inline::{flat_inline_once, single_use_inline};
use luau_decompile::locals::{assigned_locals, promote_top_level_initializers};
use luau_decompile::maps::TextMap;
use luau_decompile::markers::{remove_dead_literal_markers, remove_unseen_literal_markers};
use luau_decompile::names::NameSet;
use luau_decompile::numbers::render_number;
use luau_decompile::pipeline::{drop_unit_for_steps, reduce_once, tidy, Tidy};
use luau_decompile::render::{render_block, render_expr};
use luau_decompile::skips::recover_if_skip_gotos;
use luau_decompile::split::split_reused_registers;
use luau_decompile::sweeps::{count_stmts, drop_unreachable, remove_unused_labels, simplify_unseen_repeat_guards};
use luau_decompile::tables::{fold_table_literals, inline_table_literal_fill_temps, inline_unseen_table_literals};

fn var(n: &str) -> Expr {
    Expr::Var(n.to_string())
}

fn num(n: &str) -> Expr {
    Expr::Num(n.to_string())
}

fn call(f: &str, args: Vec<Expr>) -> Expr {
    Expr::Call(Box::new(var(f)), args)
}

fn set(n: &str, e: Expr) -> Stmt {
    Stmt::Assign { targets: vec![var(n)], values: vec![e] }
}

fn when(cond: Expr, then_body: Vec<Stmt>) -> Stmt {
    Stmt::If { cond, then_body, else_body: vec![] }
}

fn names(list: &[&str]) -> NameSet {
    let mut s = NameSet::new();
    for n in list {
        s.insert(n);
    }
    s
}

fn text(stmts: &[Stmt]) -> String {
    render_block(stmts, 0, &TextMap::new())
}

fn shown(e: &Expr) -> String {
    render_expr(e, &TextMap::new())
}

fn calls(stmts: &[Stmt]) -> usize {
    text(stmts).matches('(').count()
}

#[test]
fn negating_twice_gives_the_condition_back() {
    for op in ["==", "~=", "<", "<=", ">", ">="] {
        let c = Expr::Binary(op, Box::new(var("a")), Box::new(var("b")));
        assert_eq!(shown(&negate(negate(c.clone()))), shown(&c));
        assert_eq!(shown(&negate_condition(&negate_condition(&c))), shown(&c));
    }
}

#[test]
fn negation_goes_through_and_and_or() {
    let c = Expr::Binary(
        "and",
        Box::new(var("a")),
        Box::new(Expr::Binary("or", Box::new(Expr::Unary("not ", Box::new(var("b")))), Box::new(var("c")))),
    );
    assert_eq!(shown(&negate_condition(&c)), "not a or (b and not c)");
}

#[test]
fn dead_stores_leave_calls_and_protected_names() {
    let start = vec![
        set("a", num("1")),
        set("b", call("f", vec![])),
        set("kept", num("2")),
        set("c", num("3")),
        set("c", call("g", vec![])),
        Stmt::Return(vec![var("c")]),
    ];
    let mut stmts = start.clone();
    dead_store_elim(&mut stmts, &names(&["kept"]));
    assert_eq!(text(&stmts), "f()\nkept = 2\nc = g()\n\nreturn c\n");
    assert_eq!(calls(&stmts), calls(&start));
    let once = text(&stmts);
    dead_store_elim(&mut stmts, &names(&["kept"]));
    assert_eq!(text(&stmts), once);
}

#[test]
fn stores_after_the_last_read_go() {
    let mut stmts = vec![
        set("key", call("f", vec![])),
        Stmt::Call(call("g", vec![var("key")])),
        set("key", num("60")),
        set("shared", num("7")),
    ];
    remove_dead_pure_stores_after_last_read(&mut stmts, &names(&["shared"]));
    assert_eq!(text(&stmts), "key = f()\ng(key)\nshared = 7\n");
}

#[test]
fn inlining_moves_each_call_once() {
    let start = vec![
        set("a", call("f", vec![])),
        set("b", Expr::MethodCall(Box::new(var("a")), "g".to_string(), vec![])),
        set("kept", num("1")),
        Stmt::Return(vec![var("b"), var("kept")]),
    ];
    let mut stmts = start.clone();
    single_use_inline(&mut stmts, &names(&["kept"]));
    assert_eq!(calls(&stmts), calls(&start));
    assert!(text(&stmts).contains("kept = 1"), "{}", text(&stmts));
    assert!(text(&stmts).contains("f():g()"), "{}", text(&stmts));
    let once = text(&stmts);
    single_use_inline(&mut stmts, &names(&["kept"]));
    assert_eq!(text(&stmts), once);
}

#[test]
fn only_fills_that_follow_at_once_are_folded() {
    let start = vec![
        set("t", Expr::Table(vec![])),
        Stmt::Assign { targets: vec![Expr::Index(Box::new(var("t")), Box::new(num("1")))], values: vec![call("f", vec![])] },
        Stmt::Assign { targets: vec![Expr::Field(Box::new(var("t")), "x".to_string())], values: vec![num("2")] },
        Stmt::Call(call("g", vec![])),
        Stmt::Assign { targets: vec![Expr::Field(Box::new(var("t")), "y".to_string())], values: vec![num("3")] },
    ];
    let mut stmts = start.clone();
    fold_table_literals(&mut stmts);
    assert_eq!(text(&stmts), "t = {f(), x = 2}\ng()\nt.y = 3\n");
    assert_eq!(calls(&stmts), calls(&start));
}

#[test]
fn a_fill_that_reads_the_table_is_not_folded() {
    let mut stmts = vec![
        set("t", Expr::Table(vec![])),
        Stmt::Assign { targets: vec![Expr::Field(Box::new(var("t")), "me".to_string())], values: vec![var("t")] },
    ];
    fold_table_literals(&mut stmts);
    assert_eq!(text(&stmts), "t = {}\nt.me = t\n");
}

#[test]
fn literals_move_into_what_stores_them() {
    let literal = Expr::Table(vec![TableField::Item(call("f", vec![]))]);
    let mut stmts = vec![
        set("tmp", literal),
        Stmt::Assign { targets: vec![Expr::Field(Box::new(var("parent")), "k".to_string())], values: vec![var("tmp")] },
        set("tmp", num("1")),
        Stmt::Return(vec![var("tmp")]),
    ];
    inline_table_literal_fill_temps(&mut stmts);
    assert_eq!(text(&stmts), "parent.k = {f()}\ntmp = 1\n\nreturn tmp\n");
}

#[test]
fn a_literal_that_is_read_again_stays() {
    let mut stmts = vec![
        set("tmp", Expr::Table(vec![])),
        Stmt::Assign { targets: vec![Expr::Field(Box::new(var("parent")), "k".to_string())], values: vec![var("tmp")] },
        set("tmp", call("f", vec![var("tmp")])),
    ];
    inline_table_literal_fill_temps(&mut stmts);
    assert_eq!(text(&stmts), "tmp = {}\nparent.k = tmp\ntmp = f(tmp)\n");
}

#[test]
fn locals_are_listed_once_in_order() {
    let stmts = vec![
        set("b", num("1")),
        when(var("b"), vec![set("a", num("2")), set("b", num("3"))]),
        Stmt::Local { names: vec!["c".to_string()], values: vec![] },
        set("c", num("4")),
        Stmt::Assign { targets: vec![var("d"), var("p")], values: vec![call("f", vec![])] },
    ];
    assert_eq!(assigned_locals(&stmts, &names(&["p"])), ["b", "a", "d"]);
}

#[test]
fn only_the_one_assignment_becomes_a_declaration() {
    let mut stmts = vec![
        set("once", call("f", vec![])),
        set("twice", num("1")),
        set("twice", num("2")),
        Stmt::Call(call("g", vec![var("early")])),
        set("early", num("3")),
        set("p", num("4")),
    ];
    promote_top_level_initializers(&mut stmts, &names(&["p"]));
    assert_eq!(text(&stmts), "local once = f()\ntwice = 1\ntwice = 2\ng(early)\nearly = 3\np = 4\n");
}

#[test]
fn labels_stay_where_something_jumps_to_them() {
    let mut stmts = vec![
        when(var("a"), vec![Stmt::Goto("L1".to_string())]),
        Stmt::Label("L1".to_string()),
        Stmt::Label("L2".to_string()),
    ];
    remove_unused_labels(&mut stmts);
    assert!(text(&stmts).contains("::L1::"));
    assert!(!text(&stmts).contains("::L2::"));
}

#[test]
fn code_behind_a_label_is_reached() {
    let mut stmts = vec![
        Stmt::Return(vec![]),
        Stmt::Call(call("lost", vec![])),
        Stmt::Label("L1".to_string()),
        Stmt::Call(call("found", vec![])),
    ];
    drop_unreachable(&mut stmts);
    assert!(!text(&stmts).contains("lost"));
    assert!(text(&stmts).contains("found"));
}

#[test]
fn recovered_blocks_are_settled() {
    let mut stmts = vec![
        when(var("a"), vec![Stmt::Goto("L1".to_string())]),
        Stmt::Call(call("f", vec![])),
        Stmt::Label("L1".to_string()),
    ];
    recover_if_skip_gotos(&mut stmts);
    assert_eq!(text(&stmts), "if not a then\n\tf()\nend\n");
    recover_if_skip_gotos(&mut stmts);
    assert_eq!(text(&stmts), "if not a then\n\tf()\nend\n");
    assert_eq!(count_stmts(&stmts), 2);
}

#[test]
fn a_diamond_becomes_an_and_or() {
    let mut stmts = vec![
        when(
            var("c"),
            vec![set("z", var("x")), when(var("z"), vec![Stmt::Goto("L1".to_string())])],
        ),
        set("z", var("y")),
        Stmt::Label("L1".to_string()),
    ];
    recover_and_or(&mut stmts);
    assert!(text(&stmts).contains("z = (c and x) or y"), "{}", text(&stmts));
}

#[test]
fn steps_of_one_are_implicit() {
    let count = |step: &str| Stmt::NumericFor {
        var: "i".to_string(),
        start: num("1"),
        limit: num("9"),
        step: Some(num(step)),
        body: vec![],
    };
    let mut stmts = vec![when(var("a"), vec![count("1")]), count("2")];
    drop_unit_for_steps(&mut stmts);
    let shown = text(&stmts);
    assert!(shown.contains("for i = 1, 9 do"), "{shown}");
    assert!(shown.contains("for i = 1, 9, 2 do"), "{shown}");
    drop_unit_for_steps(&mut stmts);
    assert_eq!(text(&stmts), shown);
}

#[test]
fn a_final_return_of_nothing_goes() {
    let mut stmts = vec![Stmt::Call(call("f", vec![])), Stmt::Return(vec![])];
    tidy(Tidy::FinalReturn, &mut stmts, &NameSet::new());
    assert_eq!(text(&stmts), "f()\n");
    tidy(Tidy::FinalReturn, &mut stmts, &NameSet::new());
    assert_eq!(text(&stmts), "f()\n");
}

#[test]
fn reused_registers_are_told_apart() {
    let start = vec![
        set("v1", call("f", vec![])),
        Stmt::Call(call("g", vec![var("v1")])),
        set("v1", call("h", vec![])),
        Stmt::Call(call("g", vec![var("v1")])),
    ];
    let mut stmts = start.clone();
    split_reused_registers(&mut stmts, &NameSet::new());
    assert_ne!(text(&stmts), text(&start));
    assert_eq!(calls(&stmts), calls(&start));
    let mut kept = start.clone();
    split_reused_registers(&mut kept, &names(&["v1"]));
    assert_eq!(text(&kept), text(&start));
}

#[test]
fn shorter_spellings_of_numbers_win() {
    let forms = TextMap::new().with("0.10000000000000001", "0.1").with("5", "5.0");
    assert_eq!(render_number("0.10000000000000001", &forms), "0.1");
    assert_eq!(render_number("5", &forms), "5");
    assert_eq!(render_number("nan", &forms), "nan");
}

#[test]
fn keywords_are_no_identifiers() {
    assert!(is_identifier("_value1"));
    assert!(!is_identifier("1value"));
    assert!(!is_identifier(""));
    assert!(!is_identifier("a b"));
    assert!(is_luau_keyword("until"));
    assert!(!is_luau_keyword("Until"));
}

#[test]
fn later_entries_of_a_map_win() {
    let m = TextMap::new().with("a", "1").with("b", "2").with("a", "3");
    assert_eq!(m.get("a").map(|s| s.as_str()), Some("3"));
    assert_eq!(m.get("b").map(|s| s.as_str()), Some("2"));
    assert!(m.get("c").is_none());
}

#[test]
fn calls_keep_their_order() {
    let order = |f: &str, y: Expr| {
        vec![
            set("x", call(f, vec![])),
            Stmt::Local { names: vec!["y".to_string()], values: vec![y] },
            Stmt::Call(call("x", vec![])),
            Stmt::Return(vec![var("y")]),
        ]
    };
    let mut stmts = order("f", call("g", vec![]));
    let before = text(&stmts);
    single_use_inline(&mut stmts, &names(&["y"]));
    assert_eq!(text(&stmts), before);

    let mut stmts = order("f", num("1"));
    single_use_inline(&mut stmts, &names(&["y"]));
    assert_eq!(
        text(&stmts),
        text(&[
            Stmt::Local { names: vec!["y".to_string()], values: vec![num("1")] },
            Stmt::Call(Expr::Call(Box::new(call("f", vec![])), vec![])),
            Stmt::Return(vec![var("y")]),
        ])
    );
}

#[test]
fn dead_stores_leave_their_calls_in_order() {
    let mut stmts = vec![
        set("a", call("f", vec![])),
        set("g", num("1")),
        set("b", call("h", vec![])),
        set("c", num("2")),
        set("g", num("3")),
    ];
    dead_store_elim(&mut stmts, &names(&["g"]));
    assert_eq!(
        text(&stmts),
        text(&[
            Stmt::Call(call("f", vec![])),
            set("g", num("1")),
            Stmt::Call(call("h", vec![])),
            set("g", num("3")),
        ])
    );
}

#[test]
fn each_inlining_moves_one_value() {
    let mut stmts = vec![
        set("a", call("f", vec![])),
        set("b", Expr::Field(Box::new(var("a")), "x".to_string())),
        Stmt::Call(call("print", vec![var("b")])),
    ];
    assert!(flat_inline_once(&mut stmts, &NameSet::new()));
    assert_eq!(
        text(&stmts),
        text(&[
            set("b", Expr::Field(Box::new(call("f", vec![])), "x".to_string())),
            Stmt::Call(call("print", vec![var("b")])),
        ])
    );
    assert!(!flat_inline_once(&mut stmts, &NameSet::new()));
    assert_eq!(stmts.len(), 2);
}

#[test]
fn inlining_again_changes_nothing() {
    let mut stmts = vec![
        set("a", num("1")),
        when(var("c"), vec![set("b", var("d")), Stmt::Call(call("print", vec![var("b"), var("a")]))]),
        Stmt::Return(vec![var("a")]),
    ];
    single_use_inline(&mut stmts, &NameSet::new());
    let once = text(&stmts);
    single_use_inline(&mut stmts, &NameSet::new());
    assert_eq!(text(&stmts), once);
    assert_eq!(
        once,
        text(&[
            set("a", num("1")),
            when(var("c"), vec![Stmt::Call(call("print", vec![var("d"), var("a")]))]),
            Stmt::Return(vec![var("a")]),
        ])
    );
}

#[test]
fn locals_of_a_branch_come_before_those_of_the_other() {
    let stmts = vec![
        Stmt::If {
            cond: var("c"),
            then_body: vec![set("z", num("1")), set("a", num("1"))],
            else_body: vec![set("y", num("1")), set("z", num("2"))],
        },
        set("b", num("1")),
    ];
    assert_eq!(assigned_locals(&stmts, &NameSet::new()), vec!["z", "a", "y", "b"]);
}

fn string(s: &str) -> Expr {
    Expr::Str(format!("\"{s}\""))
}

fn store_field(t: Expr, value: Expr) -> Stmt {
    Stmt::Assign { targets: vec![Expr::Field(Box::new(t), "k".to_string())], values: vec![value] }
}

#[test]
fn protected_markers_stay() {
    let block = || vec![set("g", string("text")), set("m", string("text")), Stmt::Return(vec![])];
    let mut stmts = block();
    remove_unseen_literal_markers(&mut stmts, &names(&["g"]));
    assert_eq!(text(&stmts), text(&[set("g", string("text")), Stmt::Return(vec![])]));
    let mut stmts = block();
    remove_dead_literal_markers(&mut stmts);
    assert_eq!(text(&stmts), text(&[Stmt::Return(vec![])]));
}

#[test]
fn protected_tables_stay() {
    let block = || vec![set("g", Expr::Table(vec![])), store_field(var("h"), var("g"))];
    let mut stmts = block();
    inline_unseen_table_literals(&mut stmts, &names(&["g"]));
    assert_eq!(text(&stmts), text(&block()));
    let moved = text(&[store_field(var("h"), Expr::Table(vec![]))]);
    let mut stmts = block();
    inline_unseen_table_literals(&mut stmts, &names(&["h"]));
    assert_eq!(text(&stmts), moved);
    let mut stmts = block();
    inline_table_literal_fill_temps(&mut stmts);
    assert_eq!(text(&stmts), moved);
}

#[test]
fn a_literal_does_not_move_past_a_call() {
    let made = || Expr::Table(vec![TableField::Item(call("f", vec![]))]);
    let block = |owner: Expr| vec![set("tmp", made()), store_field(owner, var("tmp"))];
    let mut stmts = block(call("g", vec![]));
    inline_table_literal_fill_temps(&mut stmts);
    assert_eq!(text(&stmts), text(&block(call("g", vec![]))));

    let mut stmts = block(var("p"));
    inline_table_literal_fill_temps(&mut stmts);
    assert_eq!(text(&stmts), text(&[store_field(var("p"), made())]));
}

fn limited(value: Expr, limit: Expr, result: Expr) -> Vec<Stmt> {
    vec![
        Stmt::Repeat {
            body: vec![Stmt::Call(call("try", vec![])), set("n", value)],
            cond: Expr::Binary("<=", Box::new(var("n")), Box::new(limit)),
        },
        Stmt::Return(vec![result]),
    ]
}

#[test]
fn a_limit_moves_into_the_condition_where_nothing_else_needs_it() {
    let plain = || limited(num("3"), var("tries"), var("saved"));
    let mut stmts = plain();
    simplify_unseen_repeat_guards(&mut stmts, &names(&["saved"]));
    let moved = text(&stmts);
    assert!(moved.contains("until tries >= 3"), "{moved}");
    assert!(!moved.contains("n = 3"), "{moved}");

    for (stmts, protected) in [
        (plain(), names(&["n"])),
        (limited(num("3"), var("tries"), var("n")), NameSet::new()),
        (limited(Expr::Binary("+", Box::new(var("n")), Box::new(num("1"))), var("tries"), var("saved")), NameSet::new()),
        (limited(call("f", vec![]), call("g", vec![]), var("saved")), NameSet::new()),
    ] {
        let before = text(&stmts);
        let mut after = stmts;
        simplify_unseen_repeat_guards(&mut after, &protected);
        assert_eq!(text(&after), before);
    }
}

#[test]
fn a_round_keeps_what_is_protected() {
    let mut stmts = vec![
        set("g", string("text")),
        set("t", Expr::Table(vec![])),
        store_field(var("h"), var("t")),
        set("v", num("1")),
        set("g", num("2")),
        Stmt::Return(vec![]),
    ];
    reduce_once(&mut stmts, &names(&["g", "t"]));
    assert_eq!(
        text(&stmts),
        text(&[
            set("g", string("text")),
            set("t", Expr::Table(vec![])),
            store_field(var("h"), var("t")),
            set("g", num("2")),
            Stmt::Return(vec![]),
        ])
    );
}
