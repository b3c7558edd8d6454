//! Jumps are taken out only where nothing else can be meant.
use luau_decompile::and_or::recover_and_or;
use luau_decompile::ast::{Expr, Stmt, TableField};
use luau_decompile::back_loops::{recover_backward_goto_while, recover_backward_loops};
use luau_decompile::function_ends::replace_return_label_gotos;
use luau_decompile::joins::{recover_if_join_gotos, recover_orphan_if_join_gotos};
use luau_decompile::labeled_bodies::retarget_missing_gotos_to_next_label;
use luau_decompile::maps::TextMap;
use luau_decompile::markers::remove_dead_literal_markers;
use luau_decompile::names::NameSet;
use luau_decompile::orphans::{
    recover_nested_orphan_skip_gotos, recover_orphan_skip_blocks, replace_orphan_gotos_with_terminal_continuation,
};
use luau_decompile::render::render_block;
use luau_decompile::skips::{
    recover_if_skip_gotos, recover_missing_guard_skip_to_block_end_gotos, recover_missing_label_skip_to_block_end_gotos,
};
use luau_decompile::sweeps::drop_unreachable;
use luau_decompile::tables::inline_table_literal_fill_temps;

fn var(n: &str) -> Expr {
    Expr::Var(n.to_string())
}

fn string(s: &str) -> Expr {
    Expr::Str(s.to_string())
}

fn not(e: Expr) -> Expr {
    Expr::Unary("not ", Box::new(e))
}

fn run(f: &str) -> Stmt {
    run_on(f, vec![])
}

fn run_on(f: &str, args: Vec<Expr>) -> Stmt {
    Stmt::Call(Expr::Call(Box::new(var(f)), args))
}

fn set(n: &str, e: Expr) -> Stmt {
    Stmt::Assign { targets: vec![var(n)], values: vec![e] }
}

fn either(cond: Expr, then_body: Vec<Stmt>, else_body: Vec<Stmt>) -> Stmt {
    Stmt::If { cond, then_body, else_body }
}

fn when(cond: Expr, then_body: Vec<Stmt>) -> Stmt {
    either(cond, then_body, vec![])
}

fn goto(l: &str) -> Stmt {
    Stmt::Goto(l.to_string())
}

fn label(l: &str) -> Stmt {
    Stmt::Label(l.to_string())
}

fn once(body: Vec<Stmt>) -> Stmt {
    Stmt::Repeat { cond: Expr::Bool(true), body }
}

fn names(list: &[&str]) -> NameSet {
    let mut s = NameSet::new();
    for n in list {
        s.insert(n);
    }
    s
}

fn text(stmts: &[Stmt]) -> String {
    render_block(stmts, 0, &TextMap::new())
}

fn jump_over_the_rest() -> Vec<Stmt> {
    vec![
        when(var("c"), vec![when(var("d"), vec![goto("L")]), run("f")]),
        run("g"),
        label("L"),
        run("h"),
    ]
}

#[test]
fn a_label_of_an_outer_block_is_not_missing() {
    let before = text(&jump_over_the_rest());
    let mut stmts = jump_over_the_rest();
    recover_orphan_skip_blocks(&mut stmts);
    assert_eq!(text(&stmts), before);
    recover_nested_orphan_skip_gotos(&mut stmts);
    assert_eq!(text(&stmts), before);
    replace_orphan_gotos_with_terminal_continuation(&mut stmts);
    assert_eq!(text(&stmts), before);
    recover_missing_label_skip_to_block_end_gotos(&mut stmts);
    assert_eq!(text(&stmts), before);
    recover_missing_guard_skip_to_block_end_gotos(&mut stmts);
    assert_eq!(text(&stmts), before);
    retarget_missing_gotos_to_next_label(&mut stmts);
    assert_eq!(text(&stmts), before);
    recover_and_or(&mut stmts);
    assert_eq!(text(&stmts), before);
}

#[test]
fn a_jump_to_a_missing_label_guards_what_follows() {
    let mut stmts = vec![when(var("c"), vec![when(var("d"), vec![goto("L")]), run("f")]), run("g")];
    recover_orphan_skip_blocks(&mut stmts);
    assert_eq!(text(&stmts), text(&[when(var("c"), vec![when(not(var("d")), vec![run("f")])]), run("g")]));
}

#[test]
fn the_suffix_that_is_skipped_is_wrapped() {
    let charge = || set("state", string("CHARGING"));
    let block = |exit: fn() -> Stmt| {
        vec![
            when(not(var("active")), vec![charge(), exit()]),
            when(not(var("target")), vec![charge(), exit()]),
            either(var("root"), vec![charge()], vec![Stmt::Return(vec![])]),
        ]
    };
    let mut stmts = block(|| goto("done"));
    recover_missing_label_skip_to_block_end_gotos(&mut stmts);
    assert_eq!(text(&stmts), text(&[once(block(|| Stmt::Break))]));
}

fn store_table(before: Vec<Stmt>, after: Vec<Stmt>) -> Vec<Stmt> {
    let mut body = before;
    body.push(Stmt::Assign {
        targets: vec![Expr::Field(Box::new(var("p")), "k".to_string())],
        values: vec![var("tmp")],
    });
    let mut out = vec![when(var("c"), body)];
    out.extend(after);
    out
}

fn empty_table() -> Expr {
    let fields: Vec<TableField> = vec![];
    Expr::Table(fields)
}

#[test]
fn a_table_that_is_read_after_its_block_stays() {
    let block = || store_table(vec![set("tmp", empty_table())], vec![run_on("print", vec![var("tmp")])]);
    let mut stmts = block();
    inline_table_literal_fill_temps(&mut stmts);
    assert_eq!(text(&stmts), text(&block()));
}

#[test]
fn a_table_that_is_overwritten_after_its_block_moves() {
    let mut stmts = store_table(
        vec![set("tmp", empty_table())],
        vec![set("tmp", Expr::Nil), run_on("print", vec![var("tmp")])],
    );
    inline_table_literal_fill_temps(&mut stmts);
    let moved = when(
        var("c"),
        vec![Stmt::Assign {
            targets: vec![Expr::Field(Box::new(var("p")), "k".to_string())],
            values: vec![empty_table()],
        }],
    );
    assert_eq!(text(&stmts), text(&[moved, set("tmp", Expr::Nil), run_on("print", vec![var("tmp")])]));
}

#[test]
fn a_join_loses_its_label() {
    let mut stmts = vec![
        when(var("cond"), vec![run("accepted"), goto("join")]),
        run("fallback"),
        label("join"),
        run("common"),
    ];
    recover_if_join_gotos(&mut stmts);
    assert_eq!(text(&stmts), text(&[either(var("cond"), vec![run("accepted")], vec![run("fallback")]), run("common")]));
}

#[test]
fn a_join_of_several_jumps_stays() {
    let block = || {
        vec![
            when(var("a"), vec![run("first"), goto("join")]),
            when(var("b"), vec![run("second"), goto("join")]),
            run("fallback"),
            label("join"),
            run("common"),
        ]
    };
    let mut stmts = block();
    recover_if_join_gotos(&mut stmts);
    assert_eq!(text(&stmts), text(&block()));
}

#[test]
fn only_a_straight_tail_is_absorbed() {
    let with_tail = |tail: Stmt| vec![when(var("accepted"), vec![goto("missing_join")]), tail];
    let spin = || Stmt::While { cond: var("c"), body: vec![run("f")] };
    let mut stmts = with_tail(spin());
    recover_orphan_if_join_gotos(&mut stmts);
    assert_eq!(text(&stmts), text(&with_tail(spin())));

    let mut stmts = with_tail(run("fallback"));
    recover_orphan_if_join_gotos(&mut stmts);
    assert_eq!(text(&stmts), text(&[when(not(var("accepted")), vec![run("fallback")])]));
}

#[test]
fn leaving_a_repeat_leaves_nothing_else() {
    let block = || vec![set("m", string("A")), once(vec![Stmt::Break]), run_on("print", vec![var("m")])];
    let mut stmts = block();
    remove_dead_literal_markers(&mut stmts);
    assert_eq!(text(&stmts), text(&block()));
}

#[test]
fn a_label_before_a_return_is_resolved_and_others_stay() {
    let block = || {
        vec![
            when(var("a"), vec![goto("end")]),
            when(var("b"), vec![goto("other")]),
            run("f"),
            label("other"),
            run("g"),
            label("end"),
            Stmt::Return(vec![var("x")]),
        ]
    };
    let mut stmts = block();
    replace_return_label_gotos(&mut stmts);
    assert_eq!(
        text(&stmts),
        text(&[
            when(var("a"), vec![Stmt::Return(vec![var("x")])]),
            when(var("b"), vec![goto("other")]),
            run("f"),
            label("other"),
            run("g"),
            Stmt::Return(vec![var("x")]),
        ])
    );
}

#[test]
fn what_is_cut_off_goes_at_every_depth() {
    let mut stmts = vec![
        when(var("c"), vec![goto("L"), run("dropped"), run("dropped"), label("M"), run("kept")]),
        run("f"),
        label("L"),
        Stmt::Return(vec![]),
        run("dropped"),
    ];
    drop_unreachable(&mut stmts);
    assert_eq!(
        text(&stmts),
        text(&[
            when(var("c"), vec![goto("L"), label("M"), run("kept")]),
            run("f"),
            label("L"),
            Stmt::Return(vec![]),
        ])
    );
}

#[test]
fn a_condition_that_skips_nothing_is_still_evaluated() {
    let mut stmts = vec![
        when(Expr::Call(Box::new(var("f")), vec![]), vec![goto("L")]),
        label("L"),
        run("g"),
    ];
    recover_if_skip_gotos(&mut stmts);
    assert_eq!(text(&stmts), text(&[run("f"), run("g")]));

    let mut stmts = vec![when(var("c"), vec![goto("L")]), label("L"), run("g")];
    recover_if_skip_gotos(&mut stmts);
    assert_eq!(text(&stmts), text(&[run("g")]));
}

#[test]
fn a_loop_keeps_a_protected_load() {
    let block = || {
        vec![
            label("L"),
            set("v", Expr::Call(Box::new(var("next")), vec![])),
            when(var("v"), vec![run("f"), goto("L")]),
        ]
    };
    let mut stmts = block();
    recover_backward_loops(&mut stmts, &names(&["v"]));
    assert_eq!(text(&stmts), text(&block()));

    let recovered = text(&[Stmt::While { cond: Expr::Call(Box::new(var("next")), vec![]), body: vec![run("f")] }]);
    let mut stmts = block();
    recover_backward_loops(&mut stmts, &names(&["w"]));
    assert_eq!(text(&stmts), recovered);
    let mut stmts = block();
    recover_backward_goto_while(&mut stmts);
    assert_eq!(text(&stmts), recovered);
}
