//! The passes on small programs.
use luau_decompile::ast::{Expr, Stmt, TableField};
use luau_decompile::back_loops::{recover_backward_goto_while, recover_natural_loops, recover_top_test_while_gotos, recover_unstructured_backward_loops};
use luau_decompile::dead_stores::{dead_store_elim, remove_dead_pure_stores_after_last_read};
use luau_decompile::function_ends::{replace_loop_gotos_to_terminal_label_tail, replace_orphan_terminal_goto_with_return, replace_return_label_gotos, replace_terminal_label_gotos_with_return, replace_terminal_label_tail_gotos};
use luau_decompile::gates::recover_goto_into_if_gates;
use luau_decompile::inline::single_use_inline;
use luau_decompile::joins::{recover_branch_gotos_to_following_label, recover_gotos_to_later_else_label, recover_if_else_gotos, recover_if_join_gotos, recover_orphan_if_join_gotos};
use luau_decompile::labeled_bodies::{recover_duplicate_labeled_bodies, recover_duplicate_labeled_terminal_bodies, retarget_missing_gotos_to_next_label};
use luau_decompile::loop_exits::{recover_loop_bool_selector_gotos, recover_loop_find_breaks};
use luau_decompile::maps::TextMap;
use luau_decompile::markers::remove_dead_literal_markers;
use luau_decompile::names::NameSet;
use luau_decompile::numbers::number_texts;
use luau_decompile::orphans::{recover_nested_orphan_skip_gotos, recover_orphan_if_fallback_gotos, recover_orphan_skip_blocks, replace_orphan_gotos_with_terminal_continuation};
use luau_decompile::simplify::simplify_redundant_conditions;
use luau_decompile::skips::{recover_forward_label_skip_gotos, recover_guard_else_gotos, recover_if_skip_gotos, recover_missing_guard_skip_to_block_end_gotos, recover_missing_label_skip_to_block_end_gotos};
use luau_decompile::split::split_reused_registers;
use luau_decompile::sweeps::{drop_trailing_empty_return, drop_unreachable, merge_leading_while_break_guards, recover_loop_carried_call_updates, remove_redundant_gotos, remove_trailing_sibling_gotos, remove_unused_labels, simplify_repeat_return_guards};
use luau_decompile::tables::{fold_table_literals, inline_table_literal_fill_temps};
use luau_decompile::render;

/// The shortest spelling of the double that `text` denotes, where it denotes a finite one.
fn shortest(text: &str) -> Option<String> {
    let value: f64 = text.parse().ok()?;
    if !value.is_finite() {
        return None;
    }
    let candidate = value.to_string();
    match candidate.parse::<f64>() {
        Ok(back) if back.to_bits() == value.to_bits() => Some(candidate),
        _ => None,
    }
}

fn forms(texts: Vec<String>) -> TextMap {
    let mut known = TextMap::new();
    for text in texts {
        if let Some(short) = shortest(&text) {
            known = known.with(&text, &short);
        }
    }
    known
}

fn render_block(stmts: &[Stmt], indent: usize) -> String {
    render::render_block(stmts, indent, &forms(number_texts(stmts)))
}

#[test]
fn folds_fields_into_local_table_literals() {
    let mut stmts = vec![
        Stmt::Local {
            names: vec!["object".into()],
            values: vec![Expr::Table(vec![TableField::Named(
                "Camera".into(),
                Expr::Var("camera".into()),
            )])],
        },
        Stmt::Assign {
            targets: vec![Expr::Field(
                Box::new(Expr::Var("object".into())),
                "Looped".into(),
            )],
            values: vec![Expr::Binary(
                "or",
                Box::new(Expr::Var("looped".into())),
                Box::new(Expr::Bool(false)),
            )],
        },
        Stmt::Assign {
            targets: vec![Expr::Field(
                Box::new(Expr::Var("object".into())),
                "Speed".into(),
            )],
            values: vec![Expr::Binary(
                "or",
                Box::new(Expr::Var("speed".into())),
                Box::new(Expr::Num("1".into())),
            )],
        },
        Stmt::Return(vec![Expr::Var("object".into())]),
    ];

    fold_table_literals(&mut stmts);

    assert_eq!(stmts.len(), 2);
    let rendered = render_block(&stmts, 0);
    assert!(rendered.contains("Camera = camera"), "{rendered}");
    assert!(rendered.contains("Looped = looped or false"), "{rendered}");
    assert!(rendered.contains("Speed = speed or 1"), "{rendered}");
    assert!(!rendered.contains("object.Looped"), "{rendered}");
    assert!(!rendered.contains("object.Speed"), "{rendered}");
}

#[test]
fn inlines_table_literal_fill_temps() {
    let mut stmts = vec![
        Stmt::Local {
            names: vec!["parent".into()],
            values: vec![Expr::Table(Vec::new())],
        },
        Stmt::Local {
            names: vec!["tmp".into()],
            values: vec![Expr::Table(vec![TableField::Named(
                "ConstraintType".into(),
                Expr::Str("\"Hinge\"".into()),
            )])],
        },
        Stmt::Assign {
            targets: vec![Expr::Index(
                Box::new(Expr::Var("parent".into())),
                Box::new(Expr::Var("motor".into())),
            )],
            values: vec![Expr::Var("tmp".into())],
        },
        Stmt::Assign {
            targets: vec![Expr::Var("tmp".into())],
            values: vec![Expr::Table(Vec::new())],
        },
    ];

    inline_table_literal_fill_temps(&mut stmts);

    let rendered = render_block(&stmts, 0);
    assert!(
        rendered.contains("parent[motor] = {ConstraintType = \"Hinge\"}"),
        "{rendered}"
    );
    assert!(
        !rendered.contains("local tmp = {ConstraintType"),
        "{rendered}"
    );
}

#[test]
fn folds_pure_constructor_temps_into_table_literals() {
    let mut stmts = vec![
        Stmt::Local {
            names: vec!["palette".into()],
            values: vec![Expr::Table(Vec::new())],
        },
        Stmt::Local {
            names: vec!["color".into()],
            values: vec![Expr::Call(
                Box::new(Expr::Field(
                    Box::new(Expr::Var("Color3".into())),
                    "fromRGB".into(),
                )),
                vec![
                    Expr::Num("71".into()),
                    Expr::Num("184".into()),
                    Expr::Num("197".into()),
                ],
            )],
        },
        Stmt::Assign {
            targets: vec![Expr::Field(
                Box::new(Expr::Var("palette".into())),
                "Teal".into(),
            )],
            values: vec![Expr::Var("color".into())],
        },
        Stmt::Return(vec![Expr::Var("palette".into())]),
    ];

    single_use_inline(&mut stmts, &NameSet::new());
    fold_table_literals(&mut stmts);

    let rendered = render_block(&stmts, 0);
    assert!(
        rendered.contains("Teal = Color3.fromRGB(71, 184, 197)"),
        "{rendered}"
    );
    assert!(!rendered.contains("local color"), "{rendered}");
    assert!(!rendered.contains("palette.Teal"), "{rendered}");
}

#[test]
fn recovers_loop_carried_callback_update_before_nil_guard() {
    let mut stmts = vec![
        Stmt::If {
            cond: Expr::Binary(
                "~=",
                Box::new(Expr::Call(
                    Box::new(Expr::Var("callback".into())),
                    vec![Expr::Var("current".into())],
                )),
                Box::new(Expr::Nil),
            ),
            then_body: vec![Stmt::Continue],
            else_body: Vec::new(),
        },
        Stmt::Return(vec![Expr::Nil]),
    ];

    recover_loop_carried_call_updates(&mut stmts);

    let rendered = render_block(&stmts, 0);
    assert!(
        rendered.contains("current = callback(current)"),
        "{rendered}"
    );
    assert!(rendered.contains("if current == nil then"), "{rendered}");
    assert!(rendered.contains("return nil"), "{rendered}");
    assert!(!rendered.contains("if callback(current)"), "{rendered}");
}

#[test]
fn simplifies_repeat_return_guard_and_temp_limit() {
    let mut stmts = vec![
        Stmt::Repeat {
            body: vec![
                Stmt::Assign {
                    targets: vec![Expr::Var("tries".into())],
                    values: vec![Expr::Binary(
                        "+",
                        Box::new(Expr::Var("tries".into())),
                        Box::new(Expr::Num("1".into())),
                    )],
                },
                Stmt::If {
                    cond: Expr::Var("saved".into()),
                    then_body: vec![Stmt::Return(vec![
                        Expr::Var("saved".into()),
                        Expr::Var("lastError".into()),
                    ])],
                    else_body: Vec::new(),
                },
                Stmt::Assign {
                    targets: vec![Expr::Var("v8".into())],
                    values: vec![Expr::Num("3".into())],
                },
            ],
            cond: Expr::Binary(
                "<=",
                Box::new(Expr::Var("v8".into())),
                Box::new(Expr::Var("tries".into())),
            ),
        },
        Stmt::Return(vec![
            Expr::Var("saved".into()),
            Expr::Var("lastError".into()),
        ]),
    ];

    simplify_repeat_return_guards(&mut stmts);

    let rendered = render_block(&stmts, 0);
    assert!(rendered.contains("until saved or tries >= 3"), "{rendered}");
    assert!(!rendered.contains("v8 = 3"), "{rendered}");
    assert!(!rendered.contains("if saved then"), "{rendered}");
}

#[test]
fn simplifies_duplicate_nested_guards() {
    let mut stmts = vec![Stmt::If {
        cond: Expr::Unary("not ", Box::new(Expr::Var("value".into()))),
        then_body: vec![Stmt::If {
            cond: Expr::Unary("not ", Box::new(Expr::Var("value".into()))),
            then_body: vec![Stmt::Return(vec![Expr::Table(Vec::new())])],
            else_body: Vec::new(),
        }],
        else_body: Vec::new(),
    }];

    simplify_redundant_conditions(&mut stmts);

    let rendered = render_block(&stmts, 0);
    assert_eq!(
        rendered.matches("if not value then").count(),
        1,
        "{rendered}"
    );
    assert!(rendered.contains("return {}"), "{rendered}");
}

#[test]
fn simplifies_duplicate_pure_boolean_operands() {
    let mut stmts = vec![Stmt::While {
        cond: Expr::Binary(
            "and",
            Box::new(Expr::Binary(
                "and",
                Box::new(Expr::Unary("not ", Box::new(Expr::Var("track".into())))),
                Box::new(Expr::Unary("not ", Box::new(Expr::Var("track".into())))),
            )),
            Box::new(Expr::Field(
                Box::new(Expr::Var("model".into())),
                "Parent".into(),
            )),
        ),
        body: vec![Stmt::Call(Expr::Call(
            Box::new(Expr::Field(
                Box::new(Expr::Var("task".into())),
                "wait".into(),
            )),
            Vec::new(),
        ))],
    }];

    simplify_redundant_conditions(&mut stmts);

    let rendered = render_block(&stmts, 0);
    assert!(
        rendered.contains("while not track and model.Parent do"),
        "{rendered}"
    );
    assert!(!rendered.contains("not track and not track"), "{rendered}");
}

#[test]
fn keeps_loop_body_assignment_read_by_repeat_condition() {
    let mut stmts = vec![Stmt::Repeat {
        body: vec![
            Stmt::Assign {
                targets: vec![Expr::Var("saved".into())],
                values: vec![Expr::Var("ok".into())],
            },
            Stmt::If {
                cond: Expr::Unary("not ", Box::new(Expr::Var("saved".into()))),
                then_body: vec![Stmt::Call(Expr::Call(
                    Box::new(Expr::Field(
                        Box::new(Expr::Var("task".into())),
                        "wait".into(),
                    )),
                    Vec::new(),
                ))],
                else_body: Vec::new(),
            },
        ],
        cond: Expr::Binary(
            "or",
            Box::new(Expr::Var("saved".into())),
            Box::new(Expr::Binary(
                ">=",
                Box::new(Expr::Var("tries".into())),
                Box::new(Expr::Num("3".into())),
            )),
        ),
    }];

    single_use_inline(&mut stmts, &NameSet::new());
    dead_store_elim(&mut stmts, &NameSet::new());

    let rendered = render_block(&stmts, 0);
    assert!(rendered.contains("saved = ok"), "{rendered}");
    assert!(rendered.contains("if not saved then"), "{rendered}");
    assert!(rendered.contains("until saved or tries >= 3"), "{rendered}");
}

#[test]
fn removes_pure_store_after_final_read_in_block() {
    let mut stmts = vec![
        Stmt::GenericFor {
            vars: vec!["key".into(), "value".into()],
            exprs: vec![Expr::Call(
                Box::new(Expr::Var("pairs".into())),
                vec![Expr::Var("defaults".into())],
            )],
            body: vec![Stmt::Assign {
                targets: vec![Expr::Index(
                    Box::new(Expr::Var("config".into())),
                    Box::new(Expr::Var("key".into())),
                )],
                values: vec![Expr::Var("value".into())],
            }],
        },
        Stmt::Assign {
            targets: vec![Expr::Var("timeout".into())],
            values: vec![Expr::Call(
                Box::new(Expr::Field(
                    Box::new(Expr::Var("math".into())),
                    "clamp".into(),
                )),
                vec![
                    Expr::Var("timeout".into()),
                    Expr::Num("1".into()),
                    Expr::Num("60".into()),
                ],
            )],
        },
        Stmt::Assign {
            targets: vec![Expr::Var("key".into())],
            values: vec![Expr::Num("60".into())],
        },
        Stmt::Assign {
            targets: vec![Expr::Field(
                Box::new(Expr::Var("config".into())),
                "Timeout".into(),
            )],
            values: vec![Expr::Var("timeout".into())],
        },
    ];

    remove_dead_pure_stores_after_last_read(&mut stmts, &NameSet::new());

    let rendered = render_block(&stmts, 0);
    assert!(!rendered.contains("key = 60"), "{rendered}");
    assert!(rendered.contains("config.Timeout = timeout"), "{rendered}");
}

#[test]
fn keeps_pure_store_before_goto_after_last_local_read() {
    let mut stmts = vec![Stmt::If {
        cond: Expr::Var("bad".into()),
        then_body: vec![
            Stmt::Assign {
                targets: vec![Expr::Var("valid".into())],
                values: vec![Expr::Bool(false)],
            },
            Stmt::Goto("join".into()),
        ],
        else_body: Vec::new(),
    }];

    remove_dead_pure_stores_after_last_read(&mut stmts, &NameSet::new());

    let rendered = render_block(&stmts, 0);
    assert!(rendered.contains("valid = false"), "{rendered}");
    assert!(rendered.contains("goto join"), "{rendered}");
}

#[test]
fn does_not_inline_join_value_after_prior_goto() {
    let mut stmts = vec![
        Stmt::NumericFor {
            var: "i".into(),
            start: Expr::Num("1".into()),
            limit: Expr::Var("n".into()),
            step: None,
            body: vec![Stmt::If {
                cond: Expr::Var("bad".into()),
                then_body: vec![Stmt::Goto("join".into())],
                else_body: Vec::new(),
            }],
        },
        Stmt::Assign {
            targets: vec![Expr::Var("valid".into())],
            values: vec![Expr::Bool(true)],
        },
        Stmt::If {
            cond: Expr::Unary("not ", Box::new(Expr::Var("valid".into()))),
            then_body: vec![Stmt::Return(vec![Expr::Str("\"bad\"".into())])],
            else_body: Vec::new(),
        },
    ];

    single_use_inline(&mut stmts, &NameSet::new());

    let rendered = render_block(&stmts, 0);
    assert!(rendered.contains("valid = true"), "{rendered}");
    assert!(rendered.contains("if not valid then"), "{rendered}");
    assert!(!rendered.contains("if not true then"), "{rendered}");
}

#[test]
fn loop_bool_selector_gotos_become_breaks() {
    let mut stmts = vec![
        Stmt::NumericFor {
            var: "i".into(),
            start: Expr::Num("1".into()),
            limit: Expr::Var("len".into()),
            step: None,
            body: vec![Stmt::If {
                cond: Expr::Var("bad".into()),
                then_body: vec![
                    Stmt::Assign {
                        targets: vec![Expr::Var("valid".into())],
                        values: vec![Expr::Bool(false)],
                    },
                    Stmt::Goto("join".into()),
                ],
                else_body: Vec::new(),
            }],
        },
        Stmt::Assign {
            targets: vec![Expr::Var("valid".into())],
            values: vec![Expr::Bool(true)],
        },
        Stmt::If {
            cond: Expr::Unary("not ", Box::new(Expr::Bool(true))),
            then_body: vec![Stmt::Return(vec![Expr::Str("\"bad\"".into())])],
            else_body: Vec::new(),
        },
    ];

    recover_loop_bool_selector_gotos(&mut stmts);

    let rendered = render_block(&stmts, 0);
    assert!(rendered.contains("valid = true"), "{rendered}");
    assert!(rendered.contains("valid = false"), "{rendered}");
    assert!(rendered.contains("break"), "{rendered}");
    assert!(rendered.contains("if not valid then"), "{rendered}");
    assert!(!rendered.contains("goto"), "{rendered}");
    assert!(!rendered.contains("if not true then"), "{rendered}");
}

#[test]
fn loop_bool_assignment_gotos_become_breaks() {
    let mut stmts = vec![
        Stmt::NumericFor {
            var: "i".into(),
            start: Expr::Num("1".into()),
            limit: Expr::Var("len".into()),
            step: None,
            body: vec![Stmt::If {
                cond: Expr::Var("bad".into()),
                then_body: vec![
                    Stmt::Assign {
                        targets: vec![Expr::Var("valid".into())],
                        values: vec![Expr::Bool(false)],
                    },
                    Stmt::Goto("join".into()),
                ],
                else_body: Vec::new(),
            }],
        },
        Stmt::Assign {
            targets: vec![Expr::Var("valid".into())],
            values: vec![Expr::Bool(true)],
        },
        Stmt::If {
            cond: Expr::Unary("not ", Box::new(Expr::Var("valid".into()))),
            then_body: vec![Stmt::Return(vec![Expr::Str("\"bad\"".into())])],
            else_body: Vec::new(),
        },
    ];

    recover_loop_bool_selector_gotos(&mut stmts);

    let rendered = render_block(&stmts, 0);
    assert!(rendered.starts_with("valid = true"), "{rendered}");
    assert!(rendered.contains("valid = false"), "{rendered}");
    assert!(rendered.contains("break"), "{rendered}");
    assert!(rendered.contains("if not valid then"), "{rendered}");
    assert!(!rendered.contains("goto"), "{rendered}");
}

#[test]
fn loop_bool_assignment_false_default_rewrites_constant_guard() {
    let mut stmts = vec![
        Stmt::GenericFor {
            vars: vec!["i".into()],
            exprs: vec![Expr::Var("items".into())],
            body: vec![Stmt::If {
                cond: Expr::Var("missing".into()),
                then_body: vec![
                    Stmt::Assign {
                        targets: vec![Expr::Var("found".into())],
                        values: vec![Expr::Bool(true)],
                    },
                    Stmt::Goto("join".into()),
                ],
                else_body: Vec::new(),
            }],
        },
        Stmt::Assign {
            targets: vec![Expr::Var("found".into())],
            values: vec![Expr::Bool(false)],
        },
        Stmt::If {
            cond: Expr::Bool(false),
            then_body: vec![Stmt::Call(Expr::Call(
                Box::new(Expr::Var("useFound".into())),
                Vec::new(),
            ))],
            else_body: Vec::new(),
        },
    ];

    recover_loop_bool_selector_gotos(&mut stmts);

    let rendered = render_block(&stmts, 0);
    assert!(rendered.starts_with("found = false"), "{rendered}");
    assert!(rendered.contains("found = true"), "{rendered}");
    assert!(rendered.contains("break"), "{rendered}");
    assert!(rendered.contains("if found then"), "{rendered}");
    assert!(!rendered.contains("if false then"), "{rendered}");
    assert!(!rendered.contains("goto"), "{rendered}");
}

#[test]
fn loop_bool_guard_gotos_become_breaks() {
    let mut stmts = vec![
        Stmt::While {
            cond: Expr::Var("running".into()),
            body: vec![Stmt::If {
                cond: Expr::Var("hit".into()),
                then_body: vec![
                    Stmt::Assign {
                        targets: vec![Expr::Var("checked".into())],
                        values: vec![Expr::Bool(true)],
                    },
                    Stmt::Goto("join".into()),
                ],
                else_body: Vec::new(),
            }],
        },
        Stmt::If {
            cond: Expr::Unary("not ", Box::new(Expr::Var("checked".into()))),
            then_body: vec![Stmt::Call(Expr::Call(
                Box::new(Expr::Var("fallback".into())),
                Vec::new(),
            ))],
            else_body: Vec::new(),
        },
    ];

    recover_loop_bool_selector_gotos(&mut stmts);

    let rendered = render_block(&stmts, 0);
    assert!(rendered.contains("checked = true"), "{rendered}");
    assert!(rendered.contains("break"), "{rendered}");
    assert!(rendered.contains("if not checked then"), "{rendered}");
    assert!(!rendered.contains("goto"), "{rendered}");
}

#[test]
fn trailing_missing_loop_goto_is_removed() {
    let mut stmts = vec![Stmt::While {
        cond: Expr::Var("running".into()),
        body: vec![
            Stmt::Call(Expr::Call(Box::new(Expr::Var("step".into())), Vec::new())),
            Stmt::Goto("loop_head".into()),
        ],
    }];

    recover_loop_bool_selector_gotos(&mut stmts);

    let rendered = render_block(&stmts, 0);
    assert!(rendered.contains("step()"), "{rendered}");
    assert!(!rendered.contains("goto"), "{rendered}");
}

#[test]
fn tail_branch_missing_loop_gotos_are_removed() {
    let mut stmts = vec![Stmt::While {
        cond: Expr::Var("running".into()),
        body: vec![Stmt::If {
            cond: Expr::Var("left".into()),
            then_body: vec![
                Stmt::Assign {
                    targets: vec![Expr::Var("index".into())],
                    values: vec![Expr::Var("leftIndex".into())],
                },
                Stmt::Goto("loop_head".into()),
            ],
            else_body: vec![
                Stmt::Assign {
                    targets: vec![Expr::Var("index".into())],
                    values: vec![Expr::Var("rightIndex".into())],
                },
                Stmt::Goto("loop_head".into()),
            ],
        }],
    }];

    recover_loop_bool_selector_gotos(&mut stmts);

    let rendered = render_block(&stmts, 0);
    assert!(rendered.contains("index = leftIndex"), "{rendered}");
    assert!(rendered.contains("index = rightIndex"), "{rendered}");
    assert!(!rendered.contains("goto"), "{rendered}");
}

#[test]
fn terminal_label_gotos_become_returns() {
    let mut stmts = vec![
        Stmt::If {
            cond: Expr::Binary(
                "==",
                Box::new(Expr::Var("event".into())),
                Box::new(Expr::Str("\"RunTween\"".into())),
            ),
            then_body: vec![
                Stmt::Call(Expr::Call(Box::new(Expr::Var("run".into())), Vec::new())),
                Stmt::Goto("done".into()),
                Stmt::Call(Expr::Call(
                    Box::new(Expr::Var("unreachable".into())),
                    Vec::new(),
                )),
            ],
            else_body: Vec::new(),
        },
        Stmt::Call(Expr::Call(Box::new(Expr::Var("after".into())), Vec::new())),
        Stmt::Label("done".into()),
        Stmt::Return(Vec::new()),
    ];

    replace_terminal_label_gotos_with_return(&mut stmts);
    drop_unreachable(&mut stmts);
    remove_unused_labels(&mut stmts);

    let rendered = render_block(&stmts, 0);
    assert!(rendered.contains("return"), "{rendered}");
    assert!(!rendered.contains("goto"), "{rendered}");
    assert!(!rendered.contains("::done::"), "{rendered}");
    assert!(!rendered.contains("unreachable"), "{rendered}");
    assert!(rendered.contains("after()"), "{rendered}");
}

#[test]
fn terminal_label_tail_gotos_become_tail_returns() {
    let mut stmts = vec![
        Stmt::If {
            cond: Expr::Var("is_value".into()),
            then_body: vec![
                Stmt::Assign {
                    targets: vec![Expr::Var("next".into())],
                    values: vec![Expr::Var("value".into())],
                },
                Stmt::Goto("done".into()),
            ],
            else_body: Vec::new(),
        },
        Stmt::If {
            cond: Expr::Var("is_velocity".into()),
            then_body: vec![
                Stmt::Assign {
                    targets: vec![Expr::Var("next".into())],
                    values: vec![Expr::Var("velocity".into())],
                },
                Stmt::Goto("done".into()),
            ],
            else_body: Vec::new(),
        },
        Stmt::Assign {
            targets: vec![Expr::Var("next".into())],
            values: vec![Expr::Var("fallback".into())],
        },
        Stmt::Label("done".into()),
        Stmt::Assign {
            targets: vec![Expr::Var("current".into())],
            values: vec![Expr::Var("next".into())],
        },
    ];

    replace_terminal_label_tail_gotos(&mut stmts);
    remove_unused_labels(&mut stmts);

    let rendered = render_block(&stmts, 0);
    assert_eq!(rendered.matches("current = next").count(), 3, "{rendered}");
    assert_eq!(rendered.matches("return").count(), 2, "{rendered}");
    assert!(!rendered.contains("goto"), "{rendered}");
    assert!(!rendered.contains("::done::"), "{rendered}");
}

#[test]
fn loop_gotos_to_terminal_label_tail_become_tail_returns() {
    let mut stmts = vec![
        Stmt::While {
            cond: Expr::Bool(true),
            body: vec![
                Stmt::If {
                    cond: Expr::Var("finished".into()),
                    then_body: vec![Stmt::Goto("done".into())],
                    else_body: Vec::new(),
                },
                Stmt::Call(Expr::Call(Box::new(Expr::Var("step".into())), Vec::new())),
            ],
        },
        Stmt::Label("done".into()),
        Stmt::Call(Expr::Call(
            Box::new(Expr::Field(
                Box::new(Expr::Var("debug".into())),
                "profileend".into(),
            )),
            Vec::new(),
        )),
        Stmt::Return(vec![Expr::Var("result".into())]),
    ];

    replace_loop_gotos_to_terminal_label_tail(&mut stmts);
    remove_unused_labels(&mut stmts);

    let rendered = render_block(&stmts, 0);
    assert_eq!(
        rendered.matches("debug.profileend()").count(),
        2,
        "{rendered}"
    );
    assert!(rendered.contains("return result"), "{rendered}");
    assert!(!rendered.contains("goto"), "{rendered}");
    assert!(!rendered.contains("::done::"), "{rendered}");
}

#[test]
fn terminal_label_tail_rewrites_direct_gotos_before_removing_label() {
    let mut stmts = vec![
        Stmt::If {
            cond: Expr::Var("fast_path".into()),
            then_body: vec![
                Stmt::Assign {
                    targets: vec![Expr::Var("result".into())],
                    values: vec![Expr::Var("fast".into())],
                },
                Stmt::Goto("done".into()),
            ],
            else_body: Vec::new(),
        },
        Stmt::Assign {
            targets: vec![Expr::Var("result".into())],
            values: vec![Expr::Var("middle".into())],
        },
        Stmt::Goto("done".into()),
        Stmt::Assign {
            targets: vec![Expr::Var("result".into())],
            values: vec![Expr::Var("fallback".into())],
        },
        Stmt::Label("done".into()),
        Stmt::Assign {
            targets: vec![Expr::Var("out".into())],
            values: vec![Expr::Var("result".into())],
        },
    ];

    replace_terminal_label_tail_gotos(&mut stmts);
    remove_unused_labels(&mut stmts);

    let rendered = render_block(&stmts, 0);
    assert_eq!(rendered.matches("out = result").count(), 3, "{rendered}");
    assert!(!rendered.contains("goto done"), "{rendered}");
    assert!(!rendered.contains("::done::"), "{rendered}");
}

#[test]
fn orphan_gotos_to_terminal_continuation_are_duplicated() {
    let mut stmts = vec![
        Stmt::If {
            cond: Expr::MethodCall(
                Box::new(Expr::Var("candidate".into())),
                "IsA".into(),
                vec![Expr::Str("\"Sound\"".into())],
            ),
            then_body: vec![
                Stmt::Assign {
                    targets: vec![Expr::Var("sound".into())],
                    values: vec![Expr::Var("candidate".into())],
                },
                Stmt::Goto("done".into()),
            ],
            else_body: Vec::new(),
        },
        Stmt::Assign {
            targets: vec![Expr::Var("sound".into())],
            values: vec![Expr::MethodCall(
                Box::new(Expr::Var("candidate".into())),
                "FindFirstChildWhichIsA".into(),
                vec![Expr::Str("\"Sound\"".into())],
            )],
        },
        Stmt::If {
            cond: Expr::Binary(
                "==",
                Box::new(Expr::Var("sound".into())),
                Box::new(Expr::Nil),
            ),
            then_body: vec![Stmt::Return(vec![Expr::Nil])],
            else_body: Vec::new(),
        },
        Stmt::Return(vec![Expr::Var("sound".into())]),
    ];

    replace_orphan_gotos_with_terminal_continuation(&mut stmts);
    drop_unreachable(&mut stmts);

    let rendered = render_block(&stmts, 0);
    assert!(!rendered.contains("goto done"), "{rendered}");
    assert_eq!(rendered.matches("return sound").count(), 2, "{rendered}");
    assert!(rendered.contains("if sound == nil then"), "{rendered}");
}

#[test]
fn orphan_terminal_continuation_keeps_ambiguous_join_vars() {
    let mut stmts = vec![
        Stmt::If {
            cond: Expr::Var("use_a".into()),
            then_body: vec![
                Stmt::Assign {
                    targets: vec![Expr::Var("a".into())],
                    values: vec![Expr::Num("1".into())],
                },
                Stmt::Goto("done".into()),
            ],
            else_body: Vec::new(),
        },
        Stmt::If {
            cond: Expr::Var("use_b".into()),
            then_body: vec![
                Stmt::Assign {
                    targets: vec![Expr::Var("b".into())],
                    values: vec![Expr::Num("2".into())],
                },
                Stmt::Goto("done".into()),
            ],
            else_body: Vec::new(),
        },
        Stmt::Return(vec![Expr::Var("a".into())]),
    ];

    replace_orphan_gotos_with_terminal_continuation(&mut stmts);

    let rendered = render_block(&stmts, 0);
    assert!(rendered.contains("goto done"), "{rendered}");
}

#[test]
fn orphan_fallback_gotos_become_else_branch() {
    let mut stmts = vec![
        Stmt::If {
            cond: Expr::Var("cached".into()),
            then_body: vec![
                Stmt::Assign {
                    targets: vec![Expr::Var("value".into())],
                    values: vec![Expr::Var("cached".into())],
                },
                Stmt::Goto("joined".into()),
            ],
            else_body: Vec::new(),
        },
        Stmt::Local {
            names: vec!["computed".into()],
            values: vec![Expr::Call(
                Box::new(Expr::Var("compute".into())),
                Vec::new(),
            )],
        },
        Stmt::Assign {
            targets: vec![Expr::Var("value".into())],
            values: vec![Expr::Var("computed".into())],
        },
        Stmt::If {
            cond: Expr::Var("value".into()),
            then_body: vec![Stmt::Call(Expr::Call(
                Box::new(Expr::Var("use".into())),
                vec![Expr::Var("value".into())],
            ))],
            else_body: Vec::new(),
        },
    ];

    recover_orphan_if_fallback_gotos(&mut stmts);

    let rendered = render_block(&stmts, 0);
    assert!(rendered.contains("if cached then"), "{rendered}");
    assert!(
        rendered.contains("else\n\tlocal computed = compute()"),
        "{rendered}"
    );
    assert!(
        rendered.contains("if value then\n\tuse(value)\nend"),
        "{rendered}"
    );
    assert!(!rendered.contains("goto joined"), "{rendered}");
}

#[test]
fn orphan_skip_block_gotos_become_guarded_block() {
    let mut stmts = vec![
        Stmt::If {
            cond: Expr::Var("cursorFree".into()),
            then_body: vec![Stmt::Goto("joined".into())],
            else_body: Vec::new(),
        },
        Stmt::If {
            cond: Expr::Binary(
                "==",
                Box::new(Expr::Var("currentInput".into())),
                Box::new(Expr::Str("\"Touch\"".into())),
            ),
            then_body: vec![Stmt::Goto("joined".into())],
            else_body: Vec::new(),
        },
        Stmt::Assign {
            targets: vec![Expr::Var("mouseDelta".into())],
            values: vec![Expr::Call(
                Box::new(Expr::Field(
                    Box::new(Expr::Var("UserInputService".into())),
                    "GetMouseDelta".into(),
                )),
                Vec::new(),
            )],
        },
        Stmt::If {
            cond: Expr::Unary("not ", Box::new(Expr::Var("cursorFree".into()))),
            then_body: vec![Stmt::Assign {
                targets: vec![Expr::Var("mouseDelta".into())],
                values: vec![Expr::Binary(
                    "+",
                    Box::new(Expr::Var("mouseDelta".into())),
                    Box::new(Expr::Var("pendingDelta".into())),
                )],
            }],
            else_body: Vec::new(),
        },
        Stmt::Assign {
            targets: vec![Expr::Field(
                Box::new(Expr::Var("controller".into())),
                "PendingTouchLookDelta".into(),
            )],
            values: vec![Expr::Field(
                Box::new(Expr::Var("Vector2".into())),
                "zero".into(),
            )],
        },
        Stmt::Local {
            names: vec!["now".into()],
            values: vec![Expr::Call(Box::new(Expr::Var("tick".into())), Vec::new())],
        },
    ];

    recover_orphan_skip_blocks(&mut stmts);

    let rendered = render_block(&stmts, 0);
    assert!(
        rendered.contains("if not cursorFree and currentInput ~= \"Touch\" then"),
        "{rendered}"
    );
    assert!(
        rendered.contains("mouseDelta = UserInputService.GetMouseDelta()"),
        "{rendered}"
    );
    assert!(
        rendered.contains("controller.PendingTouchLookDelta = Vector2.zero"),
        "{rendered}"
    );
    assert!(rendered.contains("local now = tick()"), "{rendered}");
    assert!(!rendered.contains("goto joined"), "{rendered}");
}

#[test]
fn orphan_skip_block_stops_at_first_value_read() {
    let mut stmts = vec![
        Stmt::If {
            cond: Expr::Var("skip".into()),
            then_body: vec![Stmt::Goto("joined".into())],
            else_body: Vec::new(),
        },
        Stmt::Assign {
            targets: vec![Expr::Var("value".into())],
            values: vec![Expr::Call(
                Box::new(Expr::Var("compute".into())),
                Vec::new(),
            )],
        },
        Stmt::Call(Expr::Call(
            Box::new(Expr::Var("use".into())),
            vec![Expr::Var("value".into())],
        )),
    ];

    recover_orphan_skip_blocks(&mut stmts);

    let rendered = render_block(&stmts, 0);
    assert!(
        rendered.contains("if not skip then\n\tvalue = compute()\nend"),
        "{rendered}"
    );
    assert!(rendered.contains("use(value)"), "{rendered}");
    assert!(!rendered.contains("goto joined"), "{rendered}");
}

#[test]
fn nested_orphan_skip_goto_routes_following_block() {
    let mut stmts = vec![
        Stmt::If {
            cond: Expr::Var("hasDirectDelta".into()),
            then_body: vec![
                Stmt::Assign {
                    targets: vec![Expr::Var("opened".into())],
                    values: vec![Expr::Var("directDelta".into())],
                },
                Stmt::Goto("joined".into()),
            ],
            else_body: Vec::new(),
        },
        Stmt::Local {
            names: vec!["thumbstick".into()],
            values: vec![Expr::Field(
                Box::new(Expr::Var("self".into())),
                "LastThumbstickInput".into(),
            )],
        },
        Stmt::If {
            cond: Expr::Var("thumbstick".into()),
            then_body: vec![Stmt::Assign {
                targets: vec![Expr::Var("opened".into())],
                values: vec![Expr::Call(
                    Box::new(Expr::Var("fromThumbstick".into())),
                    vec![Expr::Var("thumbstick".into())],
                )],
            }],
            else_body: Vec::new(),
        },
        Stmt::If {
            cond: Expr::Var("opened".into()),
            then_body: vec![Stmt::Call(Expr::Call(
                Box::new(Expr::Var("apply".into())),
                vec![Expr::Var("opened".into())],
            ))],
            else_body: Vec::new(),
        },
    ];

    recover_nested_orphan_skip_gotos(&mut stmts);

    let rendered = render_block(&stmts, 0);
    assert!(rendered.contains("if hasDirectDelta then"), "{rendered}");
    assert!(
        rendered.contains("else\n\tthumbstick = self.LastThumbstickInput"),
        "{rendered}"
    );
    assert!(rendered.contains("apply(opened)"), "{rendered}");
    assert!(!rendered.contains("goto joined"), "{rendered}");
}

#[test]
fn return_only_labels_become_direct_returns() {
    let mut stmts = vec![
        Stmt::If {
            cond: Expr::Var("done".into()),
            then_body: vec![Stmt::Goto("exit".into())],
            else_body: Vec::new(),
        },
        Stmt::Call(Expr::Call(Box::new(Expr::Var("work".into())), Vec::new())),
        Stmt::If {
            cond: Expr::Var("failed".into()),
            then_body: vec![Stmt::Label("exit".into()), Stmt::Return(Vec::new())],
            else_body: Vec::new(),
        },
    ];

    replace_return_label_gotos(&mut stmts);

    let rendered = render_block(&stmts, 0);
    assert!(
        rendered.contains("if done then\n\treturn\nend"),
        "{rendered}"
    );
    assert!(!rendered.contains("goto exit"), "{rendered}");
    assert!(!rendered.contains("::exit::"), "{rendered}");
}

#[test]
fn return_only_labels_keep_conflicting_return_values() {
    let mut stmts = vec![
        Stmt::If {
            cond: Expr::Var("done".into()),
            then_body: vec![Stmt::Goto("exit".into())],
            else_body: Vec::new(),
        },
        Stmt::If {
            cond: Expr::Var("a".into()),
            then_body: vec![
                Stmt::Label("exit".into()),
                Stmt::Return(vec![Expr::Bool(true)]),
            ],
            else_body: Vec::new(),
        },
        Stmt::If {
            cond: Expr::Var("b".into()),
            then_body: vec![
                Stmt::Label("exit".into()),
                Stmt::Return(vec![Expr::Bool(false)]),
            ],
            else_body: Vec::new(),
        },
    ];

    replace_return_label_gotos(&mut stmts);

    let rendered = render_block(&stmts, 0);
    assert!(rendered.contains("goto exit"), "{rendered}");
    assert!(rendered.contains("::exit::"), "{rendered}");
}

#[test]
fn orphan_terminal_goto_becomes_return_and_enables_guard_cleanup() {
    let mut stmts = vec![
        Stmt::If {
            cond: Expr::Binary(
                "~=",
                Box::new(Expr::Var("name".into())),
                Box::new(Expr::Str("\"damper\"".into())),
            ),
            then_body: vec![Stmt::If {
                cond: Expr::Binary(
                    "~=",
                    Box::new(Expr::Var("name".into())),
                    Box::new(Expr::Str("\"d\"".into())),
                ),
                then_body: vec![Stmt::Goto("missing_end".into())],
                else_body: Vec::new(),
            }],
            else_body: Vec::new(),
        },
        Stmt::Assign {
            targets: vec![Expr::Var("value".into())],
            values: vec![Expr::Var("damper".into())],
        },
        Stmt::Goto("missing_tail".into()),
        Stmt::Return(Vec::new()),
    ];

    replace_orphan_terminal_goto_with_return(&mut stmts);
    recover_orphan_if_join_gotos(&mut stmts);

    let rendered = render_block(&stmts, 0);
    assert!(rendered.contains("if name == \"damper\" or name == \"d\" then"));
    assert!(rendered.contains("return"), "{rendered}");
    assert!(!rendered.contains("goto"), "{rendered}");
}

#[test]
fn removes_dead_literal_markers_but_keeps_read_strings() {
    let mut stmts = vec![
        Stmt::Assign {
            targets: vec![Expr::Var("marker".into())],
            values: vec![Expr::Str("\"Model\"".into())],
        },
        Stmt::If {
            cond: Expr::Var("ok".into()),
            then_body: vec![Stmt::Call(Expr::Call(
                Box::new(Expr::Var("touch".into())),
                Vec::new(),
            ))],
            else_body: Vec::new(),
        },
        Stmt::Assign {
            targets: vec![Expr::Var("marker".into())],
            values: vec![Expr::Call(
                Box::new(Expr::Field(
                    Box::new(Expr::Var("Instance".into())),
                    "new".into(),
                )),
                vec![Expr::Str("\"Weld\"".into())],
            )],
        },
        Stmt::Assign {
            targets: vec![Expr::Var("kind".into())],
            values: vec![Expr::Str("\"BasePart\"".into())],
        },
        Stmt::If {
            cond: Expr::Binary(
                "==",
                Box::new(Expr::Var("kind".into())),
                Box::new(Expr::Str("\"BasePart\"".into())),
            ),
            then_body: Vec::new(),
            else_body: Vec::new(),
        },
    ];

    remove_dead_literal_markers(&mut stmts);

    let rendered = render_block(&stmts, 0);
    assert!(!rendered.contains("marker = \"Model\""), "{rendered}");
    assert!(rendered.contains("kind = \"BasePart\""), "{rendered}");
}

#[test]
fn removes_dead_literal_marker_before_nested_overwrite() {
    let mut stmts = vec![
        Stmt::If {
            cond: Expr::Unary("not ", Box::new(Expr::Var("primaryPart".into()))),
            then_body: vec![Stmt::Assign {
                targets: vec![Expr::Var("cframe".into())],
                values: vec![Expr::Str("\"Middle\"".into())],
            }],
            else_body: Vec::new(),
        },
        Stmt::If {
            cond: Expr::Unary("not ", Box::new(Expr::Var("useMotor".into()))),
            then_body: vec![
                Stmt::Assign {
                    targets: vec![Expr::Var("cframe".into())],
                    values: vec![Expr::Call(
                        Box::new(Expr::Field(
                            Box::new(Expr::Var("CFrame".into())),
                            "new".into(),
                        )),
                        Vec::new(),
                    )],
                },
                Stmt::Assign {
                    targets: vec![Expr::Field(Box::new(Expr::Var("weld".into())), "C0".into())],
                    values: vec![Expr::Var("cframe".into())],
                },
                Stmt::Return(vec![Expr::Var("weld".into())]),
            ],
            else_body: Vec::new(),
        },
        Stmt::Return(vec![Expr::Var("motor".into())]),
    ];

    remove_dead_literal_markers(&mut stmts);

    let rendered = render_block(&stmts, 0);
    assert!(!rendered.contains("cframe = \"Middle\""), "{rendered}");
    assert!(rendered.contains("cframe = CFrame.new()"), "{rendered}");
}

#[test]
fn keeps_copy_when_overwrite_reads_same_name() {
    let mut stmts = vec![
        Stmt::Local {
            names: vec!["fn".into()],
            values: vec![Expr::Var("fn".into())],
        },
        Stmt::Assign {
            targets: vec![Expr::Var("fn".into()), Expr::Var("result".into())],
            values: vec![Expr::Call(
                Box::new(Expr::Var("fn".into())),
                vec![Expr::Num("1".into())],
            )],
        },
        Stmt::Return(vec![Expr::Var("fn".into()), Expr::Var("result".into())]),
    ];

    dead_store_elim(&mut stmts, &NameSet::new());

    let rendered = render_block(&stmts, 0);
    assert!(rendered.contains("local fn = fn"), "{rendered}");
    assert!(rendered.contains("fn, result = fn(1)"), "{rendered}");
}

#[test]
fn drops_unreachable_after_goto_until_next_label() {
    let mut stmts = vec![
        Stmt::If {
            cond: Expr::Var("cond".into()),
            then_body: vec![
                Stmt::Assign {
                    targets: vec![Expr::Var("value".into())],
                    values: vec![Expr::Num("1".into())],
                },
                Stmt::Goto("done".into()),
                Stmt::Assign {
                    targets: vec![Expr::Var("value".into())],
                    values: vec![Expr::Num("2".into())],
                },
            ],
            else_body: Vec::new(),
        },
        Stmt::Label("done".into()),
        Stmt::Return(vec![Expr::Var("value".into())]),
    ];

    drop_unreachable(&mut stmts);

    let rendered = render_block(&stmts, 0);
    assert!(rendered.contains("goto done"), "{rendered}");
    assert!(rendered.contains("::done::"), "{rendered}");
    assert!(rendered.contains("value = 1"), "{rendered}");
    assert!(!rendered.contains("value = 2"), "{rendered}");
}

#[test]
fn drops_only_function_body_trailing_empty_return() {
    let mut stmts = vec![
        Stmt::If {
            cond: Expr::Var("ok".into()),
            then_body: vec![Stmt::Return(Vec::new())],
            else_body: Vec::new(),
        },
        Stmt::Return(Vec::new()),
    ];

    drop_trailing_empty_return(&mut stmts);

    let rendered = render_block(&stmts, 0);
    assert!(rendered.contains("return"), "{rendered}");
    assert!(rendered.trim_end().ends_with("end"), "{rendered}");
}

#[test]
fn recovers_nested_if_skip_goto() {
    let mut stmts = vec![
        Stmt::If {
            cond: Expr::Binary(
                "==",
                Box::new(Expr::Var("kind".into())),
                Box::new(Expr::Str("\"Vector3\"".into())),
            ),
            then_body: vec![Stmt::If {
                cond: Expr::Var("point".into()),
                then_body: vec![Stmt::Goto("done".into())],
                else_body: Vec::new(),
            }],
            else_body: Vec::new(),
        },
        Stmt::Assign {
            targets: vec![Expr::Var("value".into())],
            values: vec![Expr::Field(
                Box::new(Expr::Var("point".into())),
                "Position".into(),
            )],
        },
        Stmt::Label("done".into()),
        Stmt::Return(vec![Expr::Var("value".into())]),
    ];

    recover_if_skip_gotos(&mut stmts);

    let rendered = render_block(&stmts, 0);
    assert!(
        rendered.contains("if kind ~= \"Vector3\" or not point then"),
        "{rendered}"
    );
    assert!(rendered.contains("value = point.Position"), "{rendered}");
    assert!(!rendered.contains("goto"), "{rendered}");
    assert!(!rendered.contains("::done::"), "{rendered}");
}

#[test]
fn recovers_loop_guard_else_goto() {
    let mut stmts = vec![
        Stmt::If {
            cond: Expr::Binary(
                "~=",
                Box::new(Expr::Var("kind".into())),
                Box::new(Expr::Str("\"Vector3\"".into())),
            ),
            then_body: vec![
                Stmt::If {
                    cond: Expr::Binary(
                        "~=",
                        Box::new(Expr::Var("kind".into())),
                        Box::new(Expr::Str("\"Instance\"".into())),
                    ),
                    then_body: vec![Stmt::Goto("bad".into())],
                    else_body: Vec::new(),
                },
                Stmt::If {
                    cond: Expr::Unary("not ", Box::new(Expr::Var("isBasePart".into()))),
                    then_body: vec![Stmt::Goto("bad".into())],
                    else_body: Vec::new(),
                },
            ],
            else_body: Vec::new(),
        },
        Stmt::Call(Expr::MethodCall(
            Box::new(Expr::Var("bezier".into())),
            "AddBezierPoint".into(),
            vec![Expr::Var("point".into())],
        )),
        Stmt::Continue,
        Stmt::Label("bad".into()),
        Stmt::Call(Expr::Call(
            Box::new(Expr::Var("error".into())),
            vec![Expr::Str("\"bad point\"".into())],
        )),
    ];

    recover_guard_else_gotos(&mut stmts);

    let rendered = render_block(&stmts, 0);
    assert!(
        rendered
            .contains("if kind == \"Vector3\" or (kind == \"Instance\" and isBasePart) then"),
        "{rendered}"
    );
    assert!(
        rendered.contains("bezier:AddBezierPoint(point)"),
        "{rendered}"
    );
    assert!(
        rendered.contains("else\n\terror(\"bad point\")"),
        "{rendered}"
    );
    assert!(!rendered.contains("goto"), "{rendered}");
    assert!(!rendered.contains("::bad::"), "{rendered}");
    assert!(!rendered.contains("continue"), "{rendered}");
}

#[test]
fn recovers_goto_into_labeled_if_gate() {
    let mut stmts = vec![
        Stmt::If {
            cond: Expr::Var("isInstance".into()),
            then_body: vec![Stmt::If {
                cond: Expr::Var("isBasePart".into()),
                then_body: vec![Stmt::Goto("accept".into())],
                else_body: Vec::new(),
            }],
            else_body: Vec::new(),
        },
        Stmt::If {
            cond: Expr::Var("isVector".into()),
            then_body: vec![
                Stmt::Label("accept".into()),
                Stmt::Call(Expr::MethodCall(
                    Box::new(Expr::Var("bezier".into())),
                    "AddBezierPoint".into(),
                    vec![Expr::Var("point".into())],
                )),
            ],
            else_body: Vec::new(),
        },
        Stmt::Call(Expr::Call(
            Box::new(Expr::Var("error".into())),
            vec![Expr::Str("\"bad point\"".into())],
        )),
    ];

    recover_goto_into_if_gates(&mut stmts);

    let rendered = render_block(&stmts, 0);
    assert!(
        rendered.contains("if (isInstance and isBasePart) or isVector then"),
        "{rendered}"
    );
    assert!(
        rendered.contains("bezier:AddBezierPoint(point)"),
        "{rendered}"
    );
    assert!(rendered.contains("error(\"bad point\")"), "{rendered}");
    assert!(!rendered.contains("goto"), "{rendered}");
    assert!(!rendered.contains("::accept::"), "{rendered}");
}

#[test]
fn recovers_goto_into_labeled_if_gate_with_unrelated_backedge() {
    let mut stmts = vec![
        Stmt::Label("loop_start".into()),
        Stmt::If {
            cond: Expr::Var("missing_a".into()),
            then_body: vec![Stmt::Goto("retry".into())],
            else_body: Vec::new(),
        },
        Stmt::If {
            cond: Expr::Var("missing_b".into()),
            then_body: vec![
                Stmt::Label("retry".into()),
                Stmt::Call(Expr::Call(Box::new(Expr::Var("wait".into())), Vec::new())),
                Stmt::Goto("loop_start".into()),
            ],
            else_body: Vec::new(),
        },
    ];

    recover_goto_into_if_gates(&mut stmts);

    let rendered = render_block(&stmts, 0);
    assert!(
        rendered.contains("if missing_a or missing_b then"),
        "{rendered}"
    );
    assert!(rendered.contains("goto loop_start"), "{rendered}");
    assert!(!rendered.contains("goto retry"), "{rendered}");
    assert!(!rendered.contains("::retry::"), "{rendered}");
}

#[test]
fn recovers_goto_into_later_labeled_if_gate() {
    let mut stmts = vec![
        Stmt::Assign {
            targets: vec![Expr::Var("allowed".into())],
            values: vec![Expr::Field(
                Box::new(Expr::Var("item".into())),
                "IsMolotov".into(),
            )],
        },
        Stmt::If {
            cond: Expr::Unary("not ", Box::new(Expr::Var("allowed".into()))),
            then_body: vec![Stmt::Goto("accepted".into())],
            else_body: Vec::new(),
        },
        Stmt::Assign {
            targets: vec![Expr::Var("allowed".into())],
            values: vec![Expr::Field(
                Box::new(Expr::Var("item".into())),
                "Lit".into(),
            )],
        },
        Stmt::If {
            cond: Expr::Unary("not ", Box::new(Expr::Var("allowed".into()))),
            then_body: vec![
                Stmt::Assign {
                    targets: vec![Expr::Var("allowed".into())],
                    values: vec![Expr::Field(
                        Box::new(Expr::Var("item".into())),
                        "Thrown".into(),
                    )],
                },
                Stmt::If {
                    cond: Expr::Unary("not ", Box::new(Expr::Var("allowed".into()))),
                    then_body: vec![
                        Stmt::Label("accepted".into()),
                        Stmt::Call(Expr::Call(Box::new(Expr::Var("equip".into())), Vec::new())),
                    ],
                    else_body: Vec::new(),
                },
            ],
            else_body: Vec::new(),
        },
    ];

    recover_goto_into_if_gates(&mut stmts);

    let rendered = render_block(&stmts, 0);
    assert!(
        rendered.contains("if not allowed then\n\tequip()"),
        "{rendered}"
    );
    assert!(
        rendered.contains("else\n\tallowed = item.Lit"),
        "{rendered}"
    );
    assert_eq!(rendered.matches("equip()").count(), 2, "{rendered}");
    assert!(!rendered.contains("goto accepted"), "{rendered}");
    assert!(!rendered.contains("::accepted::"), "{rendered}");
}

#[test]
fn later_labeled_if_gate_allows_reused_label_names_outside_region() {
    let mut stmts = vec![
        Stmt::If {
            cond: Expr::Var("first".into()),
            then_body: vec![Stmt::Goto("L6".into())],
            else_body: Vec::new(),
        },
        Stmt::Assign {
            targets: vec![Expr::Var("first".into())],
            values: vec![Expr::Var("fallback".into())],
        },
        Stmt::If {
            cond: Expr::Var("fallback".into()),
            then_body: vec![
                Stmt::Label("L6".into()),
                Stmt::Call(Expr::Call(
                    Box::new(Expr::Var("useFirst".into())),
                    Vec::new(),
                )),
            ],
            else_body: Vec::new(),
        },
        Stmt::If {
            cond: Expr::Var("second".into()),
            then_body: vec![Stmt::Goto("L6".into())],
            else_body: Vec::new(),
        },
        Stmt::Assign {
            targets: vec![Expr::Var("second".into())],
            values: vec![Expr::Var("fallback2".into())],
        },
        Stmt::If {
            cond: Expr::Var("fallback2".into()),
            then_body: vec![
                Stmt::Label("L6".into()),
                Stmt::Call(Expr::Call(
                    Box::new(Expr::Var("useSecond".into())),
                    Vec::new(),
                )),
            ],
            else_body: Vec::new(),
        },
    ];

    recover_goto_into_if_gates(&mut stmts);

    let rendered = render_block(&stmts, 0);
    assert!(rendered.contains("useFirst()"), "{rendered}");
    assert!(rendered.contains("useSecond()"), "{rendered}");
    assert!(!rendered.contains("goto L6"), "{rendered}");
    assert!(!rendered.contains("::L6::"), "{rendered}");
}

#[test]
fn nested_goto_to_later_label_routes_fallthrough_prefix() {
    let mut stmts = vec![
        Stmt::If {
            cond: Expr::Var("upright".into()),
            then_body: vec![
                Stmt::Assign {
                    targets: vec![Expr::Var("allowed".into())],
                    values: vec![Expr::Field(
                        Box::new(Expr::Var("item".into())),
                        "IsDynamite".into(),
                    )],
                },
                Stmt::If {
                    cond: Expr::Unary("not ", Box::new(Expr::Var("allowed".into()))),
                    then_body: vec![
                        Stmt::Assign {
                            targets: vec![Expr::Var("allowed".into())],
                            values: vec![Expr::Field(
                                Box::new(Expr::Var("item".into())),
                                "IsMolotov".into(),
                            )],
                        },
                        Stmt::If {
                            cond: Expr::Unary("not ", Box::new(Expr::Var("allowed".into()))),
                            then_body: vec![Stmt::Goto("accepted".into())],
                            else_body: Vec::new(),
                        },
                    ],
                    else_body: Vec::new(),
                },
            ],
            else_body: Vec::new(),
        },
        Stmt::Assign {
            targets: vec![Expr::Var("allowed".into())],
            values: vec![Expr::Field(
                Box::new(Expr::Var("item".into())),
                "Lit".into(),
            )],
        },
        Stmt::If {
            cond: Expr::Unary("not ", Box::new(Expr::Var("allowed".into()))),
            then_body: vec![
                Stmt::Assign {
                    targets: vec![Expr::Var("allowed".into())],
                    values: vec![Expr::Field(
                        Box::new(Expr::Var("item".into())),
                        "Thrown".into(),
                    )],
                },
                Stmt::If {
                    cond: Expr::Unary("not ", Box::new(Expr::Var("allowed".into()))),
                    then_body: vec![
                        Stmt::Label("accepted".into()),
                        Stmt::Call(Expr::Call(Box::new(Expr::Var("equip".into())), Vec::new())),
                    ],
                    else_body: Vec::new(),
                },
            ],
            else_body: Vec::new(),
        },
    ];

    recover_goto_into_if_gates(&mut stmts);

    let rendered = render_block(&stmts, 0);
    assert!(rendered.contains("equip()"), "{rendered}");
    assert!(!rendered.contains("goto accepted"), "{rendered}");
    assert!(!rendered.contains("::accepted::"), "{rendered}");
}

#[test]
fn recovers_goto_into_labeled_elseif_chain() {
    let mut stmts = vec![
        Stmt::If {
            cond: Expr::Var("skip".into()),
            then_body: vec![Stmt::Goto("fallback".into())],
            else_body: Vec::new(),
        },
        Stmt::If {
            cond: Expr::Var("isSprinting".into()),
            then_body: vec![
                Stmt::Label("fallback".into()),
                Stmt::Assign {
                    targets: vec![Expr::Var("canCrouch".into())],
                    values: vec![Expr::Bool(false)],
                },
            ],
            else_body: vec![Stmt::If {
                cond: Expr::Var("isSwimming".into()),
                then_body: vec![
                    Stmt::Label("fallback".into()),
                    Stmt::Assign {
                        targets: vec![Expr::Var("canCrouch".into())],
                        values: vec![Expr::Bool(false)],
                    },
                ],
                else_body: vec![Stmt::Assign {
                    targets: vec![Expr::Var("canCrouch".into())],
                    values: vec![Expr::Bool(true)],
                }],
            }],
        },
    ];

    recover_goto_into_if_gates(&mut stmts);

    let rendered = render_block(&stmts, 0);
    assert!(
        rendered.contains("if skip or isSprinting then"),
        "{rendered}"
    );
    assert!(rendered.contains("elseif isSwimming then"), "{rendered}");
    assert!(!rendered.contains("goto fallback"), "{rendered}");
    assert!(!rendered.contains("::fallback::"), "{rendered}");
}

#[test]
fn recovers_goto_into_later_duplicated_labeled_elseif_chain() {
    let mut stmts = vec![
        Stmt::If {
            cond: Expr::Var("skipSetup".into()),
            then_body: vec![Stmt::Goto("blocked".into())],
            else_body: Vec::new(),
        },
        Stmt::Assign {
            targets: vec![Expr::Var("sprinting".into())],
            values: vec![Expr::Field(
                Box::new(Expr::Var("self".into())),
                "IsSprinting".into(),
            )],
        },
        Stmt::If {
            cond: Expr::Var("sprinting".into()),
            then_body: vec![
                Stmt::Label("blocked".into()),
                Stmt::Assign {
                    targets: vec![Expr::Var("canCrouch".into())],
                    values: vec![Expr::Bool(false)],
                },
            ],
            else_body: vec![Stmt::If {
                cond: Expr::Unary("not ", Box::new(Expr::Var("upright".into()))),
                then_body: vec![
                    Stmt::Label("blocked".into()),
                    Stmt::Assign {
                        targets: vec![Expr::Var("canCrouch".into())],
                        values: vec![Expr::Bool(false)],
                    },
                ],
                else_body: vec![Stmt::Assign {
                    targets: vec![Expr::Var("canCrouch".into())],
                    values: vec![Expr::Bool(true)],
                }],
            }],
        },
    ];

    recover_goto_into_if_gates(&mut stmts);

    let rendered = render_block(&stmts, 0);
    assert!(rendered.contains("if skipSetup then"), "{rendered}");
    assert!(rendered.contains("canCrouch = false"), "{rendered}");
    assert!(
        rendered.contains("else\n\tsprinting = self.IsSprinting"),
        "{rendered}"
    );
    assert!(rendered.contains("elseif not upright then"), "{rendered}");
    assert!(!rendered.contains("goto blocked"), "{rendered}");
    assert!(!rendered.contains("::blocked::"), "{rendered}");
}

#[test]
fn recovers_gotos_to_later_else_label() {
    let mut stmts = vec![
        Stmt::If {
            cond: Expr::Binary(
                "<=",
                Box::new(Expr::Var("magnitude".into())),
                Box::new(Expr::Num("0".into())),
            ),
            then_body: vec![
                Stmt::If {
                    cond: Expr::Unary("not ", Box::new(Expr::Var("swimming".into()))),
                    then_body: vec![Stmt::Goto("reset".into())],
                    else_body: Vec::new(),
                },
                Stmt::Assign {
                    targets: vec![Expr::Var("magnitude".into())],
                    values: vec![Expr::Field(
                        Box::new(Expr::Var("velocity".into())),
                        "Y".into(),
                    )],
                },
                Stmt::If {
                    cond: Expr::Binary(
                        "<=",
                        Box::new(Expr::Var("magnitude".into())),
                        Box::new(Expr::Num("2".into())),
                    ),
                    then_body: vec![Stmt::Goto("reset".into())],
                    else_body: Vec::new(),
                },
                Stmt::Assign {
                    targets: vec![Expr::Var("deg".into())],
                    values: vec![Expr::Num("2".into())],
                },
            ],
            else_body: Vec::new(),
        },
        Stmt::Assign {
            targets: vec![Expr::Var("sitting".into())],
            values: vec![Expr::Field(
                Box::new(Expr::Var("self".into())),
                "Sitting".into(),
            )],
        },
        Stmt::If {
            cond: Expr::Unary("not ", Box::new(Expr::Var("sitting".into()))),
            then_body: vec![Stmt::Call(Expr::Call(
                Box::new(Expr::Var("move".into())),
                Vec::new(),
            ))],
            else_body: vec![
                Stmt::Label("reset".into()),
                Stmt::Assign {
                    targets: vec![Expr::Var("lastMoveAngle".into())],
                    values: vec![Expr::Nil],
                },
            ],
        },
    ];

    recover_gotos_to_later_else_label(&mut stmts);

    let rendered = render_block(&stmts, 0);
    assert!(rendered.contains("lastMoveAngle = nil"), "{rendered}");
    assert!(rendered.contains("move()"), "{rendered}");
    assert!(!rendered.contains("goto reset"), "{rendered}");
    assert!(!rendered.contains("::reset::"), "{rendered}");
}

#[test]
fn retargets_missing_goto_to_next_sibling_label() {
    let mut stmts = vec![
        Stmt::If {
            cond: Expr::Var("skip".into()),
            then_body: vec![Stmt::Goto("missing".into())],
            else_body: Vec::new(),
        },
        Stmt::Call(Expr::Call(
            Box::new(Expr::Var("fallback".into())),
            Vec::new(),
        )),
        Stmt::Label("join".into()),
        Stmt::Call(Expr::Call(Box::new(Expr::Var("tail".into())), Vec::new())),
    ];

    retarget_missing_gotos_to_next_label(&mut stmts);

    let rendered = render_block(&stmts, 0);
    assert!(rendered.contains("goto join"), "{rendered}");
    assert!(!rendered.contains("goto missing"), "{rendered}");
}

#[test]
fn recovers_multistmt_orphan_skip_gotos() {
    let mut stmts = vec![
        Stmt::If {
            cond: Expr::Var("first".into()),
            then_body: vec![
                Stmt::Call(Expr::Call(Box::new(Expr::Var("setup".into())), Vec::new())),
                Stmt::If {
                    cond: Expr::Var("done".into()),
                    then_body: vec![Stmt::Goto("join".into())],
                    else_body: Vec::new(),
                },
            ],
            else_body: Vec::new(),
        },
        Stmt::Call(Expr::Call(
            Box::new(Expr::Var("fallback".into())),
            Vec::new(),
        )),
        Stmt::If {
            cond: Expr::Var("done".into()),
            then_body: vec![Stmt::Goto("join".into())],
            else_body: Vec::new(),
        },
        Stmt::Call(Expr::Call(Box::new(Expr::Var("tail".into())), Vec::new())),
    ];

    recover_nested_orphan_skip_gotos(&mut stmts);

    let rendered = render_block(&stmts, 0);
    assert!(rendered.contains("setup()"), "{rendered}");
    assert!(rendered.contains("fallback()"), "{rendered}");
    assert!(rendered.contains("tail()"), "{rendered}");
    assert!(!rendered.contains("goto join"), "{rendered}");
}

#[test]
fn multistmt_orphan_skip_includes_fallback_assignment() {
    let mut stmts = vec![
        Stmt::If {
            cond: Expr::Var("fromConfig".into()),
            then_body: vec![
                Stmt::Assign {
                    targets: vec![Expr::Var("text".into())],
                    values: vec![Expr::Field(
                        Box::new(Expr::Var("config".into())),
                        "Display".into(),
                    )],
                },
                Stmt::Goto("join".into()),
            ],
            else_body: Vec::new(),
        },
        Stmt::If {
            cond: Expr::Var("fromItem".into()),
            then_body: vec![
                Stmt::Assign {
                    targets: vec![Expr::Var("text".into())],
                    values: vec![Expr::Field(
                        Box::new(Expr::Var("item".into())),
                        "Display".into(),
                    )],
                },
                Stmt::Goto("join".into()),
            ],
            else_body: Vec::new(),
        },
        Stmt::Assign {
            targets: vec![Expr::Var("text".into())],
            values: vec![Expr::Field(
                Box::new(Expr::Var("item".into())),
                "Type".into(),
            )],
        },
        Stmt::Call(Expr::Call(Box::new(Expr::Var("tail".into())), Vec::new())),
    ];

    recover_nested_orphan_skip_gotos(&mut stmts);

    let rendered = render_block(&stmts, 0);
    assert!(rendered.contains("text = item.Type"), "{rendered}");
    assert!(rendered.contains("tail()"), "{rendered}");
    assert!(!rendered.contains("goto join"), "{rendered}");
}

#[test]
fn loop_find_goto_becomes_break_with_default_before_loop() {
    let mut stmts = vec![
        Stmt::GenericFor {
            vars: vec!["i".into(), "item".into()],
            exprs: vec![Expr::Var("items".into())],
            body: vec![
                Stmt::If {
                    cond: Expr::Binary(
                        "~=",
                        Box::new(Expr::Field(Box::new(Expr::Var("item".into())), "id".into())),
                        Box::new(Expr::Var("wanted".into())),
                    ),
                    then_body: vec![Stmt::Continue],
                    else_body: Vec::new(),
                },
                Stmt::Assign {
                    targets: vec![Expr::Var("found".into())],
                    values: vec![Expr::Var("item".into())],
                },
                Stmt::Goto("found_join".into()),
            ],
        },
        Stmt::Assign {
            targets: vec![Expr::Var("found".into())],
            values: vec![Expr::Nil],
        },
        Stmt::If {
            cond: Expr::Unary("not ", Box::new(Expr::Var("found".into()))),
            then_body: vec![Stmt::Return(Vec::new())],
            else_body: Vec::new(),
        },
    ];

    recover_loop_find_breaks(&mut stmts);

    let rendered = render_block(&stmts, 0);
    assert!(rendered.starts_with("found = nil"), "{rendered}");
    assert!(rendered.contains("break"), "{rendered}");
    assert!(rendered.contains("if not found then"), "{rendered}");
    assert!(!rendered.contains("goto found_join"), "{rendered}");
}

#[test]
fn loop_find_labeled_join_moves_default_before_loop() {
    let mut stmts = vec![
        Stmt::GenericFor {
            vars: vec!["i".into(), "item".into()],
            exprs: vec![Expr::Var("items".into())],
            body: vec![
                Stmt::If {
                    cond: Expr::Binary(
                        "~=",
                        Box::new(Expr::Field(
                            Box::new(Expr::Var("item".into())),
                            "Name".into(),
                        )),
                        Box::new(Expr::Str("\"Fruit Magnet\"".into())),
                    ),
                    then_body: vec![Stmt::Continue],
                    else_body: Vec::new(),
                },
                Stmt::Assign {
                    targets: vec![Expr::Var("range".into())],
                    values: vec![Expr::Binary(
                        "or",
                        Box::new(Expr::Field(
                            Box::new(Expr::Var("item".into())),
                            "Range".into(),
                        )),
                        Box::new(Expr::Num("63".into())),
                    )],
                },
                Stmt::Goto("join".into()),
            ],
        },
        Stmt::Assign {
            targets: vec![Expr::Var("range".into())],
            values: vec![Expr::Num("63".into())],
        },
        Stmt::Label("join".into()),
        Stmt::Call(Expr::Call(
            Box::new(Expr::Var("useRange".into())),
            Vec::new(),
        )),
    ];

    recover_loop_find_breaks(&mut stmts);
    remove_unused_labels(&mut stmts);

    let rendered = render_block(&stmts, 0);
    assert!(rendered.starts_with("range = 63"), "{rendered}");
    assert!(rendered.contains("break"), "{rendered}");
    assert!(rendered.contains("useRange()"), "{rendered}");
    assert!(!rendered.contains("goto"), "{rendered}");
    assert!(!rendered.contains("::join::"), "{rendered}");
}

#[test]
fn loop_find_labeled_join_moves_pure_fallback_block_before_loop() {
    let mut stmts = vec![
        Stmt::GenericFor {
            vars: vec!["i".into(), "entry".into()],
            exprs: vec![Expr::Var("buckets".into())],
            body: vec![
                Stmt::If {
                    cond: Expr::Binary(
                        ">=",
                        Box::new(Expr::Var("amount".into())),
                        Box::new(Expr::Field(
                            Box::new(Expr::Var("entry".into())),
                            "Max".into(),
                        )),
                    ),
                    then_body: vec![Stmt::Continue],
                    else_body: Vec::new(),
                },
                Stmt::Assign {
                    targets: vec![Expr::Var("name".into())],
                    values: vec![Expr::Field(
                        Box::new(Expr::Var("entry".into())),
                        "Name".into(),
                    )],
                },
                Stmt::Goto("join".into()),
            ],
        },
        Stmt::Local {
            names: vec!["last".into()],
            values: vec![Expr::Var("buckets".into())],
        },
        Stmt::Local {
            names: vec!["count".into()],
            values: vec![Expr::Unary("#", Box::new(Expr::Var("last".into())))],
        },
        Stmt::Assign {
            targets: vec![Expr::Var("name".into())],
            values: vec![Expr::Field(
                Box::new(Expr::Index(
                    Box::new(Expr::Var("last".into())),
                    Box::new(Expr::Var("count".into())),
                )),
                "Name".into(),
            )],
        },
        Stmt::Label("join".into()),
        Stmt::Call(Expr::Call(
            Box::new(Expr::Var("useName".into())),
            Vec::new(),
        )),
    ];

    recover_loop_find_breaks(&mut stmts);
    remove_unused_labels(&mut stmts);

    let rendered = render_block(&stmts, 0);
    assert!(rendered.starts_with("local last = buckets"), "{rendered}");
    assert!(rendered.contains("break"), "{rendered}");
    assert!(rendered.contains("useName()"), "{rendered}");
    assert!(!rendered.contains("goto"), "{rendered}");
    assert!(!rendered.contains("::join::"), "{rendered}");
}

#[test]
fn forward_label_skip_gotos_wrap_short_region() {
    let mut stmts = vec![
        Stmt::If {
            cond: Expr::Unary(
                "not ",
                Box::new(Expr::Call(
                    Box::new(Expr::Var("isMouse".into())),
                    Vec::new(),
                )),
            ),
            then_body: vec![Stmt::If {
                cond: Expr::Binary(
                    "~=",
                    Box::new(Expr::Var("kind".into())),
                    Box::new(Expr::Var("Keyboard".into())),
                ),
                then_body: vec![Stmt::Goto("touch".into())],
                else_body: Vec::new(),
            }],
            else_body: Vec::new(),
        },
        Stmt::If {
            cond: Expr::Var("debounced".into()),
            then_body: vec![Stmt::Return(Vec::new())],
            else_body: Vec::new(),
        },
        Stmt::Label("touch".into()),
        Stmt::If {
            cond: Expr::Var("isTouch".into()),
            then_body: vec![Stmt::Assign {
                targets: vec![Expr::Var("device".into())],
                values: vec![Expr::Str("\"PC\"".into())],
            }],
            else_body: Vec::new(),
        },
    ];

    recover_forward_label_skip_gotos(&mut stmts);
    remove_unused_labels(&mut stmts);

    let rendered = render_block(&stmts, 0);
    assert!(rendered.contains("repeat"), "{rendered}");
    assert!(rendered.contains("break"), "{rendered}");
    assert!(rendered.contains("if isTouch then"), "{rendered}");
    assert!(!rendered.contains("goto"), "{rendered}");
    assert!(!rendered.contains("::touch::"), "{rendered}");
}

#[test]
fn forward_label_skip_gotos_wrap_multiple_guards() {
    let mut stmts = vec![
        Stmt::If {
            cond: Expr::Unary("not ", Box::new(Expr::Var("ready".into()))),
            then_body: vec![Stmt::Goto("done".into())],
            else_body: Vec::new(),
        },
        Stmt::Assign {
            targets: vec![Expr::Var("elapsed".into())],
            values: vec![Expr::Call(Box::new(Expr::Var("tick".into())), Vec::new())],
        },
        Stmt::If {
            cond: Expr::Var("blocked".into()),
            then_body: vec![Stmt::Goto("done".into())],
            else_body: Vec::new(),
        },
        Stmt::If {
            cond: Expr::Binary(
                "<",
                Box::new(Expr::Var("elapsed".into())),
                Box::new(Expr::Var("duration".into())),
            ),
            then_body: vec![Stmt::Goto("done".into())],
            else_body: Vec::new(),
        },
        Stmt::Call(Expr::Call(
            Box::new(Expr::Var("advance".into())),
            Vec::new(),
        )),
        Stmt::Label("done".into()),
        Stmt::Assign {
            targets: vec![Expr::Var("holding".into())],
            values: vec![Expr::Bool(true)],
        },
    ];

    recover_forward_label_skip_gotos(&mut stmts);
    remove_unused_labels(&mut stmts);

    let rendered = render_block(&stmts, 0);
    assert!(rendered.contains("repeat"), "{rendered}");
    assert_eq!(rendered.matches("break").count(), 3, "{rendered}");
    assert!(rendered.contains("holding = true"), "{rendered}");
    assert!(!rendered.contains("goto"), "{rendered}");
    assert!(!rendered.contains("::done::"), "{rendered}");
}

#[test]
fn missing_label_skip_to_block_end_wraps_suffix() {
    let mut stmts = vec![
        Stmt::If {
            cond: Expr::Unary("not ", Box::new(Expr::Var("active".into()))),
            then_body: vec![
                Stmt::Assign {
                    targets: vec![Expr::Var("state".into())],
                    values: vec![Expr::Str("\"CHARGING\"".into())],
                },
                Stmt::Goto("done".into()),
            ],
            else_body: Vec::new(),
        },
        Stmt::If {
            cond: Expr::Unary("not ", Box::new(Expr::Var("target".into()))),
            then_body: vec![
                Stmt::Assign {
                    targets: vec![Expr::Var("state".into())],
                    values: vec![Expr::Str("\"CHARGING\"".into())],
                },
                Stmt::Goto("done".into()),
            ],
            else_body: Vec::new(),
        },
        Stmt::If {
            cond: Expr::Var("root".into()),
            then_body: vec![Stmt::Assign {
                targets: vec![Expr::Var("state".into())],
                values: vec![Expr::Str("\"CHARGING\"".into())],
            }],
            else_body: vec![Stmt::Return(Vec::new())],
        },
    ];

    recover_missing_label_skip_to_block_end_gotos(&mut stmts);

    let rendered = render_block(&stmts, 0);
    assert!(rendered.contains("repeat"), "{rendered}");
    assert_eq!(rendered.matches("break").count(), 2, "{rendered}");
    assert!(rendered.contains("if root then"), "{rendered}");
    assert!(!rendered.contains("goto"), "{rendered}");
}

#[test]
fn missing_guard_skip_to_block_end_inverts_tail_with_break() {
    let mut stmts = vec![
        Stmt::If {
            cond: Expr::Unary("not ", Box::new(Expr::Var("hasTool".into()))),
            then_body: vec![Stmt::If {
                cond: Expr::Call(Box::new(Expr::Var("insidePlot".into())), Vec::new()),
                then_body: vec![Stmt::Goto("done".into())],
                else_body: Vec::new(),
            }],
            else_body: Vec::new(),
        },
        Stmt::If {
            cond: Expr::Var("cancelled".into()),
            then_body: vec![Stmt::Break],
            else_body: Vec::new(),
        },
        Stmt::Call(Expr::Call(
            Box::new(Expr::Var("createArrow".into())),
            Vec::new(),
        )),
    ];

    recover_missing_guard_skip_to_block_end_gotos(&mut stmts);

    let rendered = render_block(&stmts, 0);
    assert!(rendered.contains("if "), "{rendered}");
    assert!(rendered.contains("break"), "{rendered}");
    assert!(rendered.contains("createArrow()"), "{rendered}");
    assert!(!rendered.contains("goto"), "{rendered}");
}

#[test]
fn duplicate_labeled_terminal_body_replaces_goto() {
    let terminal_body = vec![
        Stmt::Call(Expr::Call(
            Box::new(Expr::Field(
                Box::new(Expr::Var("prompt".into())),
                "Connect".into(),
            )),
            Vec::new(),
        )),
        Stmt::Return(Vec::new()),
    ];
    let mut stmts = vec![
        Stmt::If {
            cond: Expr::Unary("not ", Box::new(Expr::Var("humanoid".into()))),
            then_body: {
                let mut body = vec![Stmt::Label("setup".into())];
                body.extend(terminal_body.clone());
                body
            },
            else_body: Vec::new(),
        },
        Stmt::If {
            cond: Expr::Unary("not ", Box::new(Expr::Var("animator".into()))),
            then_body: {
                let mut body = vec![Stmt::Label("setup".into())];
                body.extend(terminal_body.clone());
                body
            },
            else_body: Vec::new(),
        },
        Stmt::Assign {
            targets: vec![Expr::Var("track".into())],
            values: vec![Expr::Call(
                Box::new(Expr::Var("loadAnimation".into())),
                Vec::new(),
            )],
        },
        Stmt::Goto("setup".into()),
    ];

    recover_duplicate_labeled_terminal_bodies(&mut stmts);
    remove_unused_labels(&mut stmts);

    let rendered = render_block(&stmts, 0);
    assert!(rendered.contains("track = loadAnimation()"), "{rendered}");
    assert_eq!(rendered.matches("return").count(), 3, "{rendered}");
    assert!(!rendered.contains("goto"), "{rendered}");
    assert!(!rendered.contains("::setup::"), "{rendered}");
}

#[test]
fn duplicate_labeled_nonterminal_body_replaces_goto() {
    let shared_body = vec![
        Stmt::If {
            cond: Expr::Var("touchInput".into()),
            then_body: vec![Stmt::Return(Vec::new())],
            else_body: Vec::new(),
        },
        Stmt::Call(Expr::Call(
            Box::new(Expr::Field(
                Box::new(Expr::Var("handler".into())),
                "Run".into(),
            )),
            Vec::new(),
        )),
    ];
    let mut stmts = vec![
        Stmt::If {
            cond: Expr::Unary("not ", Box::new(Expr::Var("mouseInput".into()))),
            then_body: {
                let mut body = vec![Stmt::Label("fallback".into())];
                body.extend(shared_body.clone());
                body
            },
            else_body: Vec::new(),
        },
        Stmt::If {
            cond: Expr::Unary("not ", Box::new(Expr::Var("permitted".into()))),
            then_body: {
                let mut body = vec![Stmt::Label("fallback".into())];
                body.extend(shared_body.clone());
                body
            },
            else_body: Vec::new(),
        },
        Stmt::Call(Expr::Call(Box::new(Expr::Var("commit".into())), Vec::new())),
        Stmt::Goto("fallback".into()),
    ];

    recover_duplicate_labeled_bodies(&mut stmts);
    remove_unused_labels(&mut stmts);

    let rendered = render_block(&stmts, 0);
    assert!(rendered.contains("commit()"), "{rendered}");
    assert_eq!(rendered.matches("handler.Run()").count(), 3, "{rendered}");
    assert!(!rendered.contains("goto"), "{rendered}");
    assert!(!rendered.contains("::fallback::"), "{rendered}");
}

#[test]
fn recovers_goto_into_nested_labeled_if_gate() {
    let mut stmts = vec![
        Stmt::If {
            cond: Expr::Var("reuseTrack".into()),
            then_body: vec![Stmt::Goto("sync".into())],
            else_body: Vec::new(),
        },
        Stmt::If {
            cond: Expr::Var("oppositeTrack".into()),
            then_body: vec![Stmt::If {
                cond: Expr::Var("samePair".into()),
                then_body: vec![
                    Stmt::Label("sync".into()),
                    Stmt::Call(Expr::Call(
                        Box::new(Expr::Var("syncTracks".into())),
                        Vec::new(),
                    )),
                ],
                else_body: Vec::new(),
            }],
            else_body: Vec::new(),
        },
    ];

    recover_goto_into_if_gates(&mut stmts);

    let rendered = render_block(&stmts, 0);
    assert!(
        rendered.contains("if reuseTrack or oppositeTrack then"),
        "{rendered}"
    );
    assert!(
        rendered.contains("if reuseTrack or samePair then"),
        "{rendered}"
    );
    assert!(!rendered.contains("goto sync"), "{rendered}");
    assert!(!rendered.contains("::sync::"), "{rendered}");
}

#[test]
fn recovers_top_test_while_goto() {
    let mut stmts = vec![
        Stmt::Local {
            names: vec!["total".into()],
            values: vec![Expr::Num("0".into())],
        },
        Stmt::Label("loop".into()),
        Stmt::If {
            cond: Expr::Binary(
                "<",
                Box::new(Expr::Var("total".into())),
                Box::new(Expr::Var("limit".into())),
            ),
            then_body: vec![
                Stmt::Assign {
                    targets: vec![Expr::Var("total".into())],
                    values: vec![Expr::Binary(
                        "+",
                        Box::new(Expr::Var("total".into())),
                        Box::new(Expr::Num("1".into())),
                    )],
                },
                Stmt::Goto("loop".into()),
            ],
            else_body: Vec::new(),
        },
        Stmt::Return(vec![Expr::Var("total".into())]),
    ];

    recover_top_test_while_gotos(&mut stmts);

    let rendered = render_block(&stmts, 0);
    assert!(rendered.contains("while total < limit do"), "{rendered}");
    assert!(rendered.contains("total += 1"), "{rendered}");
    assert!(!rendered.contains("goto"), "{rendered}");
    assert!(!rendered.contains("::loop::"), "{rendered}");
}

#[test]
fn recovers_nested_top_test_while_goto() {
    let mut stmts = vec![
        Stmt::Label("L0".into()),
        Stmt::If {
            cond: Expr::Binary(
                "<",
                Box::new(Expr::Var("distance".into())),
                Box::new(Expr::Var("magnitude".into())),
            ),
            then_body: vec![Stmt::If {
                cond: Expr::Binary(
                    "<=",
                    Box::new(Expr::Var("total".into())),
                    Box::new(Expr::Var("limit".into())),
                ),
                then_body: vec![
                    Stmt::Assign {
                        targets: vec![Expr::Var("total".into())],
                        values: vec![Expr::Binary(
                            "+",
                            Box::new(Expr::Var("total".into())),
                            Box::new(Expr::Num("1".into())),
                        )],
                    },
                    Stmt::Call(Expr::MethodCall(
                        Box::new(Expr::Var("solver".into())),
                        "Step".into(),
                        vec![Expr::Var("target".into())],
                    )),
                    Stmt::Goto("L0".into()),
                ],
                else_body: Vec::new(),
            }],
            else_body: Vec::new(),
        },
    ];

    recover_top_test_while_gotos(&mut stmts);

    let rendered = render_block(&stmts, 0);
    assert!(
        rendered.contains("while distance < magnitude and total <= limit do"),
        "{rendered}"
    );
    assert!(rendered.contains("solver:Step(target)"), "{rendered}");
    assert!(!rendered.contains("goto"), "{rendered}");
    assert!(!rendered.contains("::L0::"), "{rendered}");
}

#[test]
fn keeps_label_with_multiple_incoming_gotos() {
    let mut stmts = vec![
        Stmt::If {
            cond: Expr::Var("restart".into()),
            then_body: vec![Stmt::Goto("L0".into())],
            else_body: Vec::new(),
        },
        Stmt::Label("L0".into()),
        Stmt::If {
            cond: Expr::Var("running".into()),
            then_body: vec![Stmt::Goto("L0".into())],
            else_body: Vec::new(),
        },
    ];

    recover_top_test_while_gotos(&mut stmts);

    let rendered = render_block(&stmts, 0);
    assert!(rendered.contains("::L0::"), "{rendered}");
    assert_eq!(rendered.matches("goto L0").count(), 2, "{rendered}");
}

#[test]
fn recovers_if_join_goto_as_else_branch() {
    let mut stmts = vec![
        Stmt::If {
            cond: Expr::Var("has_canvas_size".into()),
            then_body: vec![
                Stmt::Assign {
                    targets: vec![Expr::Field(
                        Box::new(Expr::Var("surfaceGui".into())),
                        "CanvasSize".into(),
                    )],
                    values: vec![Expr::Var("canvasSize".into())],
                },
                Stmt::Goto("join".into()),
            ],
            else_body: Vec::new(),
        },
        Stmt::Assign {
            targets: vec![Expr::Field(
                Box::new(Expr::Var("surfaceGui".into())),
                "CanvasSize".into(),
            )],
            values: vec![Expr::Call(
                Box::new(Expr::Field(
                    Box::new(Expr::Var("Vector2".into())),
                    "new".into(),
                )),
                vec![Expr::Var("x".into()), Expr::Var("y".into())],
            )],
        },
        Stmt::Label("join".into()),
        Stmt::Return(vec![Expr::Var("surfaceGui".into())]),
    ];

    recover_if_join_gotos(&mut stmts);
    remove_unused_labels(&mut stmts);

    let rendered = render_block(&stmts, 0);
    assert!(rendered.contains("else"), "{rendered}");
    assert!(rendered.contains("Vector2.new(x, y)"), "{rendered}");
    assert!(!rendered.contains("goto"), "{rendered}");
    assert!(!rendered.contains("::"), "{rendered}");
}

#[test]
fn branch_gotos_to_following_label_become_repeat_breaks() {
    let mut stmts = vec![
        Stmt::If {
            cond: Expr::Var("enabled".into()),
            then_body: vec![
                Stmt::Call(Expr::Call(Box::new(Expr::Var("start".into())), Vec::new())),
                Stmt::If {
                    cond: Expr::Var("done".into()),
                    then_body: vec![Stmt::Goto("joined".into())],
                    else_body: Vec::new(),
                },
                Stmt::Call(Expr::Call(Box::new(Expr::Var("finish".into())), Vec::new())),
                Stmt::Goto("joined".into()),
            ],
            else_body: vec![Stmt::Call(Expr::Call(
                Box::new(Expr::Var("fallback".into())),
                Vec::new(),
            ))],
        },
        Stmt::Label("joined".into()),
        Stmt::Call(Expr::Call(Box::new(Expr::Var("after".into())), Vec::new())),
    ];

    recover_branch_gotos_to_following_label(&mut stmts);

    let rendered = render_block(&stmts, 0);
    assert!(rendered.contains("repeat"), "{rendered}");
    assert!(rendered.contains("until true"), "{rendered}");
    assert!(rendered.contains("break"), "{rendered}");
    assert!(rendered.contains("after()"), "{rendered}");
    assert!(!rendered.contains("goto joined"), "{rendered}");
    assert!(!rendered.contains("::joined::"), "{rendered}");
}

#[test]
fn recovers_short_orphan_if_join_tail() {
    let mut stmts = vec![
        Stmt::If {
            cond: Expr::Var("is_model".into()),
            then_body: vec![Stmt::If {
                cond: Expr::Var("primary_part".into()),
                then_body: vec![
                    Stmt::Assign {
                        targets: vec![Expr::Var("base_part".into())],
                        values: vec![Expr::Var("primary_part".into())],
                    },
                    Stmt::Goto("missing_join".into()),
                ],
                else_body: Vec::new(),
            }],
            else_body: Vec::new(),
        },
        Stmt::Assign {
            targets: vec![Expr::Var("base_part".into())],
            values: vec![Expr::MethodCall(
                Box::new(Expr::Var("instance".into())),
                "FindFirstChildWhichIsA".into(),
                vec![Expr::Str("\"BasePart\"".into()), Expr::Bool(true)],
            )],
        },
    ];

    recover_orphan_if_join_gotos(&mut stmts);

    let rendered = render_block(&stmts, 0);
    assert!(rendered.contains("else"), "{rendered}");
    assert!(rendered.contains("base_part = primary_part"), "{rendered}");
    assert!(
        rendered.contains("base_part = instance:FindFirstChildWhichIsA"),
        "{rendered}"
    );
    assert!(!rendered.contains("goto"), "{rendered}");
}

#[test]
fn leaves_long_orphan_if_join_tail() {
    let mut stmts = vec![Stmt::If {
        cond: Expr::Var("accepted".into()),
        then_body: vec![Stmt::Goto("missing_join".into())],
        else_body: Vec::new(),
    }];
    for i in 0..9 {
        stmts.push(Stmt::Assign {
            targets: vec![Expr::Var(format!("v{i}"))],
            values: vec![Expr::Num(i.to_string())],
        });
    }
    stmts.push(Stmt::Goto("other".into()));

    recover_orphan_if_join_gotos(&mut stmts);

    let rendered = render_block(&stmts, 0);
    assert!(rendered.contains("goto missing_join"), "{rendered}");
}

#[test]
fn recovers_orphan_skip_to_terminal_tail() {
    let mut stmts = vec![
        Stmt::If {
            cond: Expr::Binary(
                "~=",
                Box::new(Expr::Var("name".into())),
                Box::new(Expr::Str("\"acceleration\"".into())),
            ),
            then_body: vec![Stmt::If {
                cond: Expr::Binary(
                    "~=",
                    Box::new(Expr::Var("name".into())),
                    Box::new(Expr::Str("\"a\"".into())),
                ),
                then_body: vec![Stmt::Goto("missing_end".into())],
                else_body: Vec::new(),
            }],
            else_body: Vec::new(),
        },
        Stmt::Assign {
            targets: vec![Expr::Var("value".into())],
            values: vec![Expr::Call(
                Box::new(Expr::Var("compute".into())),
                Vec::new(),
            )],
        },
        Stmt::Return(vec![Expr::Var("value".into())]),
    ];

    recover_orphan_if_join_gotos(&mut stmts);

    let rendered = render_block(&stmts, 0);
    assert!(
        rendered.contains("if name == \"acceleration\" or name == \"a\" then"),
        "{rendered}"
    );
    assert!(rendered.contains("return value"), "{rendered}");
    assert!(!rendered.contains("goto"), "{rendered}");
}

#[test]
fn leaves_orphan_skip_tail_with_fallback_control_flow() {
    let mut stmts = vec![Stmt::If {
        cond: Expr::Var("skip".into()),
        then_body: vec![Stmt::Goto("missing_end".into())],
        else_body: Vec::new(),
    }];
    for i in 0..9 {
        stmts.push(Stmt::Assign {
            targets: vec![Expr::Var("value".into())],
            values: vec![Expr::Num(i.to_string())],
        });
    }
    stmts.push(Stmt::Goto("other".into()));

    recover_orphan_if_join_gotos(&mut stmts);

    let rendered = render_block(&stmts, 0);
    assert!(rendered.contains("goto missing_end"), "{rendered}");
}

#[test]
fn merges_leading_while_break_guard() {
    let mut stmts = vec![Stmt::While {
        cond: Expr::Binary(
            "<",
            Box::new(Expr::Var("distance".into())),
            Box::new(Expr::Var("magnitude".into())),
        ),
        body: vec![
            Stmt::If {
                cond: Expr::Binary(
                    ">",
                    Box::new(Expr::Var("total".into())),
                    Box::new(Expr::Var("limit".into())),
                ),
                then_body: vec![Stmt::Break],
                else_body: Vec::new(),
            },
            Stmt::Assign {
                targets: vec![Expr::Var("total".into())],
                values: vec![Expr::Binary(
                    "+",
                    Box::new(Expr::Var("total".into())),
                    Box::new(Expr::Num("1".into())),
                )],
            },
        ],
    }];

    merge_leading_while_break_guards(&mut stmts);

    let rendered = render_block(&stmts, 0);
    assert!(
        rendered.contains("while distance < magnitude and total <= limit do"),
        "{rendered}"
    );
    assert!(!rendered.contains("break"), "{rendered}");
    assert!(rendered.contains("total += 1"), "{rendered}");
}

#[test]
fn keeps_nonleading_while_break_guard() {
    let mut stmts = vec![Stmt::While {
        cond: Expr::Var("running".into()),
        body: vec![
            Stmt::Call(Expr::Call(Box::new(Expr::Var("step".into())), Vec::new())),
            Stmt::If {
                cond: Expr::Var("done".into()),
                then_body: vec![Stmt::Break],
                else_body: Vec::new(),
            },
        ],
    }];

    merge_leading_while_break_guards(&mut stmts);

    let rendered = render_block(&stmts, 0);
    assert!(rendered.contains("while running do"), "{rendered}");
    assert!(rendered.contains("if done then"), "{rendered}");
    assert!(rendered.contains("break"), "{rendered}");
}

#[test]
fn removes_redundant_goto_adjacent_to_label() {
    let mut stmts = vec![
        Stmt::Call(Expr::Call(
            Box::new(Expr::Var("print".into())),
            vec![Expr::Str("\"hello\"".into())],
        )),
        Stmt::Goto("L0".into()),
        Stmt::Comment("some comment".into()),
        Stmt::Label("L0".into()),
        Stmt::Call(Expr::Call(
            Box::new(Expr::Var("print".into())),
            vec![Expr::Str("\"world\"".into())],
        )),
    ];
    remove_redundant_gotos(&mut stmts);
    let rendered = render_block(&stmts, 0);
    assert!(!rendered.contains("goto L0"), "{rendered}");
    assert!(rendered.contains("::L0::"), "{rendered}");
}

#[test]
fn removes_trailing_sibling_gotos_in_if() {
    let mut stmts = vec![
        Stmt::If {
            cond: Expr::Var("enabled".into()),
            then_body: vec![
                Stmt::Call(Expr::Call(Box::new(Expr::Var("print".into())), Vec::new())),
                Stmt::Goto("L1".into()),
            ],
            else_body: vec![
                Stmt::Call(Expr::Call(Box::new(Expr::Var("warn".into())), Vec::new())),
                Stmt::Goto("L1".into()),
            ],
        },
        Stmt::Label("L1".into()),
    ];
    remove_trailing_sibling_gotos(&mut stmts);
    let rendered = render_block(&stmts, 0);
    assert!(!rendered.contains("goto L1"), "{rendered}");
    assert!(rendered.contains("::L1::"), "{rendered}");
}

#[test]
fn removes_unused_labels_recursively() {
    let mut stmts = vec![
        Stmt::Label("Unused".into()),
        Stmt::Call(Expr::Call(Box::new(Expr::Var("print".into())), Vec::new())),
        Stmt::Label("Used".into()),
        Stmt::If {
            cond: Expr::Var("cond".into()),
            then_body: vec![Stmt::Goto("Used".into())],
            else_body: Vec::new(),
        },
    ];
    remove_unused_labels(&mut stmts);
    let rendered = render_block(&stmts, 0);
    assert!(!rendered.contains("::Unused::"), "{rendered}");
    assert!(rendered.contains("::Used::"), "{rendered}");
}

#[test]
fn recovers_if_else_from_gotos() {
    let mut stmts = vec![
        Stmt::If {
            cond: Expr::Var("enabled".into()),
            then_body: vec![Stmt::Goto("L_else".into())],
            else_body: Vec::new(),
        },
        Stmt::Call(Expr::Call(
            Box::new(Expr::Var("print".into())),
            vec![Expr::Str("\"then\"".into())],
        )),
        Stmt::Goto("L_end".into()),
        Stmt::Label("L_else".into()),
        Stmt::Call(Expr::Call(
            Box::new(Expr::Var("print".into())),
            vec![Expr::Str("\"else\"".into())],
        )),
        Stmt::Label("L_end".into()),
    ];
    recover_if_else_gotos(&mut stmts);
    remove_unused_labels(&mut stmts);
    let rendered = render_block(&stmts, 0);
    assert!(rendered.contains("if not enabled then"), "{rendered}");
    assert!(rendered.contains("print(\"then\")"), "{rendered}");
    assert!(rendered.contains("else"), "{rendered}");
    assert!(rendered.contains("print(\"else\")"), "{rendered}");
    assert!(!rendered.contains("goto"), "{rendered}");
    assert!(!rendered.contains("::L_else::"), "{rendered}");
    assert!(!rendered.contains("::L_end::"), "{rendered}");
}

#[test]
fn recovers_backward_goto_while_loop() {
    let mut stmts = vec![
        Stmt::Label("L0".into()),
        Stmt::If {
            cond: Expr::Var("exit_cond".into()),
            then_body: vec![Stmt::Goto("L1".into())],
            else_body: Vec::new(),
        },
        Stmt::Call(Expr::Call(
            Box::new(Expr::Var("print".into())),
            vec![Expr::Str("\"body\"".into())],
        )),
        Stmt::Goto("L0".into()),
        Stmt::Label("L1".into()),
    ];
    recover_backward_goto_while(&mut stmts);
    let rendered = render_block(&stmts, 0);
    assert!(rendered.contains("while not exit_cond do"), "{rendered}");
    assert!(rendered.contains("print(\"body\")"), "{rendered}");
    assert!(!rendered.contains("goto"), "{rendered}");
    assert!(!rendered.contains("::L0::"), "{rendered}");
    assert!(!rendered.contains("::L1::"), "{rendered}");
}

#[test]
fn recovers_label_loop_with_iteration_setup_and_nested_backedge() {
    let mut stmts = vec![
        Stmt::Label("L0".into()),
        Stmt::Local {
            names: vec!["remaining".into()],
            values: vec![Expr::Var("budget".into())],
        },
        Stmt::Local {
            names: vec!["step".into()],
            values: vec![Expr::Num("1".into())],
        },
        Stmt::If {
            cond: Expr::Binary(
                ">",
                Box::new(Expr::Var("remaining".into())),
                Box::new(Expr::Num("0".into())),
            ),
            then_body: vec![Stmt::If {
                cond: Expr::Binary(
                    "<",
                    Box::new(Expr::Var("count".into())),
                    Box::new(Expr::Num("7".into())),
                ),
                then_body: vec![
                    Stmt::NumericFor {
                        var: "i".into(),
                        start: Expr::Num("1".into()),
                        limit: Expr::Num("2".into()),
                        step: None,
                        body: vec![Stmt::Call(Expr::Call(
                            Box::new(Expr::Var("tick".into())),
                            Vec::new(),
                        ))],
                    },
                    Stmt::Assign {
                        targets: vec![Expr::Var("budget".into())],
                        values: vec![Expr::Binary(
                            "-",
                            Box::new(Expr::Var("budget".into())),
                            Box::new(Expr::Var("step".into())),
                        )],
                    },
                    Stmt::Assign {
                        targets: vec![Expr::Var("count".into())],
                        values: vec![Expr::Binary(
                            "+",
                            Box::new(Expr::Var("count".into())),
                            Box::new(Expr::Num("1".into())),
                        )],
                    },
                    Stmt::Goto("L0".into()),
                ],
                else_body: Vec::new(),
            }],
            else_body: Vec::new(),
        },
        Stmt::Call(Expr::Call(Box::new(Expr::Var("done".into())), Vec::new())),
    ];

    recover_natural_loops(&mut stmts);

    let rendered = render_block(&stmts, 0);
    assert!(rendered.contains("while true do"), "{rendered}");
    assert!(rendered.contains("continue"), "{rendered}");
    assert!(rendered.contains("break"), "{rendered}");
    assert!(!rendered.contains("goto"), "{rendered}");
    assert!(!rendered.contains("::L0::"), "{rendered}");
}

#[test]
fn recovers_repeat_until_return_goto_loop() {
    let mut stmts = vec![
        Stmt::Label("L0".into()),
        Stmt::Assign {
            targets: vec![Expr::Var("tries".into())],
            values: vec![Expr::Binary(
                "+",
                Box::new(Expr::Var("tries".into())),
                Box::new(Expr::Num("1".into())),
            )],
        },
        Stmt::Call(Expr::Call(Box::new(Expr::Var("save".into())), Vec::new())),
        Stmt::If {
            cond: Expr::Var("saved".into()),
            then_body: vec![Stmt::Return(vec![
                Expr::Var("saved".into()),
                Expr::Var("lastError".into()),
            ])],
            else_body: Vec::new(),
        },
        Stmt::If {
            cond: Expr::Binary(
                ">=",
                Box::new(Expr::Var("tries".into())),
                Box::new(Expr::Num("3".into())),
            ),
            then_body: vec![Stmt::Return(vec![
                Expr::Var("saved".into()),
                Expr::Var("lastError".into()),
            ])],
            else_body: Vec::new(),
        },
        Stmt::Goto("L0".into()),
    ];

    recover_backward_goto_while(&mut stmts);

    let rendered = render_block(&stmts, 0);
    assert!(rendered.contains("repeat"), "{rendered}");
    assert!(rendered.contains("until saved or tries >= 3"), "{rendered}");
    assert!(rendered.contains("return saved, lastError"), "{rendered}");
    assert!(!rendered.contains("goto"), "{rendered}");
    assert!(!rendered.contains("::L0::"), "{rendered}");
}

#[test]
fn folds_table_literals_respects_intermediate_dependencies() {
    let mut stmts = vec![
        Stmt::Local {
            names: vec!["t".into()],
            values: vec![Expr::Table(Vec::new())],
        },
        Stmt::Local {
            names: vec!["temp".into()],
            values: vec![Expr::Num("1".into())],
        },
        Stmt::Assign {
            targets: vec![Expr::Index(
                Box::new(Expr::Var("t".into())),
                Box::new(Expr::Num("1".into())),
            )],
            values: vec![Expr::Var("temp".into())],
        },
    ];

    fold_table_literals(&mut stmts);

    // Should NOT fold yet because temp is written in between
    let rendered = render_block(&stmts, 0);
    assert!(rendered.contains("t[1] = temp"), "{rendered}");
    assert!(!rendered.contains("t = {temp}"), "{rendered}");
}

#[test]
fn split_reused_registers_disjoint() {
    let mut stmts = vec![
        Stmt::Local {
            names: vec!["v1".into()],
            values: vec![Expr::Num("5".into())],
        },
        Stmt::Call(Expr::Call(
            Box::new(Expr::Var("print".into())),
            vec![Expr::Var("v1".into())],
        )),
        Stmt::Assign {
            targets: vec![Expr::Var("v1".into())],
            values: vec![Expr::Num("10".into())],
        },
        Stmt::Call(Expr::Call(
            Box::new(Expr::Var("print".into())),
            vec![Expr::Var("v1".into())],
        )),
    ];

    split_reused_registers(&mut stmts, &NameSet::new());

    let rendered = render_block(&stmts, 0);
    assert!(rendered.contains("local v1_1 = 5"), "{rendered}");
    assert!(rendered.contains("print(v1_1)"), "{rendered}");
    assert!(rendered.contains("v1_2 = 10"), "{rendered}");
    assert!(rendered.contains("print(v1_2)"), "{rendered}");
}

#[test]
fn split_reused_registers_skip_unsplittable() {
    let mut stmts = vec![
        Stmt::Local {
            names: vec!["v1".into()],
            values: vec![Expr::Num("5".into())],
        },
        Stmt::If {
            cond: Expr::Bool(true),
            then_body: vec![Stmt::Call(Expr::Call(
                Box::new(Expr::Var("print".into())),
                vec![Expr::Var("v1".into())],
            ))],
            else_body: Vec::new(),
        },
        Stmt::Assign {
            targets: vec![Expr::Var("v1".into())],
            values: vec![Expr::Num("10".into())],
        },
        Stmt::Call(Expr::Call(
            Box::new(Expr::Var("print".into())),
            vec![Expr::Var("v1".into())],
        )),
    ];

    split_reused_registers(&mut stmts, &NameSet::new());

    let rendered = render_block(&stmts, 0);
    assert!(rendered.contains("local v1 = 5"), "{rendered}");
    assert!(rendered.contains("v1 = 10"), "{rendered}");
}

#[test]
fn recovers_unstructured_backward_goto_loop() {
    // `::L1:: <body> goto L1` (unconditional back-edge) -> `while true do <body> end`.
    let mut stmts = vec![
        Stmt::Label("L1".into()),
        Stmt::Assign {
            targets: vec![Expr::Var("x".into())],
            values: vec![Expr::Num("1".into())],
        },
        Stmt::If {
            cond: Expr::Var("done".into()),
            then_body: vec![Stmt::Return(vec![])],
            else_body: Vec::new(),
        },
        Stmt::Goto("L1".into()),
    ];
    recover_unstructured_backward_loops(&mut stmts);
    assert_eq!(stmts.len(), 1, "{}", render_block(&stmts, 0));
    let Stmt::While { cond, body } = &stmts[0] else {
        panic!("expected while loop, got {}", render_block(&stmts, 0));
    };
    assert_eq!(*cond, Expr::Bool(true));
    assert_eq!(body.len(), 2); // the assign and the if; no goto/label remain
    let rendered = render_block(&stmts, 0);
    assert!(!rendered.contains("goto") && !rendered.contains("::"), "{rendered}");

    // Nested same-named labels: inner loop is recovered first (count-of-one holds per level).
    let mut nested = vec![
        Stmt::Label("L1".into()),
        Stmt::If {
            cond: Expr::Var("c".into()),
            then_body: vec![
                Stmt::Label("L1".into()),
                Stmt::Call(Expr::Call(Box::new(Expr::Var("f".into())), vec![])),
                Stmt::Goto("L1".into()),
            ],
            else_body: Vec::new(),
        },
        Stmt::Goto("L1".into()),
    ];
    recover_unstructured_backward_loops(&mut nested);
    let rendered = render_block(&nested, 0);
    assert!(!rendered.contains("goto") && !rendered.contains("::"), "{rendered}");
}
