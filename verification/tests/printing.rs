//! How trees are printed.
use luau_decompile::ast::{Expr, Stmt, TableField};
use luau_decompile::maps::TextMap;
use luau_decompile::numbers::{number_texts, number_texts_in_expr};
use luau_decompile::render;

/// The shortest spelling of the double that `text` denotes, where it denotes a finite one.
fn shortest(text: &str) -> Option<String> {
    let value: f64 = text.parse().ok()?;
    if !value.is_finite() {
        return None;
    }
    let candidate = value.to_string();
    match candidate.parse::<f64>() {
        Ok(back) if back.to_bits() == value.to_bits() => Some(candidate),
        _ => None,
    }
}

fn forms(texts: Vec<String>) -> TextMap {
    let mut known = TextMap::new();
    for text in texts {
        if let Some(short) = shortest(&text) {
            known = known.with(&text, &short);
        }
    }
    known
}

fn render_block(stmts: &[Stmt], indent: usize) -> String {
    render::render_block(stmts, indent, &forms(number_texts(stmts)))
}

fn render_expr(e: &Expr) -> String {
    render::render_expr(e, &forms(number_texts_in_expr(e)))
}

fn render_expr_at(e: &Expr, indent: usize) -> String {
    render::render_expr_at(e, indent, &forms(number_texts_in_expr(e)))
}

#[test]
fn prints_structured_constructs() {
    let body = vec![Stmt::Assign {
        targets: vec![Expr::Var("acc".into())],
        values: vec![Expr::Binary(
            "+",
            Box::new(Expr::Var("acc".into())),
            Box::new(Expr::Var("i".into())),
        )],
    }];
    let nf = Stmt::NumericFor {
        var: "i".into(),
        start: Expr::Num("1".into()),
        limit: Expr::Var("n".into()),
        step: None,
        body: body.clone(),
    };
    let rendered = render_block(&[nf], 0);
    assert_eq!(rendered, "for i = 1, n do\n\tacc += i\nend\n");

    let iff = Stmt::If {
        cond: Expr::Binary(
            ">",
            Box::new(Expr::Var("n".into())),
            Box::new(Expr::Num("0".into())),
        ),
        then_body: vec![Stmt::Return(vec![Expr::Str("\"pos\"".into())])],
        else_body: vec![Stmt::Return(vec![Expr::Str("\"neg\"".into())])],
    };
    let rendered = render_block(&[iff], 0);
    assert!(rendered.contains("if n > 0 then"));
    assert!(rendered.contains("else"));
    assert!(rendered.trim_end().ends_with("end"));
}

#[test]
fn method_call_and_table() {
    let e = Expr::MethodCall(Box::new(Expr::Var("s".into())), "upper".into(), vec![]);
    assert_eq!(render_expr(&e), "s:upper()");

    let t = Expr::Table(vec![
        TableField::Item(Expr::Num("1".into())),
        TableField::Named("k".into(), Expr::Str("\"v\"".into())),
        TableField::Keyed(Expr::Num("2".into()), Expr::Bool(true)),
    ]);
    assert_eq!(render_expr(&t), "{1, k = \"v\", [2] = true}");
}

#[test]
fn prints_literal_left_comparisons_naturally() {
    let e = Expr::Binary(
        "<",
        Box::new(Expr::Num("0".into())),
        Box::new(Expr::Var("n".into())),
    );
    assert_eq!(render_expr(&e), "n > 0");

    let e = Expr::Binary(
        "<",
        Box::new(Expr::Var("n".into())),
        Box::new(Expr::Num("0".into())),
    );
    assert_eq!(render_expr(&e), "n < 0");
}

#[test]
fn trims_generic_for_trailing_nil_iterators() {
    let rendered = render_block(
        &[Stmt::GenericFor {
            vars: vec!["i".into(), "j".into()],
            exprs: vec![Expr::Var("value".into()), Expr::Nil, Expr::Nil],
            body: vec![Stmt::Call(Expr::Call(
                Box::new(Expr::Var("print".into())),
                vec![Expr::Var("j".into())],
            ))],
        }],
        0,
    );

    assert!(rendered.contains("for i, j in value do"), "{rendered}");
    assert!(!rendered.contains("value, nil, nil"), "{rendered}");
}

#[test]
fn prints_blank_lines_around_blocks_and_returns() {
    let rendered = render_block(
        &[
            Stmt::Local {
                names: vec!["value".into()],
                values: vec![Expr::Num("0".into())],
            },
            Stmt::If {
                cond: Expr::Var("ok".into()),
                then_body: vec![Stmt::Assign {
                    targets: vec![Expr::Var("value".into())],
                    values: vec![Expr::Num("1".into())],
                }],
                else_body: Vec::new(),
            },
            Stmt::Assign {
                targets: vec![Expr::Var("value".into())],
                values: vec![Expr::Binary(
                    "+",
                    Box::new(Expr::Var("value".into())),
                    Box::new(Expr::Num("1".into())),
                )],
            },
            Stmt::Return(vec![Expr::Var("value".into())]),
        ],
        0,
    );

    assert!(
        rendered.contains("local value = 0\n\nif ok then"),
        "{rendered}"
    );
    assert!(rendered.contains("end\n\nvalue += 1"), "{rendered}");
    assert!(
        rendered.contains("value += 1\n\nreturn value"),
        "{rendered}"
    );
}

#[test]
fn prints_compound_assignments_for_simple_self_updates() {
    let rendered = render_block(
        &[
            Stmt::Assign {
                targets: vec![Expr::Var("total".into())],
                values: vec![Expr::Binary(
                    "+",
                    Box::new(Expr::Var("total".into())),
                    Box::new(Expr::Num("1".into())),
                )],
            },
            Stmt::Assign {
                targets: vec![Expr::Var("total".into())],
                values: vec![Expr::Binary(
                    "-",
                    Box::new(Expr::Var("total".into())),
                    Box::new(Expr::Binary(
                        "+",
                        Box::new(Expr::Var("penalty".into())),
                        Box::new(Expr::Num("1".into())),
                    )),
                )],
            },
            Stmt::Assign {
                targets: vec![Expr::Var("total".into())],
                values: vec![Expr::Binary(
                    "+",
                    Box::new(Expr::Var("other".into())),
                    Box::new(Expr::Num("1".into())),
                )],
            },
        ],
        0,
    );

    assert!(rendered.contains("total += 1"), "{rendered}");
    assert!(rendered.contains("total -= penalty + 1"), "{rendered}");
    assert!(rendered.contains("total = other + 1"), "{rendered}");
}

#[test]
fn shortens_roundtripping_float_literals() {
    assert_eq!(render_expr(&Expr::Num("0.90000000000000002".into())), "0.9");
    assert_eq!(
        render_expr(&Expr::Num("3.1415926535897931".into())),
        "3.141592653589793"
    );
    assert_eq!(render_expr(&Expr::Num("42".into())), "42");
}

#[test]
fn prints_elseif_chains() {
    let rendered = render_block(
        &[Stmt::If {
            cond: Expr::Var("a".into()),
            then_body: vec![Stmt::Return(vec![Expr::Num("1".into())])],
            else_body: vec![Stmt::If {
                cond: Expr::Var("b".into()),
                then_body: vec![Stmt::Return(vec![Expr::Num("2".into())])],
                else_body: vec![Stmt::Return(vec![Expr::Num("3".into())])],
            }],
        }],
        0,
    );

    assert!(rendered.contains("elseif b then"), "{rendered}");
    assert!(!rendered.contains("else\n\tif b then"), "{rendered}");
    assert_eq!(rendered.matches("end").count(), 1, "{rendered}");
}

#[test]
fn prints_function_sugar() {
    let closure = Expr::Closure {
        text: "function(x)\n\treturn x\nend".into(),
        captures: Vec::new(),
    };
    let rendered = render_block(
        &[
            Stmt::Local {
                names: vec!["id".into()],
                values: vec![closure.clone()],
            },
            Stmt::Assign {
                targets: vec![Expr::Field(
                    Box::new(Expr::Var("module".into())),
                    "id".into(),
                )],
                values: vec![closure],
            },
        ],
        0,
    );
    assert!(rendered.contains("local function id(x)"));
    assert!(rendered.contains("function module.id(x)"));
    assert!(
        rendered.contains("end\n\nfunction module.id(x)"),
        "{rendered}"
    );
}

#[test]
fn indented_function_literals_keep_blank_lines_empty() {
    let rendered = render_expr_at(
        &Expr::Closure {
            text: "function()\n\tif ok then\n\t\treturn true\n\tend\n\n\treturn false\nend"
                .into(),
            captures: Vec::new(),
        },
        2,
    );

    for line in rendered.lines() {
        assert!(
            line.is_empty() || !line.chars().all(|ch| ch == '\t' || ch == ' '),
            "blank line has indentation: {rendered:?}"
        );
    }
}

#[test]
fn prints_precedence_and_associativity() {
    let a = Box::new(Expr::Var("a".into()));
    let b = Box::new(Expr::Var("b".into()));
    let c = Box::new(Expr::Var("c".into()));

    // (a + b) * c
    let e1 = Expr::Binary(
        "*",
        Box::new(Expr::Binary("+", a.clone(), b.clone())),
        c.clone(),
    );
    assert_eq!(render_expr(&e1), "(a + b) * c");

    // a + b * c
    let e2 = Expr::Binary(
        "+",
        a.clone(),
        Box::new(Expr::Binary("*", b.clone(), c.clone())),
    );
    assert_eq!(render_expr(&e2), "a + b * c");

    // a ^ (b ^ c)
    let e3 = Expr::Binary(
        "^",
        a.clone(),
        Box::new(Expr::Binary("^", b.clone(), c.clone())),
    );
    assert_eq!(render_expr(&e3), "a ^ b ^ c");

    // (a ^ b) ^ c
    let e4 = Expr::Binary(
        "^",
        Box::new(Expr::Binary("^", a.clone(), b.clone())),
        c.clone(),
    );
    assert_eq!(render_expr(&e4), "(a ^ b) ^ c");

    // a .. (b .. c)
    let e5 = Expr::Binary(
        "..",
        a.clone(),
        Box::new(Expr::Binary("..", b.clone(), c.clone())),
    );
    assert_eq!(render_expr(&e5), "a .. b .. c");

    // (a .. b) .. c
    let e6 = Expr::Binary(
        "..",
        Box::new(Expr::Binary("..", a.clone(), b.clone())),
        c.clone(),
    );
    assert_eq!(render_expr(&e6), "(a .. b) .. c");

    // not (a and b)
    let e7 = Expr::Unary("not ", Box::new(Expr::Binary("and", a.clone(), b.clone())));
    assert_eq!(render_expr(&e7), "not (a and b)");

    // a or (b and c)
    let e8 = Expr::Binary(
        "or",
        a.clone(),
        Box::new(Expr::Binary("and", b.clone(), c.clone())),
    );
    assert_eq!(render_expr(&e8), "a or (b and c)");

    // (a or b) and c
    let e9 = Expr::Binary(
        "and",
        Box::new(Expr::Binary("or", a.clone(), b.clone())),
        c.clone(),
    );
    assert_eq!(render_expr(&e9), "(a or b) and c");

    // not not a
    let e10 = Expr::Unary("not ", Box::new(Expr::Unary("not ", a.clone())));
    assert_eq!(render_expr(&e10), "not not a");

    // -(-a)
    let e11 = Expr::Unary("-", Box::new(Expr::Unary("-", a.clone())));
    assert_eq!(render_expr(&e11), "-(-a)");
}

#[test]
fn prefix_parentheses_on_literals() {
    let str_lit = Box::new(Expr::Str("\"hello\"".into()));
    let call1 = Expr::MethodCall(str_lit, "upper".into(), vec![]);
    assert_eq!(render_expr(&call1), "(\"hello\"):upper()");

    let table_lit = Box::new(Expr::Table(vec![]));
    let call2 = Expr::MethodCall(table_lit, "insert".into(), vec![]);
    assert_eq!(render_expr(&call2), "({}):insert()");

    let func_lit = Box::new(Expr::Closure {
        text: "function() end".into(),
        captures: vec![],
    });
    let call3 = Expr::Call(func_lit, vec![]);
    assert_eq!(render_expr(&call3), "(function() end)()");
}

#[test]
fn table_formatting_styles() {
    let t1 = Expr::Table(vec![
        TableField::Item(Expr::Num("1".into())),
        TableField::Item(Expr::Num("2".into())),
        TableField::Item(Expr::Num("3".into())),
    ]);
    assert_eq!(render_expr(&t1), "{1, 2, 3}");

    let t2 = Expr::Table(vec![
        TableField::Named("x".into(), Expr::Num("10".into())),
        TableField::Named("y".into(), Expr::Num("20".into())),
    ]);
    assert_eq!(render_expr(&t2), "{x = 10, y = 20}");

    let t3 = Expr::Table(vec![
        TableField::Item(Expr::Num("1".into())),
        TableField::Named("key".into(), Expr::Str("\"val\"".into())),
        TableField::Keyed(Expr::Str("\"other\"".into()), Expr::Bool(true)),
    ]);
    assert_eq!(render_expr(&t3), "{1, key = \"val\", [\"other\"] = true}");

    let t4 = Expr::Table(vec![
        TableField::Item(Expr::Table(vec![TableField::Item(Expr::Num("1".into()))])),
        TableField::Item(Expr::Table(vec![TableField::Item(Expr::Num("2".into()))])),
    ]);
    assert_eq!(render_expr(&t4), "{{1}, {2}}");

    let t5 = Expr::Table(vec![TableField::Item(Expr::Table(vec![
        TableField::Item(Expr::Num("1".into())),
        TableField::Item(Expr::Num("2".into())),
        TableField::Item(Expr::Num("3".into())),
        TableField::Item(Expr::Num("4".into())),
    ]))]);
    let rendered_t5 = render_expr(&t5);
    assert!(
        rendered_t5.contains("{\n\t{\n\t\t1,\n\t\t2,\n\t\t3,\n\t\t4,\n\t},\n}"),
        "{rendered_t5}"
    );

    let t6 = Expr::Table(vec![TableField::Named(
        "foo".into(),
        Expr::Closure {
            text: "function(x)\n\treturn x\nend".into(),
            captures: vec![],
        },
    )]);
    let rendered_t6 = render_expr(&t6);
    assert!(
        rendered_t6.contains("foo = function(x)\n\t\treturn x\n\tend"),
        "{rendered_t6}"
    );

    let t7 = Expr::Table(vec![
        TableField::Item(Expr::Num("1".into())),
        TableField::Item(Expr::Num("2".into())),
        TableField::Item(Expr::Num("3".into())),
        TableField::Item(Expr::Num("4".into())),
    ]);
    assert_eq!(render_expr(&t7), "{\n\t1,\n\t2,\n\t3,\n\t4,\n}");
}

#[test]
fn method_colon_sugar_rendering() {
    let closure = Expr::Closure {
        text: "function(self, x)\n\treturn x\nend".into(),
        captures: vec![],
    };
    let rendered = render_block(
        &[Stmt::Assign {
            targets: vec![Expr::Field(
                Box::new(Expr::Var("module".into())),
                "foo".into(),
            )],
            values: vec![closure],
        }],
        0,
    );
    assert!(
        rendered.contains("function module:foo(x)\n\treturn x\nend"),
        "{rendered}"
    );
}

#[test]
fn float_literals_shorten_cleanup() {
    assert_eq!(render_expr(&Expr::Num("0.80000000000000004".into())), "0.8");
}
