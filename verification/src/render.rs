//! Printing expressions and statements as Luau source.
//!
//! The text of every node is given by a function on models. Indentation is a run of tabs, which
//! the functions below take as the text to put in front of a line.
use vstd::prelude::*;
use vstd::string::StringExecFns;

use crate::ast::{as_var, block, exprs, fields, Block, Expr, ExprV, FieldV, LoopHead, Stmt, StmtV, TableField};
use crate::maps::TextMap;
use crate::numbers::{number_text, render_number};
use crate::text::{
    chars_of, has_char, join_names, joined, owned, push_char, spaces_trimmed, spaces_trimmed_start, str_eq, string_of,
    strip, stripped, texts, trim_spaces, trim_spaces_start, Text,
};

verus! {

// ---- operators --------------------------------------------------------------------------------------------------

/// How tightly a binary operator binds.
pub open spec fn precedence(op: Text) -> nat {
    if op == "or"@ {
        1
    } else if op == "and"@ {
        2
    } else if comparison(op) {
        3
    } else if op == ".."@ {
        4
    } else if op == "+"@ || op == "-"@ {
        5
    } else if op == "*"@ || op == "/"@ || op == "//"@ || op == "%"@ {
        6
    } else if op == "^"@ {
        8
    } else {
        0
    }
}

/// Whether `op` compares its operands.
pub open spec fn comparison(op: Text) -> bool {
    op == "=="@ || op == "~="@ || op == "<"@ || op == "<="@ || op == ">"@ || op == ">="@
}

/// Whether `a op b op c` means `a op (b op c)`.
pub open spec fn right_associative(op: Text) -> bool {
    op == "^"@ || op == ".."@
}

/// The operator that compares the operands the other way round.
pub open spec fn flipped(op: Text) -> Option<Text> {
    if op == "<"@ {
        Some(">"@)
    } else if op == "<="@ {
        Some(">="@)
    } else if op == ">"@ {
        Some("<"@)
    } else if op == ">="@ {
        Some("<="@)
    } else if op == "=="@ {
        Some("=="@)
    } else if op == "~="@ {
        Some("~="@)
    } else {
        None
    }
}

/// Whether `op` has an assignment of its own, such as `+=`.
pub open spec fn compound(op: Text) -> bool {
    op == "+"@ || op == "-"@ || op == "*"@ || op == "/"@ || op == "//"@ || op == "%"@ || op == "^"@ || op == ".."@
}

/// Whether `e` is a literal.
pub open spec fn literal_expr(e: ExprV) -> bool {
    e is Nil || e is Bool || e is Num || e is Str || e is Vector
}

fn op_precedence(op: &str) -> (r: u8)
    ensures
        r == precedence(op@),
{
    if str_eq(op, "or") {
        1
    } else if str_eq(op, "and") {
        2
    } else if is_comparison_op(op) {
        3
    } else if str_eq(op, "..") {
        4
    } else if str_eq(op, "+") || str_eq(op, "-") {
        5
    } else if str_eq(op, "*") || str_eq(op, "/") || str_eq(op, "//") || str_eq(op, "%") {
        6
    } else if str_eq(op, "^") {
        8
    } else {
        0
    }
}

fn is_comparison_op(op: &str) -> (r: bool)
    ensures
        r == comparison(op@),
{
    str_eq(op, "==") || str_eq(op, "~=") || str_eq(op, "<") || str_eq(op, "<=") || str_eq(op, ">") || str_eq(op, ">=")
}

fn is_right_associative(op: &str) -> (r: bool)
    ensures
        r == right_associative(op@),
{
    str_eq(op, "^") || str_eq(op, "..")
}

fn flipped_comparison(op: &str) -> (r: Option<&'static str>)
    ensures
        match r {
            Some(f) => flipped(op@) == Some(f@),
            None => flipped(op@) is None,
        },
{
    if str_eq(op, "<") {
        Some(">")
    } else if str_eq(op, "<=") {
        Some(">=")
    } else if str_eq(op, ">") {
        Some("<")
    } else if str_eq(op, ">=") {
        Some("<=")
    } else if str_eq(op, "==") {
        Some("==")
    } else if str_eq(op, "~=") {
        Some("~=")
    } else {
        None
    }
}

fn compound_assignment_op(op: &str) -> (r: bool)
    ensures
        r == compound(op@),
{
    str_eq(op, "+") || str_eq(op, "-") || str_eq(op, "*") || str_eq(op, "/") || str_eq(op, "//") || str_eq(op, "%")
        || str_eq(op, "^") || str_eq(op, "..")
}

fn is_literal_expr(e: &Expr) -> (r: bool)
    ensures
        r == literal_expr(e@),
{
    matches!(e, Expr::Nil | Expr::Bool(_) | Expr::Num(_) | Expr::Str(_) | Expr::Vector(_))
}

/// A comparison that is turned round twice is the one it was, and binds as tightly all along.
pub proof fn flipped_twice(op: Text)
    ensures
        flipped(op) matches Some(f) ==> flipped(f) == Some(op) && precedence(f) == precedence(op),
{
    reveal_strlit("<");
    reveal_strlit("<=");
    reveal_strlit(">");
    reveal_strlit(">=");
    reveal_strlit("==");
    reveal_strlit("~=");
    assert("<"@.len() == 1 && ">"@.len() == 1 && "<="@.len() == 2 && ">="@.len() == 2);
    assert("<"@[0] == '<' && ">"@[0] == '>');
    assert("<="@[0] == '<' && ">="@[0] == '>' && "=="@[0] == '=' && "~="@[0] == '~');
    reveal_strlit("or");
    reveal_strlit("and");
    assert("or"@[0] == 'o' && "and"@[0] == 'a');
}

// ---- function literals ----------------------------------------------------------------------------------------

/// Whether a line of `s` that holds something begins at `i`.
pub open spec fn line_at(s: Text, i: int) -> bool {
    0 <= i < s.len() && s[i] != '\n' && !(s[i] == '\r' && i + 1 < s.len() && s[i + 1] == '\n')
}

/// `s` from `i` on, with `pad` in front of every further line that holds something. Line ends
/// become line feeds.
pub open spec fn indented_from(s: Text, i: int, pad: Text) -> Text
    decreases s.len() - i,
{
    if i < 0 || i >= s.len() {
        Seq::empty()
    } else if s[i] == '\r' && i + 1 < s.len() && s[i + 1] == '\n' {
        indented_from(s, i + 1, pad)
    } else if s[i] == '\n' && line_at(s, i + 1) {
        seq!['\n'] + pad + indented_from(s, i + 1, pad)
    } else {
        seq![s[i]] + indented_from(s, i + 1, pad)
    }
}

/// `s` with all lines but the first moved right by `pad`.
pub open spec fn indented(s: Text, pad: Text) -> Text {
    if !s.contains('\n') || pad.len() == 0 {
        s
    } else {
        indented_from(s, 0, pad)
    }
}

fn indent_multiline(text: &str, pad: &str) -> (r: String)
    ensures
        r@ == indented(text@, pad@),
{
    let pads = chars_of(pad);
    if !has_char(text, '\n') || pads.len() == 0 {
        return owned(text);
    }
    let cs = chars_of(text);
    let ghost s = text@;
    let mut out = String::new();
    let n: usize = cs.len();
    let mut i: usize = 0;
    assert(out@ + indented_from(s, 0, pad@) =~= indented_from(s, 0, pad@));
    while i < n
        invariant
            i <= n,
            n == cs.len(),
            cs@ == s,
            out@ + indented_from(s, i as int, pad@) == indented_from(s, 0, pad@),
        decreases n - i,
    {
        let ghost o = out@;
        let ghost rest = indented_from(s, i + 1, pad@);
        let c = cs[i];
        if c == '\r' && i + 1 < n && cs[i + 1] == '\n' {
        } else if c == '\n' && i + 1 < n && cs[i + 1] != '\n' && !(cs[i + 1] == '\r' && i + 2 < n && cs[i + 2] == '\n') {
            assert(line_at(s, i + 1));
            push_char(&mut out, c);
            out.append(pad);
            assert(o + (seq!['\n'] + pad@ + rest) =~= out@ + rest);
        } else {
            push_char(&mut out, c);
            assert(o + (seq![s[i as int]] + rest) =~= out@ + rest);
        }
        i += 1;
    }
    assert(out@ + Seq::<char>::empty() =~= out@);
    out
}

/// The name under which `t` can head a function: a variable, or a field of one.
pub open spec fn function_name(t: ExprV) -> Option<Text>
    decreases t,
{
    match t {
        ExprV::Var(n) => Some(n),
        ExprV::Field(base, f) => match function_name(*base) {
            Some(b) => Some(b + "."@ + f),
            None => None,
        },
        _ => None,
    }
}

/// The model of an optional string.
pub open spec fn opt_string(s: Option<String>) -> Option<Text> {
    match s {
        Some(s) => Some(s@),
        None => None,
    }
}

fn function_assignment_target(t: &Expr) -> (r: Option<String>)
    ensures
        opt_string(r) == function_name(t@),
    decreases t,
{
    match t {
        Expr::Var(n) => Some(n.clone()),
        Expr::Field(base, f) => match function_assignment_target(base) {
            Some(b) => {
                let mut s = b;
                s.append(".");
                s.append(f);
                Some(s)
            },
            None => None,
        },
        _ => None,
    }
}

/// The first `)` from `i` on.
pub open spec fn closing(s: Text, i: int) -> Option<int>
    decreases s.len() - i,
{
    if i < 0 || i >= s.len() {
        None
    } else if s[i] == ')' {
        Some(i)
    } else {
        closing(s, i + 1)
    }
}

/// The parameters `params`, without a leading `self`, in round brackets.
pub open spec fn without_self(params: Text) -> Option<Text> {
    if params == "self"@ {
        Some("()"@)
    } else {
        match stripped(params, "self"@) {
            Some(rest) => match stripped(spaces_trimmed_start(rest), ","@) {
                Some(more) => Some("("@ + spaces_trimmed(more) + ")"@),
                None => None,
            },
            None => None,
        }
    }
}

/// The parameters and the rest of a function whose text after `function` is `tail`.
pub open spec fn signature(tail: Text) -> Option<(Text, Text)> {
    match stripped(spaces_trimmed_start(tail), "("@) {
        Some(after) => match closing(after, 0) {
            Some(k) => Some((spaces_trimmed(after.subrange(0, k)), after.skip(k + 1))),
            None => None,
        },
        None => None,
    }
}

/// A function with a `self` parameter that is stored in a field, as a method.
pub open spec fn method_text(target: ExprV, text: Text, pad: Text) -> Option<Text> {
    match target {
        ExprV::Field(base, field) => match (function_name(*base), stripped(text, "function"@)) {
            (Some(name), Some(tail)) => match signature(tail) {
                Some((params, body)) => match without_self(params) {
                    Some(ps) => Some(indented("function "@ + name + ":"@ + field + ps + body, pad)),
                    None => None,
                },
                None => None,
            },
            _ => None,
        },
        _ => None,
    }
}

fn closing_of(cs: &Vec<char>) -> (r: Option<usize>)
    ensures
        crate::query::opt_index(r) == closing(cs@, 0),
        r matches Some(k) ==> k < cs.len(),
{
    let mut i: usize = 0;
    while i < cs.len()
        invariant
            i <= cs.len(),
            closing(cs@, 0) == closing(cs@, i as int),
        decreases cs.len() - i,
    {
        if cs[i] == ')' {
            return Some(i);
        }
        i += 1;
    }
    None
}

fn signature_of(tail: &str) -> (r: Option<(String, String)>)
    ensures
        match r {
            Some((a, b)) => signature(tail@) == Some((a@, b@)),
            None => signature(tail@) is None,
        },
{
    match strip(&trim_spaces_start(tail), "(") {
        Some(after) => {
            let cs = chars_of(&after);
            match closing_of(&cs) {
                Some(k) => {
                    let n: usize = cs.len();
                    let params = string_of(&cs, 0, k);
                    let body = string_of(&cs, k + 1, n);
                    assert(body@ =~= after@.skip(k + 1));
                    Some((trim_spaces(&params), body))
                },
                None => None,
            }
        },
        None => None,
    }
}

fn params_without_self(params: &str) -> (r: Option<String>)
    ensures
        opt_string(r) == without_self(params@),
{
    if str_eq(params, "self") {
        return Some(owned("()"));
    }
    match strip(params, "self") {
        Some(rest) => match strip(&trim_spaces_start(&rest), ",") {
            Some(more) => {
                let mut s = owned("(");
                s.append(&trim_spaces(&more));
                s.append(")");
                Some(s)
            },
            None => None,
        },
        None => None,
    }
}

fn method_colon_sugar(target: &Expr, text: &str, pad: &str) -> (r: Option<String>)
    ensures
        opt_string(r) == method_text(target@, text@, pad@),
{
    let (base, field) = match target {
        Expr::Field(base, field) => (base, field),
        _ => {
            return None;
        },
    };
    let name = match function_assignment_target(base) {
        Some(name) => name,
        None => {
            return None;
        },
    };
    let tail = match strip(text, "function") {
        Some(tail) => tail,
        None => {
            return None;
        },
    };
    match signature_of(&tail) {
        Some((params, body)) => match params_without_self(&params) {
            Some(ps) => {
                let mut s = owned("function ");
                s.append(&name);
                s.append(":");
                s.append(field);
                s.append(&ps);
                s.append(&body);
                Some(indent_multiline(&s, pad))
            },
            None => None,
        },
        None => None,
    }
}

/// The text of a function literal.
pub open spec fn closure_text(e: ExprV) -> Option<Text> {
    match e {
        ExprV::Closure { text, .. } => Some(text),
        _ => None,
    }
}

fn closure_text_of(e: &Expr) -> (r: Option<&String>)
    ensures
        match r {
            Some(t) => closure_text(e@) == Some(t@),
            None => closure_text(e@) is None,
        },
{
    match e {
        Expr::Closure { text, .. } => Some(text),
        _ => None,
    }
}

/// `local name = function ...` as a `local function`.
pub open spec fn local_function(names: Seq<Text>, values: Seq<ExprV>, pad: Text) -> Option<Text> {
    if names.len() == 1 && values.len() == 1 {
        match closure_text(values[0]) {
            Some(t) => match stripped(t, "function"@) {
                Some(tail) => Some("local function "@ + names[0] + indented(tail, pad)),
                None => None,
            },
            None => None,
        }
    } else {
        None
    }
}

/// `target = function ...` as a function statement.
pub open spec fn assigned_function(targets: Seq<ExprV>, values: Seq<ExprV>, pad: Text) -> Option<Text> {
    if targets.len() == 1 && values.len() == 1 {
        match closure_text(values[0]) {
            Some(t) => match method_text(targets[0], t, pad) {
                Some(m) => Some(m),
                None => match (function_name(targets[0]), stripped(t, "function"@)) {
                    (Some(name), Some(tail)) => Some("function "@ + name + indented(tail, pad)),
                    _ => None,
                },
            },
            None => None,
        }
    } else {
        None
    }
}

fn local_function_text(names: &[String], values: &[Expr], pad: &str) -> (r: Option<String>)
    ensures
        opt_string(r) == local_function(texts(names@), exprs(values@), pad@),
{
    assert(exprs(values@).len() == values@.len());
    assert(texts(names@).len() == names@.len());
    if names.len() != 1 || values.len() != 1 {
        return None;
    }
    assert(exprs(values@)[0] == values@[0]@);
    assert(texts(names@)[0] == names@[0]@);
    match closure_text_of(&values[0]) {
        Some(t) => match strip(t, "function") {
            Some(tail) => {
                let mut s = owned("local function ");
                s.append(&names[0]);
                s.append(&indent_multiline(&tail, pad));
                Some(s)
            },
            None => None,
        },
        None => None,
    }
}

fn assignment_function_text(targets: &[Expr], values: &[Expr], pad: &str) -> (r: Option<String>)
    ensures
        opt_string(r) == assigned_function(exprs(targets@), exprs(values@), pad@),
{
    assert(exprs(values@).len() == values@.len());
    assert(exprs(targets@).len() == targets@.len());
    if targets.len() != 1 || values.len() != 1 {
        return None;
    }
    assert(exprs(values@)[0] == values@[0]@);
    assert(exprs(targets@)[0] == targets@[0]@);
    let t = match closure_text_of(&values[0]) {
        Some(t) => t,
        None => {
            return None;
        },
    };
    match method_colon_sugar(&targets[0], t, pad) {
        Some(m) => Some(m),
        None => match function_assignment_target(&targets[0]) {
            Some(name) => match strip(t, "function") {
                Some(tail) => {
                    let mut s = owned("function ");
                    s.append(&name);
                    s.append(&indent_multiline(&tail, pad));
                    Some(s)
                },
                None => None,
            },
            None => None,
        },
    }
}

// ---- expressions ------------------------------------------------------------------------------------------------

/// Whether the operand `a` of the unary operator `op` needs brackets.
pub open spec fn unary_needs_brackets(op: Text, a: ExprV) -> bool {
    match a {
        ExprV::Binary(inner, _, _) => precedence(inner) < 7,
        ExprV::Unary(inner, _) => spaces_trimmed(op) == "-"@ && spaces_trimmed(inner) == "-"@,
        _ => false,
    }
}

/// Whether the operand `e` of the binary operator `op`, on its right hand side or its left, needs
/// brackets.
pub open spec fn binary_needs_brackets(e: ExprV, op: Text, right: bool) -> bool {
    match e {
        ExprV::Unary(_, _) => precedence(op) > 7,
        ExprV::Binary(inner, _, _) => if precedence(inner) < precedence(op) {
            true
        } else if precedence(inner) > precedence(op) {
            op == "or"@ && inner == "and"@
        } else {
            comparison(op) || right != right_associative(op)
        },
        _ => false,
    }
}

/// Whether `e` can stand before a call, an index or a field without brackets.
pub open spec fn prefix_expr(e: ExprV) -> bool {
    e is Var || e is Raw || e is Index || e is Field || e is Call || e is MethodCall
}

/// `t` in round brackets, where `brackets`.
pub open spec fn bracketed(t: Text, brackets: bool) -> Text {
    if brackets {
        "("@ + t + ")"@
    } else {
        t
    }
}

/// Whether a table with these fields takes several lines.
pub open spec fn tall(fs: Seq<FieldV>) -> bool
    decreases fs, 0nat,
{
    fs.len() > 3 || exists|i: int| 0 <= i < fs.len() && tall_field(#[trigger] fs[i])
}

pub open spec fn tall_field(f: FieldV) -> bool
    decreases f, 0nat,
{
    match f {
        FieldV::Item(e) => tall_expr(e),
        FieldV::Named(_, e) => tall_expr(e),
        FieldV::Keyed(k, e) => tall_expr(k) || tall_expr(e),
    }
}

/// Whether `e` takes several lines.
pub open spec fn tall_expr(e: ExprV) -> bool
    decreases e, 0nat,
{
    match e {
        ExprV::Closure { .. } => true,
        ExprV::Table(fs) => tall(fs),
        ExprV::Index(t, k) => tall_expr(*t) || tall_expr(*k),
        ExprV::Field(t, _) => tall_expr(*t),
        ExprV::Call(f, args) => tall_expr(*f) || some_tall(args),
        ExprV::MethodCall(o, _, args) => tall_expr(*o) || some_tall(args),
        ExprV::Unary(_, a) => tall_expr(*a),
        ExprV::Binary(_, a, b) => tall_expr(*a) || tall_expr(*b),
        _ => false,
    }
}

pub open spec fn some_tall(es: Seq<ExprV>) -> bool
    decreases es, 0nat,
{
    exists|i: int| 0 <= i < es.len() && tall_expr(#[trigger] es[i])
}

/// The text of `e` in a line that begins with `pad`.
pub open spec fn expr_text(e: ExprV, pad: Text, nums: Map<Text, Text>) -> Text
    decreases e, 0nat,
{
    match e {
        ExprV::Nil => "nil"@,
        ExprV::Bool(b) => if b {
            "true"@
        } else {
            "false"@
        },
        ExprV::Num(t) => number_text(t, nums),
        ExprV::Str(t) => t,
        ExprV::Vector(t) => t,
        ExprV::Var(t) => t,
        ExprV::Raw(t) => t,
        ExprV::Closure { text, .. } => indented(text, pad),
        ExprV::Vararg => "..."@,
        ExprV::Index(t, k) => prefix_text(*t, pad, nums) + "["@ + expr_text(*k, pad, nums) + "]"@,
        ExprV::Field(t, f) => prefix_text(*t, pad, nums) + "."@ + f,
        ExprV::Call(f, args) => prefix_text(*f, pad, nums) + "("@ + exprs_text(args, pad, nums) + ")"@,
        ExprV::MethodCall(o, m, args) => prefix_text(*o, pad, nums) + ":"@ + m + "("@ + exprs_text(args, pad, nums) + ")"@,
        ExprV::Unary(op, a) => op + bracketed(expr_text(*a, pad, nums), unary_needs_brackets(op, *a)),
        ExprV::Binary(op, a, b) => if flipped(op) is Some && literal_expr(*a) && !literal_expr(*b) {
            let f = flipped(op)->Some_0;
            operand_text(*b, f, false, pad, nums) + " "@ + f + " "@ + operand_text(*a, f, true, pad, nums)
        } else {
            operand_text(*a, op, false, pad, nums) + " "@ + op + " "@ + operand_text(*b, op, true, pad, nums)
        },
        ExprV::Table(fs) => if fs.len() == 0 {
            "{}"@
        } else if tall(fs) {
            "{\n"@ + rows_text(fs, pad.push('\t'), nums) + pad + "}"@
        } else {
            "{"@ + fields_text(fs, pad, nums) + "}"@
        },
    }
}

/// The text of `e` before a call, an index or a field.
pub open spec fn prefix_text(e: ExprV, pad: Text, nums: Map<Text, Text>) -> Text
    decreases e, 1nat,
{
    bracketed(expr_text(e, pad, nums), !prefix_expr(e))
}

/// The text of the operand `e` of `op`.
pub open spec fn operand_text(e: ExprV, op: Text, right: bool, pad: Text, nums: Map<Text, Text>) -> Text
    decreases e, 1nat,
{
    bracketed(expr_text(e, pad, nums), binary_needs_brackets(e, op, right))
}

/// The texts of `es`, with a comma and a space between each two.
pub open spec fn exprs_text(es: Seq<ExprV>, pad: Text, nums: Map<Text, Text>) -> Text
    decreases es, 0nat,
{
    if es.len() == 0 {
        Seq::empty()
    } else if es.len() == 1 {
        expr_text(es[0], pad, nums)
    } else {
        exprs_text(es.drop_last(), pad, nums) + ", "@ + expr_text(es.last(), pad, nums)
    }
}

/// The texts of `fs` in one line.
pub open spec fn fields_text(fs: Seq<FieldV>, pad: Text, nums: Map<Text, Text>) -> Text
    decreases fs, 0nat,
{
    if fs.len() == 0 {
        Seq::empty()
    } else if fs.len() == 1 {
        field_text(fs[0], pad, nums)
    } else {
        fields_text(fs.drop_last(), pad, nums) + ", "@ + field_text(fs.last(), pad, nums)
    }
}

/// The texts of `fs`, each in a line of its own.
pub open spec fn rows_text(fs: Seq<FieldV>, pad: Text, nums: Map<Text, Text>) -> Text
    decreases fs, 0nat,
{
    if fs.len() == 0 {
        Seq::empty()
    } else {
        rows_text(fs.drop_last(), pad, nums) + pad + field_text(fs.last(), pad, nums) + ",\n"@
    }
}

pub open spec fn field_text(f: FieldV, pad: Text, nums: Map<Text, Text>) -> Text
    decreases f, 0nat,
{
    match f {
        FieldV::Item(e) => expr_text(e, pad, nums),
        FieldV::Named(n, e) => n + " = "@ + expr_text(e, pad, nums),
        FieldV::Keyed(k, e) => "["@ + expr_text(k, pad, nums) + "] = "@ + expr_text(e, pad, nums),
    }
}

fn unary_brackets(op: &str, a: &Expr) -> (r: bool)
    ensures
        r == unary_needs_brackets(op@, a@),
{
    match a {
        Expr::Binary(inner, _, _) => op_precedence(inner) < 7,
        Expr::Unary(inner, _) => str_eq(&trim_spaces(op), "-") && str_eq(&trim_spaces(inner), "-"),
        _ => false,
    }
}

fn binary_brackets(e: &Expr, op: &str, right: bool) -> (r: bool)
    ensures
        r == binary_needs_brackets(e@, op@, right),
{
    match e {
        Expr::Unary(_, _) => op_precedence(op) > 7,
        Expr::Binary(inner, _, _) => {
            let p: u8 = op_precedence(op);
            let q: u8 = op_precedence(inner);
            if q < p {
                true
            } else if q > p {
                str_eq(op, "or") && str_eq(inner, "and")
            } else {
                is_comparison_op(op) || right != is_right_associative(op)
            }
        },
        _ => false,
    }
}

fn is_prefix_expr(e: &Expr) -> (r: bool)
    ensures
        r == prefix_expr(e@),
{
    matches!(
        e,
        Expr::Var(_) | Expr::Raw(_) | Expr::Index(_, _) | Expr::Field(_, _) | Expr::Call(_, _) | Expr::MethodCall(_, _, _)
    )
}

fn bracket(t: String, brackets: bool) -> (r: String)
    ensures
        r@ == bracketed(t@, brackets),
{
    if brackets {
        let mut s = owned("(");
        s.append(&t);
        s.append(")");
        s
    } else {
        t
    }
}

fn table_needs_multiline(fs: &[TableField]) -> (r: bool)
    ensures
        r == tall(fields(fs@)),
    decreases fs@,
{
    let ghost v = fields(fs@);
    if fs.len() > 3 {
        return true;
    }
    let mut i: usize = 0;
    while i < fs.len()
        invariant
            i <= fs.len(),
            v == fields(fs@),
            forall|j: int| 0 <= j < i ==> !tall_field(#[trigger] v[j]),
        decreases fs.len() - i,
    {
        assert(v[i as int] == fs@[i as int]@);
        if field_needs_multiline(&fs[i]) {
            return true;
        }
        i += 1;
    }
    false
}

fn field_needs_multiline(f: &TableField) -> (r: bool)
    ensures
        r == tall_field(f@),
    decreases f,
{
    match f {
        TableField::Item(e) => expr_needs_multiline(e),
        TableField::Named(_, e) => expr_needs_multiline(e),
        TableField::Keyed(k, e) => expr_needs_multiline(k) || expr_needs_multiline(e),
    }
}

fn expr_needs_multiline(e: &Expr) -> (r: bool)
    ensures
        r == tall_expr(e@),
    decreases e,
{
    match e {
        Expr::Closure { .. } => true,
        Expr::Table(fs) => table_needs_multiline(fs),
        Expr::Index(t, k) => expr_needs_multiline(t) || expr_needs_multiline(k),
        Expr::Field(t, _) => expr_needs_multiline(t),
        Expr::Call(f, args) => expr_needs_multiline(f) || any_needs_multiline(args),
        Expr::MethodCall(o, _, args) => expr_needs_multiline(o) || any_needs_multiline(args),
        Expr::Unary(_, a) => expr_needs_multiline(a),
        Expr::Binary(_, a, b) => expr_needs_multiline(a) || expr_needs_multiline(b),
        _ => false,
    }
}

fn any_needs_multiline(es: &[Expr]) -> (r: bool)
    ensures
        r == some_tall(exprs(es@)),
    decreases es@,
{
    let ghost v = exprs(es@);
    let mut i: usize = 0;
    while i < es.len()
        invariant
            i <= es.len(),
            v == exprs(es@),
            forall|j: int| 0 <= j < i ==> !tall_expr(#[trigger] v[j]),
        decreases es.len() - i,
    {
        assert(v[i as int] == es@[i as int]@);
        if expr_needs_multiline(&es[i]) {
            return true;
        }
        i += 1;
    }
    false
}

fn expr_to_text(e: &Expr, pad: &str, nums: &TextMap) -> (r: String)
    ensures
        r@ == expr_text(e@, pad@, nums@),
    decreases e, 0nat,
{
    match e {
        Expr::Nil => owned("nil"),
        Expr::Bool(b) => {
            if *b {
                owned("true")
            } else {
                owned("false")
            }
        },
        Expr::Num(t) => render_number(t, nums),
        Expr::Str(t) => t.clone(),
        Expr::Vector(t) => t.clone(),
        Expr::Var(t) => t.clone(),
        Expr::Raw(t) => t.clone(),
        Expr::Closure { text, .. } => indent_multiline(text, pad),
        Expr::Vararg => owned("..."),
        Expr::Index(t, k) => {
            let mut s = prefix_to_text(t, pad, nums);
            s.append("[");
            s.append(&expr_to_text(k, pad, nums));
            s.append("]");
            s
        },
        Expr::Field(t, f) => {
            let mut s = prefix_to_text(t, pad, nums);
            s.append(".");
            s.append(f);
            s
        },
        Expr::Call(f, args) => {
            let mut s = prefix_to_text(f, pad, nums);
            s.append("(");
            s.append(&exprs_to_text(args, pad, nums));
            s.append(")");
            s
        },
        Expr::MethodCall(o, m, args) => {
            let mut s = prefix_to_text(o, pad, nums);
            s.append(":");
            s.append(m);
            s.append("(");
            s.append(&exprs_to_text(args, pad, nums));
            s.append(")");
            s
        },
        Expr::Unary(op, a) => {
            let mut s = owned(op);
            s.append(&bracket(expr_to_text(a, pad, nums), unary_brackets(op, a)));
            s
        },
        Expr::Binary(op, a, b) => {
            if let Some(f) = flipped_comparison(op) {
                if is_literal_expr(a) && !is_literal_expr(b) {
                    let mut s = operand_to_text(b, f, false, pad, nums);
                    s.append(" ");
                    s.append(f);
                    s.append(" ");
                    s.append(&operand_to_text(a, f, true, pad, nums));
                    return s;
                }
            }
            let mut s = operand_to_text(a, op, false, pad, nums);
            s.append(" ");
            s.append(op);
            s.append(" ");
            s.append(&operand_to_text(b, op, true, pad, nums));
            s
        },
        Expr::Table(fs) => table_to_text(fs, pad, nums),
    }
}

fn table_to_text(fs: &Vec<TableField>, pad: &str, nums: &TextMap) -> (r: String)
    ensures
        r@ == expr_text(ExprV::Table(fields(fs@)), pad@, nums@),
    decreases fs, 0nat,
{
    assert(fields(fs@).len() == fs@.len());
    if fs.len() == 0 {
        owned("{}")
    } else if table_needs_multiline(fs) {
        let mut deeper = owned(pad);
        push_char(&mut deeper, '\t');
        let mut s = owned("{\n");
        s.append(&rows_to_text(fs, &deeper, nums));
        s.append(pad);
        s.append("}");
        s
    } else {
        let mut s = owned("{");
        s.append(&fields_to_text(fs, pad, nums));
        s.append("}");
        s
    }
}

fn prefix_to_text(e: &Expr, pad: &str, nums: &TextMap) -> (r: String)
    ensures
        r@ == prefix_text(e@, pad@, nums@),
    decreases e, 1nat,
{
    bracket(expr_to_text(e, pad, nums), !is_prefix_expr(e))
}

fn operand_to_text(e: &Expr, op: &str, right: bool, pad: &str, nums: &TextMap) -> (r: String)
    ensures
        r@ == operand_text(e@, op@, right, pad@, nums@),
    decreases e, 1nat,
{
    bracket(expr_to_text(e, pad, nums), binary_brackets(e, op, right))
}

fn exprs_to_text(es: &[Expr], pad: &str, nums: &TextMap) -> (r: String)
    ensures
        r@ == exprs_text(exprs(es@), pad@, nums@),
    decreases es@, 0nat,
{
    let ghost v = exprs(es@);
    let mut s = String::new();
    let mut i: usize = 0;
    while i < es.len()
        invariant
            i <= es.len(),
            v == exprs(es@),
            s@ == exprs_text(v.take(i as int), pad@, nums@),
        decreases es.len() - i,
    {
        proof {
            let t = v.take(i + 1);
            assert(t.drop_last() =~= v.take(i as int));
            assert(t.last() == v[i as int]);
            assert(v[i as int] == es@[i as int]@);
        }
        let t = expr_to_text(&es[i], pad, nums);
        if i > 0 {
            s.append(", ");
            s.append(&t);
        } else {
            s = t;
        }
        i += 1;
    }
    assert(v.take(i as int) =~= v);
    s
}

fn fields_to_text(fs: &[TableField], pad: &str, nums: &TextMap) -> (r: String)
    ensures
        r@ == fields_text(fields(fs@), pad@, nums@),
    decreases fs@, 0nat,
{
    let ghost v = fields(fs@);
    let mut s = String::new();
    let mut i: usize = 0;
    while i < fs.len()
        invariant
            i <= fs.len(),
            v == fields(fs@),
            s@ == fields_text(v.take(i as int), pad@, nums@),
        decreases fs.len() - i,
    {
        proof {
            let t = v.take(i + 1);
            assert(t.drop_last() =~= v.take(i as int));
            assert(t.last() == v[i as int]);
            assert(v[i as int] == fs@[i as int]@);
        }
        let t = field_to_text(&fs[i], pad, nums);
        if i > 0 {
            s.append(", ");
            s.append(&t);
        } else {
            s = t;
        }
        i += 1;
    }
    assert(v.take(i as int) =~= v);
    s
}

fn rows_to_text(fs: &[TableField], pad: &str, nums: &TextMap) -> (r: String)
    ensures
        r@ == rows_text(fields(fs@), pad@, nums@),
    decreases fs@, 0nat,
{
    let ghost v = fields(fs@);
    let mut s = String::new();
    let mut i: usize = 0;
    while i < fs.len()
        invariant
            i <= fs.len(),
            v == fields(fs@),
            s@ == rows_text(v.take(i as int), pad@, nums@),
        decreases fs.len() - i,
    {
        proof {
            let t = v.take(i + 1);
            assert(t.drop_last() =~= v.take(i as int));
            assert(t.last() == v[i as int]);
            assert(v[i as int] == fs@[i as int]@);
        }
        s.append(pad);
        s.append(&field_to_text(&fs[i], pad, nums));
        s.append(",\n");
        i += 1;
    }
    assert(v.take(i as int) =~= v);
    s
}

fn field_to_text(f: &TableField, pad: &str, nums: &TextMap) -> (r: String)
    ensures
        r@ == field_text(f@, pad@, nums@),
    decreases f, 0nat,
{
    match f {
        TableField::Item(e) => expr_to_text(e, pad, nums),
        TableField::Named(n, e) => {
            let mut s = n.clone();
            s.append(" = ");
            s.append(&expr_to_text(e, pad, nums));
            s
        },
        TableField::Keyed(k, e) => {
            let mut s = owned("[");
            s.append(&expr_to_text(k, pad, nums));
            s.append("] = ");
            s.append(&expr_to_text(e, pad, nums));
            s
        },
    }
}

/// `n` tabs.
pub open spec fn tabs(n: nat) -> Text {
    Seq::new(n, |i: int| '\t')
}

fn tabs_of(n: usize) -> (r: String)
    ensures
        r@ == tabs(n as nat),
{
    let mut s = String::new();
    let mut i: usize = 0;
    assert(s@ =~= tabs(0));
    while i < n
        invariant
            i <= n,
            s@ == tabs(i as nat),
        decreases n - i,
    {
        push_char(&mut s, '\t');
        i += 1;
        assert(s@ =~= tabs(i as nat));
    }
    s
}

/// The text of `e` in a line that begins with `indent` tabs.
pub fn render_expr_at(e: &Expr, indent: usize, nums: &TextMap) -> (r: String)
    ensures
        r@ == expr_text(e@, tabs(indent as nat), nums@),
{
    expr_to_text(e, &tabs_of(indent), nums)
}

/// The text of `e`.
pub fn render_expr(e: &Expr, nums: &TextMap) -> (r: String)
    ensures
        r@ == expr_text(e@, tabs(0), nums@),
{
    render_expr_at(e, 0, nums)
}

// ---- statements -------------------------------------------------------------------------------------------------

/// `x = x op e`, as its variable, its operator and `e`.
pub open spec fn self_update(targets: Seq<ExprV>, values: Seq<ExprV>) -> Option<(Text, Text, ExprV)> {
    if targets.len() == 1 && values.len() == 1 {
        match (targets[0], values[0]) {
            (ExprV::Var(n), ExprV::Binary(op, left, right)) => if compound(op) && *left == ExprV::Var(n) {
                Some((n, op, *right))
            } else {
                None
            },
            _ => None,
        }
    } else {
        None
    }
}

/// The expressions of a generic `for`, without `nil`s at the end.
pub open spec fn iterators(es: Seq<ExprV>) -> Seq<ExprV>
    decreases es.len(),
{
    if es.len() > 1 && es.last() is Nil {
        iterators(es.drop_last())
    } else {
        es
    }
}

/// Whether `s` is printed as a function.
pub open spec fn function_stmt(s: StmtV) -> bool {
    match s {
        StmtV::Local { names, values } => local_function(names, values, Seq::empty()) is Some,
        StmtV::Assign { targets, values } => assigned_function(targets, values, Seq::empty()) is Some,
        _ => false,
    }
}

/// Whether a blank line separates `prev` and `next` in a block of `len` statements, which stands
/// inside another one where `inner`.
pub open spec fn blank_between(prev: StmtV, next: StmtV, len: nat, inner: bool) -> bool {
    if len <= 2 && inner {
        function_stmt(prev) || function_stmt(next)
    } else if len <= 4 && inner && next is Return {
        false
    } else {
        function_stmt(prev) || function_stmt(next) || prev is If || prev is Loop || next is If || next is Loop || next is Return
    }
}

/// The text of one simple statement, without indentation and line end.
pub open spec fn simple_text(s: StmtV, pad: Text, nums: Map<Text, Text>) -> Text {
    match s {
        StmtV::Local { names, values } => match local_function(names, values, pad) {
            Some(t) => t,
            None => if values.len() == 0 {
                "local "@ + joined(names)
            } else {
                "local "@ + joined(names) + " = "@ + exprs_text(values, pad, nums)
            },
        },
        StmtV::Assign { targets, values } => match assigned_function(targets, values, pad) {
            Some(t) => t,
            None => match self_update(targets, values) {
                Some((n, op, e)) => n + " "@ + op + "= "@ + expr_text(e, pad, nums),
                None => exprs_text(targets, pad, nums) + " = "@ + exprs_text(values, pad, nums),
            },
        },
        StmtV::Call(e) => expr_text(e, pad, nums),
        StmtV::Return(es) => if es.len() == 0 {
            "return"@
        } else {
            "return "@ + exprs_text(es, pad, nums)
        },
        StmtV::Break => "break"@,
        StmtV::Continue => "continue"@,
        StmtV::Label(n) => "::"@ + n + "::"@,
        StmtV::Goto(n) => "goto "@ + n,
        StmtV::Comment(t) => "-- "@ + t,
        _ => Seq::empty(),
    }
}

/// The first line of a loop, without indentation and line end.
pub open spec fn head_text(h: LoopHead, pad: Text, nums: Map<Text, Text>) -> Text {
    match h {
        LoopHead::While(c) => "while "@ + expr_text(c, pad, nums) + " do"@,
        LoopHead::Repeat(_) => "repeat"@,
        LoopHead::Numeric { var, start, limit, step } => {
            let t = "for "@ + var + " = "@ + expr_text(start, pad, nums) + ", "@ + expr_text(limit, pad, nums);
            match step {
                Some(e) => t + ", "@ + expr_text(e, pad, nums) + " do"@,
                None => t + " do"@,
            }
        },
        LoopHead::Generic { vars, exprs } => "for "@ + joined(vars) + " in "@ + exprs_text(iterators(exprs), pad, nums)
            + " do"@,
    }
}

/// The last line of a loop, without indentation and line end.
pub open spec fn tail_text(h: LoopHead, pad: Text, nums: Map<Text, Text>) -> Text {
    match h {
        LoopHead::Repeat(c) => "until "@ + expr_text(c, pad, nums),
        _ => "end"@,
    }
}

/// The text of `s`, with `pad` in front of each of its lines.
pub open spec fn stmt_text(s: StmtV, pad: Text, nums: Map<Text, Text>) -> Text
    decreases s, 0nat,
{
    match s {
        StmtV::If { cond, then_body, else_body } => pad + "if "@ + expr_text(cond, pad, nums) + " then\n"@ + block_text(
            then_body,
            pad.push('\t'),
            nums,
        ) + else_text(else_body, pad, nums),
        StmtV::Loop { head, body } => pad + head_text(head, pad, nums) + "\n"@ + block_text(body, pad.push('\t'), nums) + pad
            + tail_text(head, pad, nums) + "\n"@,
        _ => pad + simple_text(s, pad, nums) + "\n"@,
    }
}

/// The text of what follows the first branch of an `if`; a single `if` continues the chain.
pub open spec fn else_text(b: Block, pad: Text, nums: Map<Text, Text>) -> Text
    decreases b, 2nat,
{
    if b.len() == 0 {
        pad + "end\n"@
    } else if b.len() == 1 && b[0] is If {
        elseif_text(b[0], pad, nums)
    } else {
        pad + "else\n"@ + block_text(b, pad.push('\t'), nums) + pad + "end\n"@
    }
}

pub open spec fn elseif_text(s: StmtV, pad: Text, nums: Map<Text, Text>) -> Text
    decreases s, 1nat,
{
    match s {
        StmtV::If { cond, then_body, else_body } => pad + "elseif "@ + expr_text(cond, pad, nums) + " then\n"@ + block_text(
            then_body,
            pad.push('\t'),
            nums,
        ) + else_text(else_body, pad, nums),
        _ => Seq::empty(),
    }
}

/// The text of the first `k` statements of `b`.
pub open spec fn block_text_up_to(b: Block, k: int, pad: Text, nums: Map<Text, Text>) -> Text
    decreases b, 0nat, k,
{
    if k <= 0 || k > b.len() {
        Seq::empty()
    } else if k > 1 && blank_between(b[k - 2], b[k - 1], b.len(), pad.len() > 0) {
        block_text_up_to(b, k - 1, pad, nums).push('\n') + stmt_text(b[k - 1], pad, nums)
    } else {
        block_text_up_to(b, k - 1, pad, nums) + stmt_text(b[k - 1], pad, nums)
    }
}

/// The text of `b`, with `pad` in front of each of its lines.
pub open spec fn block_text(b: Block, pad: Text, nums: Map<Text, Text>) -> Text
    decreases b, 1nat,
{
    block_text_up_to(b, b.len() as int, pad, nums)
}

fn self_update_of<'a>(targets: &'a [Expr], values: &'a [Expr]) -> (r: Option<(&'a String, &'static str, &'a Expr)>)
    ensures
        match r {
            Some((n, op, e)) => self_update(exprs(targets@), exprs(values@)) == Some((n@, op@, e@)),
            None => self_update(exprs(targets@), exprs(values@)) is None,
        },
{
    assert(exprs(values@).len() == values@.len());
    assert(exprs(targets@).len() == targets@.len());
    if targets.len() != 1 || values.len() != 1 {
        return None;
    }
    assert(exprs(values@)[0] == values@[0]@);
    assert(exprs(targets@)[0] == targets@[0]@);
    match as_var(&targets[0]) {
        Some(n) => match &values[0] {
            Expr::Binary(op, left, right) => {
                if compound_assignment_op(op) {
                    if let Some(m) = as_var(left) {
                        if str_eq(m, n) {
                            return Some((n, *op, right));
                        }
                    }
                }
                None
            },
            _ => None,
        },
        None => None,
    }
}

fn iterators_to_text(es: &Vec<Expr>, pad: &str, nums: &TextMap) -> (r: String)
    ensures
        r@ == exprs_text(iterators(exprs(es@)), pad@, nums@),
{
    let ghost v = exprs(es@);
    let mut end: usize = es.len();
    assert(v.take(end as int) =~= v);
    while end > 1 && matches!(es[end - 1], Expr::Nil)
        invariant
            end <= es.len(),
            v == exprs(es@),
            iterators(v.take(end as int)) == iterators(v),
        decreases end,
    {
        assert(v[end - 1] == es@[end - 1]@);
        assert(v.take(end as int).drop_last() =~= v.take(end - 1));
        assert(v.take(end as int).last() == v[end - 1]);
        end -= 1;
    }
    proof {
        if end > 1 {
            assert(v[end - 1] == es@[end - 1]@);
            assert(v.take(end as int).last() == v[end - 1]);
        }
    }
    let kept = vstd::slice::slice_subrange(es.as_slice(), 0, end);
    assert(exprs(kept@) =~= v.take(end as int));
    exprs_to_text(kept, pad, nums)
}

/// Whether there is a text does not depend on the indentation.
proof fn function_at_any_indent(s: StmtV, pad: Text)
    ensures
        s matches StmtV::Local { names, values } ==> function_stmt(s) == (local_function(names, values, pad) is Some),
        s matches StmtV::Assign { targets, values } ==> function_stmt(s) == (assigned_function(targets, values, pad) is Some),
{
}

fn renders_as_function(s: &Stmt) -> (r: bool)
    ensures
        r == function_stmt(s@),
{
    proof {
        function_at_any_indent(s@, ""@);
    }
    match s {
        Stmt::Local { names, values } => local_function_text(names, values, "").is_some(),
        Stmt::Assign { targets, values } => assignment_function_text(targets, values, "").is_some(),
        _ => false,
    }
}

fn is_block_stmt(s: &Stmt) -> (r: bool)
    ensures
        r == (s@ is If || s@ is Loop),
{
    matches!(
        s,
        Stmt::If { .. } | Stmt::While { .. } | Stmt::Repeat { .. } | Stmt::NumericFor { .. } | Stmt::GenericFor { .. }
    )
}

fn wants_blank_line_between(prev: &Stmt, next: &Stmt, len: usize, inner: bool) -> (r: bool)
    ensures
        r == blank_between(prev@, next@, len as nat, inner),
{
    if len <= 2 && inner {
        return renders_as_function(prev) || renders_as_function(next);
    }
    if len <= 4 && inner && matches!(next, Stmt::Return(_)) {
        return false;
    }
    renders_as_function(prev) || renders_as_function(next) || is_block_stmt(prev) || is_block_stmt(next) || matches!(
        next,
        Stmt::Return(_)
    )
}

fn local_to_text(names: &Vec<String>, values: &Vec<Expr>, pad: &str, nums: &TextMap) -> (r: String)
    ensures
        r@ == simple_text(StmtV::Local { names: texts(names@), values: exprs(values@) }, pad@, nums@),
{
    assert(exprs(values@).len() == values@.len());
    match local_function_text(names, values, pad) {
        Some(t) => t,
        None => {
            let mut s = owned("local ");
            s.append(&join_names(names));
            if values.len() > 0 {
                s.append(" = ");
                s.append(&exprs_to_text(values, pad, nums));
            }
            s
        },
    }
}

fn assign_to_text(targets: &Vec<Expr>, values: &Vec<Expr>, pad: &str, nums: &TextMap) -> (r: String)
    ensures
        r@ == simple_text(StmtV::Assign { targets: exprs(targets@), values: exprs(values@) }, pad@, nums@),
{
    match assignment_function_text(targets, values, pad) {
        Some(t) => t,
        None => match self_update_of(targets, values) {
            Some((n, op, e)) => {
                let mut s = n.clone();
                s.append(" ");
                s.append(op);
                s.append("= ");
                s.append(&expr_to_text(e, pad, nums));
                s
            },
            None => {
                let mut s = exprs_to_text(targets, pad, nums);
                s.append(" = ");
                s.append(&exprs_to_text(values, pad, nums));
                s
            },
        },
    }
}

fn simple_to_text(st: &Stmt, pad: &str, nums: &TextMap) -> (r: String)
    ensures
        r@ == simple_text(st@, pad@, nums@),
{
    match st {
        Stmt::Local { names, values } => local_to_text(names, values, pad, nums),
        Stmt::Assign { targets, values } => assign_to_text(targets, values, pad, nums),
        Stmt::Call(e) => expr_to_text(e, pad, nums),
        Stmt::Return(es) => {
            assert(exprs(es@).len() == es@.len());
            if es.len() == 0 {
                owned("return")
            } else {
                let mut s = owned("return ");
                s.append(&exprs_to_text(es, pad, nums));
                s
            }
        },
        Stmt::Break => owned("break"),
        Stmt::Continue => owned("continue"),
        Stmt::Label(n) => {
            let mut s = owned("::");
            s.append(n);
            s.append("::");
            s
        },
        Stmt::Goto(n) => {
            let mut s = owned("goto ");
            s.append(n);
            s
        },
        Stmt::Comment(t) => {
            let mut s = owned("-- ");
            s.append(t);
            s
        },
        _ => String::new(),
    }
}

fn head_to_text(st: &Stmt, pad: &str, nums: &TextMap) -> (r: String)
    requires
        st@ is Loop,
    ensures
        r@ == head_text(st@->head, pad@, nums@),
{
    match st {
        Stmt::While { cond, .. } => {
            let mut s = owned("while ");
            s.append(&expr_to_text(cond, pad, nums));
            s.append(" do");
            s
        },
        Stmt::NumericFor { var, start, limit, step, .. } => {
            let mut s = owned("for ");
            s.append(var);
            s.append(" = ");
            s.append(&expr_to_text(start, pad, nums));
            s.append(", ");
            s.append(&expr_to_text(limit, pad, nums));
            if let Some(e) = step {
                s.append(", ");
                s.append(&expr_to_text(e, pad, nums));
            }
            s.append(" do");
            s
        },
        Stmt::GenericFor { vars, exprs, .. } => {
            let mut s = owned("for ");
            s.append(&join_names(vars));
            s.append(" in ");
            s.append(&iterators_to_text(exprs, pad, nums));
            s.append(" do");
            s
        },
        _ => owned("repeat"),
    }
}

fn tail_to_text(st: &Stmt, pad: &str, nums: &TextMap) -> (r: String)
    requires
        st@ is Loop,
    ensures
        r@ == tail_text(st@->head, pad@, nums@),
{
    match st {
        Stmt::Repeat { cond, .. } => {
            let mut s = owned("until ");
            s.append(&expr_to_text(cond, pad, nums));
            s
        },
        _ => owned("end"),
    }
}

fn one_deeper(pad: &str) -> (r: String)
    ensures
        r@ == pad@.push('\t'),
{
    let mut s = owned(pad);
    push_char(&mut s, '\t');
    s
}

fn stmt_to_text(st: &Stmt, pad: &str, nums: &TextMap) -> (r: String)
    ensures
        r@ == stmt_text(st@, pad@, nums@),
    decreases st, 0nat,
{
    if let Stmt::If { cond, then_body, else_body } = st {
        let mut s = owned(pad);
        s.append("if ");
        s.append(&expr_to_text(cond, pad, nums));
        s.append(" then\n");
        s.append(&block_to_text(then_body, &one_deeper(pad), nums));
        s.append(&else_to_text(else_body, pad, nums));
        return s;
    }
    match crate::ast::loop_body(st) {
        Some(body) => {
            let mut s = owned(pad);
            s.append(&head_to_text(st, pad, nums));
            s.append("\n");
            s.append(&block_to_text(body, &one_deeper(pad), nums));
            s.append(pad);
            s.append(&tail_to_text(st, pad, nums));
            s.append("\n");
            s
        },
        None => {
            let mut s = owned(pad);
            s.append(&simple_to_text(st, pad, nums));
            s.append("\n");
            s
        },
    }
}

fn else_to_text(b: &Vec<Stmt>, pad: &str, nums: &TextMap) -> (r: String)
    ensures
        r@ == else_text(block(b@), pad@, nums@),
    decreases b, 0nat,
{
    assert(block(b@).len() == b@.len());
    if b.len() == 0 {
        let mut s = owned(pad);
        s.append("end\n");
        return s;
    }
    assert(block(b@)[0] == b@[0]@);
    if b.len() == 1 {
        if let Stmt::If { cond, then_body, else_body } = &b[0] {
            let mut s = owned(pad);
            s.append("elseif ");
            s.append(&expr_to_text(cond, pad, nums));
            s.append(" then\n");
            s.append(&block_to_text(then_body, &one_deeper(pad), nums));
            s.append(&else_to_text(else_body, pad, nums));
            return s;
        }
    }
    let mut s = owned(pad);
    s.append("else\n");
    s.append(&block_to_text(b, &one_deeper(pad), nums));
    s.append(pad);
    s.append("end\n");
    s
}

fn block_to_text(b: &[Stmt], pad: &str, nums: &TextMap) -> (r: String)
    ensures
        r@ == block_text(block(b@), pad@, nums@),
    decreases b@, 0nat,
{
    let ghost v = block(b@);
    let n: usize = b.len();
    let inner = chars_of(pad).len() > 0;
    let mut s = String::new();
    let mut i: usize = 0;
    while i < n
        invariant
            i <= n,
            n == b.len(),
            v == block(b@),
            inner == (pad@.len() > 0),
            s@ == block_text_up_to(v, i as int, pad@, nums@),
        decreases n - i,
    {
        assert(v[i as int] == b@[i as int]@);
        if i > 0 {
            assert(v[i - 1] == b@[i - 1]@);
            if wants_blank_line_between(&b[i - 1], &b[i], n, inner) {
                push_char(&mut s, '\n');
            }
        }
        s.append(&stmt_to_text(&b[i], pad, nums));
        i += 1;
    }
    s
}

/// The text of `stmts`, with `indent` tabs in front of each line.
pub fn render_block(stmts: &[Stmt], indent: usize, nums: &TextMap) -> (r: String)
    ensures
        r@ == block_text(block(stmts@), tabs(indent as nat), nums@),
{
    block_to_text(stmts, &tabs_of(indent), nums)
}

// ---- how the text is read ---------------------------------------------------------------------------------------

/// How tightly Luau reads a binary operator: the weakest is `or`. Unary operators stand between
/// multiplication and `^`.
pub open spec fn reading_level(op: Text) -> Option<int> {
    if op == "or"@ {
        Some(0)
    } else if op == "and"@ {
        Some(1)
    } else if op == "<"@ || op == ">"@ || op == "<="@ || op == ">="@ || op == "~="@ || op == "=="@ {
        Some(2)
    } else if op == ".."@ {
        Some(3)
    } else if op == "+"@ || op == "-"@ {
        Some(4)
    } else if op == "*"@ || op == "/"@ || op == "//"@ || op == "%"@ {
        Some(5)
    } else if op == "^"@ {
        Some(7)
    } else {
        None
    }
}

/// Whether Luau reads `a inner b op c`, or on the right hand side `c op a inner b`, so that `inner`
/// belongs together.
pub open spec fn read_together(inner: Text, op: Text, right: bool) -> bool {
    match (reading_level(inner), reading_level(op)) {
        (Some(i), Some(o)) => i > o || (i == o && right == (op == ".."@ || op == "^"@)),
        _ => false,
    }
}

proof fn operators_differ()
    ensures
        "or"@.len() == 2 && "and"@.len() == 3 && ".."@.len() == 2 && "//"@.len() == 2 && "+"@.len() == 1 && "-"@.len() == 1
            && "*"@.len() == 1 && "/"@.len() == 1 && "%"@.len() == 1 && "^"@.len() == 1 && "<"@.len() == 1 && ">"@.len()
            == 1 && "<="@.len() == 2 && ">="@.len() == 2 && "=="@.len() == 2 && "~="@.len() == 2,
        "or"@[0] == 'o' && ".."@[0] == '.' && "//"@[0] == '/' && "+"@[0] == '+' && "-"@[0] == '-' && "*"@[0] == '*'
            && "/"@[0] == '/' && "%"@[0] == '%' && "^"@[0] == '^' && "<"@[0] == '<' && ">"@[0] == '>' && "<="@[0] == '<'
            && ">="@[0] == '>' && "=="@[0] == '=' && "~="@[0] == '~',
{
    reveal_strlit("or");
    reveal_strlit("and");
    reveal_strlit("..");
    reveal_strlit("//");
    reveal_strlit("+");
    reveal_strlit("-");
    reveal_strlit("*");
    reveal_strlit("/");
    reveal_strlit("%");
    reveal_strlit("^");
    reveal_strlit("<");
    reveal_strlit(">");
    reveal_strlit("<=");
    reveal_strlit(">=");
    reveal_strlit("==");
    reveal_strlit("~=");
}

/// An operand without brackets is read as the operand that it is: a binary operation belongs
/// together, and a sign or `not` belongs to its own operand.
pub proof fn operands_are_read_as_written(e: ExprV, op: Text, right: bool, pad: Text, nums: Map<Text, Text>)
    requires
        reading_level(op) is Some,
        e matches ExprV::Binary(inner, _, _) ==> reading_level(inner) is Some,
    ensures
        operand_text(e, op, right, pad, nums) == "("@ + expr_text(e, pad, nums) + ")"@ || {
            &&& operand_text(e, op, right, pad, nums) == expr_text(e, pad, nums)
            &&& e matches ExprV::Binary(inner, _, _) ==> read_together(inner, op, right)
            &&& e is Unary ==> op != "^"@
        },
{
    operators_differ();
}

/// The operand of a unary operator without brackets is read as its operand: only `^` is read before
/// the operator, and no two signs make a comment.
pub proof fn unary_operands_are_read_as_written(op: Text, a: ExprV, pad: Text, nums: Map<Text, Text>)
    requires
        a matches ExprV::Binary(inner, _, _) ==> reading_level(inner) is Some,
    ensures
        ({
            let e = ExprV::Unary(op, Box::new(a));
            let inside = expr_text(a, pad, nums);
            expr_text(e, pad, nums) == op + ("("@ + inside + ")"@) || {
                &&& expr_text(e, pad, nums) == op + inside
                &&& a matches ExprV::Binary(inner, _, _) ==> inner == "^"@
                &&& a matches ExprV::Unary(inner, _) ==> !(spaces_trimmed(op) == "-"@ && spaces_trimmed(inner) == "-"@)
            }
        }),
{
    operators_differ();
}

} // verus!
