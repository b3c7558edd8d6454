//! Which expressions can be moved, duplicated or dropped.
use vstd::prelude::*;

use crate::ast::{as_var, exprs, fields, Expr, ExprV, FieldV, TableField};
use crate::text::{chars_of, str_eq, string_of, Text};

verus! {

/// Whether `n` names a datatype whose constructors only build a value.
pub open spec fn datatype(n: Text) -> bool {
    n == "Color3"@
        || n == "Vector2"@
        || n == "Vector3"@
        || n == "CFrame"@
        || n == "UDim"@
        || n == "UDim2"@
        || n == "Rect"@
        || n == "Ray"@
        || n == "BrickColor"@
        || n == "NumberRange"@
        || n == "NumberSequence"@
        || n == "NumberSequenceKeypoint"@
        || n == "ColorSequence"@
        || n == "ColorSequenceKeypoint"@
        || n == "TweenInfo"@
}

/// Whether `n` names a constructor of such a datatype.
pub open spec fn constructor(n: Text) -> bool {
    n == "new"@
        || n == "fromRGB"@
        || n == "fromHSV"@
        || n == "fromHex"@
        || n == "fromScale"@
        || n == "fromOffset"@
        || n == "fromEulerAnglesXYZ"@
        || n == "fromEulerAnglesYXZ"@
        || n == "fromOrientation"@
        || n == "fromAxisAngle"@
        || n == "fromMatrix"@
        || n == "lookAt"@
        || n == "Angles"@
}

/// The position of the first dot from `i` on, or the length where there is none.
pub open spec fn dot_from(n: Text, i: int) -> int
    decreases n.len() - i,
{
    if i < 0 || i >= n.len() {
        n.len() as int
    } else if n[i] == '.' {
        i
    } else {
        dot_from(n, i + 1)
    }
}

/// Whether the dotted path `n` is a datatype and one of its constructors.
pub open spec fn constructor_path(n: Text) -> bool {
    let k = dot_from(n, 0);
    k < n.len() && datatype(n.subrange(0, k)) && constructor(n.subrange(k + 1, n.len() as int))
}

/// Whether calling `f` only builds a value.
pub open spec fn builds_value(f: ExprV) -> bool {
    match f {
        ExprV::Var(n) => constructor_path(n),
        ExprV::Field(t, c) => *t matches ExprV::Var(n) && datatype(n) && constructor(c),
        _ => false,
    }
}

/// Whether evaluating `e` has no effect: it calls nothing but datatype constructors.
pub open spec fn pure(e: ExprV) -> bool
    decreases e,
{
    match e {
        ExprV::Index(t, k) => pure(*t) && pure(*k),
        ExprV::Field(t, _) => pure(*t),
        ExprV::Unary(_, a) => pure(*a),
        ExprV::Binary(_, a, b) => pure(*a) && pure(*b),
        ExprV::Table(fs) => pure_fields(fs),
        ExprV::Call(f, args) => builds_value(*f) && pure_all(args),
        ExprV::MethodCall(_, _, _) => false,
        ExprV::Raw(_) => false,
        _ => true,
    }
}

pub open spec fn pure_all(es: Seq<ExprV>) -> bool
    decreases es,
{
    forall|i: int| 0 <= i < es.len() ==> pure(#[trigger] es[i])
}

pub open spec fn pure_fields(fs: Seq<FieldV>) -> bool
    decreases fs,
{
    forall|i: int| 0 <= i < fs.len() ==> pure_field(#[trigger] fs[i])
}

pub open spec fn pure_field(f: FieldV) -> bool
    decreases f,
{
    match f {
        FieldV::Item(e) => pure(e),
        FieldV::Named(_, e) => pure(e),
        FieldV::Keyed(k, e) => pure(k) && pure(e),
    }
}

fn is_datatype(n: &str) -> (r: bool)
    ensures
        r == datatype(n@),
{
    str_eq(n, "Color3") || str_eq(n, "Vector2") || str_eq(n, "Vector3") || str_eq(n, "CFrame") || str_eq(n, "UDim") || str_eq(n, "UDim2") || str_eq(n, "Rect") || str_eq(n, "Ray") || str_eq(n, "BrickColor") || str_eq(n, "NumberRange") || str_eq(n, "NumberSequence") || str_eq(n, "NumberSequenceKeypoint") || str_eq(n, "ColorSequence") || str_eq(n, "ColorSequenceKeypoint") || str_eq(n, "TweenInfo")
}

fn is_constructor(n: &str) -> (r: bool)
    ensures
        r == constructor(n@),
{
    str_eq(n, "new") || str_eq(n, "fromRGB") || str_eq(n, "fromHSV") || str_eq(n, "fromHex") || str_eq(n, "fromScale") || str_eq(n, "fromOffset") || str_eq(n, "fromEulerAnglesXYZ") || str_eq(n, "fromEulerAnglesYXZ") || str_eq(n, "fromOrientation") || str_eq(n, "fromAxisAngle") || str_eq(n, "fromMatrix") || str_eq(n, "lookAt") || str_eq(n, "Angles")
}

fn is_constructor_path(n: &str) -> (r: bool)
    ensures
        r == constructor_path(n@),
{
    let cs = chars_of(n);
    let mut k: usize = 0;
    while k < cs.len() && cs[k] != '.'
        invariant
            k <= cs.len(),
            cs@ == n@,
            dot_from(n@, 0) == dot_from(n@, k as int),
        decreases cs.len() - k,
    {
        k += 1;
    }
    if k >= cs.len() {
        return false;
    }
    let head = string_of(&cs, 0, k);
    let tail = string_of(&cs, k + 1, cs.len());
    is_datatype(&head) && is_constructor(&tail)
}

fn only_builds_value(f: &Expr) -> (r: bool)
    ensures
        r == builds_value(f@),
{
    match f {
        Expr::Var(n) => is_constructor_path(n),
        Expr::Field(t, c) => match as_var(t) {
            Some(n) => is_datatype(n) && is_constructor(c),
            None => false,
        },
        _ => false,
    }
}

/// Whether evaluating `e` has no effect.
pub fn is_pure(e: &Expr) -> (r: bool)
    ensures
        r == pure(e@),
    decreases e,
{
    match e {
        Expr::Index(t, k) => is_pure(t) && is_pure(k),
        Expr::Field(t, _) => is_pure(t),
        Expr::Unary(_, a) => is_pure(a),
        Expr::Binary(_, a, b) => is_pure(a) && is_pure(b),
        Expr::Table(fs) => all_fields_pure(fs),
        Expr::Call(f, args) => only_builds_value(f) && all_pure(args),
        Expr::MethodCall(_, _, _) => false,
        Expr::Raw(_) => false,
        _ => true,
    }
}

/// Whether evaluating each of `es` has no effect.
pub fn all_pure(es: &[Expr]) -> (r: bool)
    ensures
        r == pure_all(exprs(es@)),
    decreases es@,
{
    let ghost v = exprs(es@);
    let mut i: usize = 0;
    while i < es.len()
        invariant
            i <= es.len(),
            v == exprs(es@),
            forall|j: int| 0 <= j < i ==> pure(#[trigger] v[j]),
        decreases es.len() - i,
    {
        assert(v[i as int] == es@[i as int]@);
        if !is_pure(&es[i]) {
            return false;
        }
        i += 1;
    }
    true
}

pub fn all_fields_pure(fs: &[TableField]) -> (r: bool)
    ensures
        r == pure_fields(fields(fs@)),
    decreases fs@,
{
    let ghost v = fields(fs@);
    let mut i: usize = 0;
    while i < fs.len()
        invariant
            i <= fs.len(),
            v == fields(fs@),
            forall|j: int| 0 <= j < i ==> pure_field(#[trigger] v[j]),
        decreases fs.len() - i,
    {
        assert(v[i as int] == fs@[i as int]@);
        if !field_pure(&fs[i]) {
            return false;
        }
        i += 1;
    }
    true
}

fn field_pure(f: &TableField) -> (r: bool)
    ensures
        r == pure_field(f@),
    decreases f,
{
    match f {
        TableField::Item(e) => is_pure(e),
        TableField::Named(_, e) => is_pure(e),
        TableField::Keyed(k, e) => is_pure(k) && is_pure(e),
    }
}

} // verus!
