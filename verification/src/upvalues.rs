//! The variables that function literals capture.
use vstd::prelude::*;
use vstd::string::StringExecFns;

use crate::ast::{block, Block, Capture, LoopHead, Stmt, StmtV};
use crate::bytecode::{number_name, numbered};
use crate::closures::{
    find_text, literals, literals_in_block, literals_of, retext_block, retexted_block, text_from, Literal, LiteralV,
    Retext,
};
use crate::idents::{identifier, is_identifier, is_luau_keyword, keyword, keyword_listed, keywords};
use crate::machine::{reg_name, Machine, MachineV};
use crate::maps::TextMap;
use crate::names::{insert_all, insert_sorted, NameSet};
use crate::query::{collect, collect_names, Pick};
use crate::split::{is_digit, is_word_char, word_char};
use crate::text::{
    chars_of, decimal, decimal_injective, decimal_nonempty, decimal_of, join_names, joined, owned, push_char,
    spaces_trimmed, str_eq, string_of, strip, stripped, texts, trim_spaces, Text,
};

verus! {

// ---- lines --------------------------------------------------------------------------------------------------

/// The lines of `s` from `a` on, where the line that begins there reaches at least to `i`. Line
/// ends are line feeds, or carriage returns and line feeds.
pub open spec fn lines_from(s: Text, a: int, i: int) -> Seq<Text>
    decreases s.len() - i,
{
    if i < 0 || i >= s.len() {
        if 0 <= a < s.len() {
            seq![s.skip(a)]
        } else {
            Seq::empty()
        }
    } else if s[i] == '\n' {
        seq![s.subrange(a, line_end(s, a, i))] + lines_from(s, i + 1, i + 1)
    } else {
        lines_from(s, a, i + 1)
    }
}

/// Where the line that begins at `a` ends, if its line feed stands at `i`.
pub open spec fn line_end(s: Text, a: int, i: int) -> int {
    if i > a && s[i - 1] == '\r' {
        i - 1
    } else {
        i
    }
}

/// The lines of `s`.
pub open spec fn lines(s: Text) -> Seq<Text> {
    lines_from(s, 0, 0)
}

/// The lines of `s`.
pub fn lines_of(s: &str) -> (r: Vec<String>)
    ensures
        texts(r@) == lines(s@),
{
    let cs = chars_of(s);
    let n: usize = cs.len();
    let mut out: Vec<String> = Vec::new();
    let mut a: usize = 0;
    let mut i: usize = 0;
    assert(texts(out@) + lines(s@) =~= lines(s@));
    while i < n
        invariant
            a <= i <= n,
            n == cs.len(),
            cs@ == s@,
            lines(s@) == texts(out@) + lines_from(s@, a as int, i as int),
        decreases n - i,
    {
        if cs[i] == '\n' {
            let end: usize = if i > a && cs[i - 1] == '\r' {
                i - 1
            } else {
                i
            };
            let l = string_of(&cs, a, end);
            let ghost o = texts(out@);
            let ghost lv = l@;
            let ghost rest = lines_from(s@, i + 1, i + 1);
            out.push(l);
            assert(texts(out@) =~= o.push(lv));
            assert(o + (seq![lv] + rest) =~= texts(out@) + rest);
            a = i + 1;
        }
        i += 1;
    }
    if a < n {
        let l = string_of(&cs, a, n);
        let ghost o = texts(out@);
        assert(l@ =~= s@.skip(a as int));
        out.push(l);
        assert(texts(out@) =~= o + seq![l@]);
    } else {
        assert(texts(out@) + Seq::<Text>::empty() =~= texts(out@));
    }
    out
}

/// Lines, moved right by one tab where they hold something.
pub open spec fn moved_right(ls: Seq<Text>) -> Text
    decreases ls.len(),
{
    if ls.len() == 0 {
        Seq::empty()
    } else if ls.last().len() == 0 {
        moved_right(ls.drop_last()) + "\n"@
    } else {
        moved_right(ls.drop_last()) + "\t"@ + ls.last() + "\n"@
    }
}

/// The text of a function literal.
pub open spec fn function_text(params: Seq<Text>, vararg: bool, body: Text) -> Text {
    "function("@ + joined(params) + (if vararg {
        if params.len() == 0 {
            "..."@
        } else {
            ", ..."@
        }
    } else {
        Seq::empty()
    }) + ")\n"@ + moved_right(lines(body)) + "end"@
}

fn move_right(ls: &Vec<String>) -> (r: String)
    ensures
        r@ == moved_right(texts(ls@)),
{
    let ghost v = texts(ls@);
    let mut out = String::new();
    let mut i: usize = 0;
    while i < ls.len()
        invariant
            i <= ls.len(),
            v == texts(ls@),
            out@ == moved_right(v.take(i as int)),
        decreases ls.len() - i,
    {
        proof {
            let t = v.take(i + 1);
            assert(t.drop_last() =~= v.take(i as int));
            assert(t.last() == v[i as int]);
        }
        if chars_of(&ls[i]).len() > 0 {
            out.append("\t");
            out.append(&ls[i]);
        }
        out.append("\n");
        i += 1;
    }
    assert(v.take(i as int) =~= v);
    out
}

/// The text of a function literal.
pub fn function_literal(params: &Vec<String>, vararg: bool, body: &str) -> (r: String)
    ensures
        r@ == function_text(texts(params@), vararg, body@),
{
    assert(texts(params@).len() == params@.len());
    let mut s = owned("function(");
    s.append(&join_names(params));
    let ghost so_far = s@;
    if vararg {
        if params.len() == 0 {
            s.append("...");
        } else {
            s.append(", ...");
        }
    } else {
        assert(so_far + Seq::<char>::empty() =~= so_far);
    }
    s.append(")\n");
    s.append(&move_right(&lines_of(body)));
    s.append("end");
    s
}

// ---- placeholders -------------------------------------------------------------------------------------------------

/// The end of the digits that begin at `i`.
pub open spec fn digits_end(s: Text, i: int) -> int
    decreases s.len() - i,
{
    if 0 <= i < s.len() && is_digit(s[i]) {
        digits_end(s, i + 1)
    } else {
        i
    }
}

/// The number that `s[a..b]` is in decimal.
pub open spec fn number_value(s: Text, a: int, b: int) -> nat
    decreases b - a,
{
    if b <= a {
        0
    } else {
        number_value(s, a, b - 1) * 10 + ((s[b - 1] as int - 48) as nat)
    }
}

/// Whether a placeholder `u0`, `u1`, ... begins at `i`.
pub open spec fn placeholder_at(s: Text, i: int) -> bool {
    let j = digits_end(s, i + 1);
    &&& s[i] == 'u'
    &&& !(i > 0 && word_char(s[i - 1]))
    &&& j > i + 1
    &&& j >= s.len() || !word_char(s[j])
}

/// `s` from `i` on with placeholders replaced by `names`; inside a string literal, which ends with
/// `quote`, nothing is replaced.
pub open spec fn substituted(s: Text, i: int, quote: Option<char>, names: Seq<Text>) -> Text
    decreases s.len() - i,
{
    if i < 0 || i >= s.len() {
        Seq::empty()
    } else {
        match quote {
            Some(q) => if s[i] == '\\' && i + 1 < s.len() {
                seq![s[i], s[i + 1]] + substituted(s, i + 2, quote, names)
            } else if s[i] == q {
                seq![s[i]] + substituted(s, i + 1, None, names)
            } else {
                seq![s[i]] + substituted(s, i + 1, quote, names)
            },
            None => if s[i] == '"' || s[i] == '\'' {
                seq![s[i]] + substituted(s, i + 1, Some(s[i]), names)
            } else if placeholder_at(s, i) && number_value(s, i + 1, digits_end(s, i + 1)) < names.len() && i < digits_end(
                s,
                i + 1,
            ) <= s.len() {
                names[number_value(s, i + 1, digits_end(s, i + 1)) as int] + substituted(
                    s,
                    digits_end(s, i + 1),
                    None,
                    names,
                )
            } else {
                seq![s[i]] + substituted(s, i + 1, None, names)
            },
        }
    }
}

proof fn digits_end_bounds(s: Text, i: int)
    requires
        0 <= i <= s.len(),
    ensures
        i <= digits_end(s, i) <= s.len(),
        forall|k: int| i <= k < digits_end(s, i) ==> is_digit(#[trigger] s[k]),
    decreases s.len() - i,
{
    if i < s.len() && is_digit(s[i]) {
        digits_end_bounds(s, i + 1);
    }
}

fn end_of_digits(cs: &Vec<char>, from: usize) -> (r: usize)
    requires
        from <= cs.len(),
    ensures
        r == digits_end(cs@, from as int),
        from <= r <= cs.len(),
{
    let mut j: usize = from;
    while j < cs.len() && ('0' <= cs[j] && cs[j] <= '9')
        invariant
            from <= j <= cs.len(),
            digits_end(cs@, from as int) == digits_end(cs@, j as int),
        decreases cs.len() - j,
    {
        j += 1;
    }
    j
}

proof fn number_value_grows(s: Text, a: int, b: int, c: int)
    requires
        a <= b <= c <= s.len(),
        0 <= a,
        forall|k: int| a <= k < c ==> is_digit(#[trigger] s[k]),
    ensures
        number_value(s, a, b) <= number_value(s, a, c),
    decreases c - b,
{
    if b < c {
        number_value_grows(s, a, b, c - 1);
        assert(is_digit(s[c - 1]));
    }
}

/// The number that `cs[a..b]` is in decimal, where it is less than `bound`.
fn small_number(cs: &Vec<char>, a: usize, b: usize, bound: usize) -> (r: Option<usize>)
    requires
        a <= b <= cs.len(),
        forall|k: int| a <= k < b ==> is_digit(#[trigger] cs@[k]),
    ensures
        match r {
            Some(v) => v == number_value(cs@, a as int, b as int) && v < bound,
            None => number_value(cs@, a as int, b as int) >= bound,
        },
{
    let mut v: usize = 0;
    let mut k: usize = a;
    if bound == 0 {
        return None;
    }
    while k < b
        invariant
            a <= k <= b <= cs.len(),
            v < bound,
            v == number_value(cs@, a as int, k as int),
            forall|k: int| a <= k < b ==> is_digit(#[trigger] cs@[k]),
        decreases b - k,
    {
        assert(is_digit(cs@[k as int]));
        let d: u128 = cs[k] as u128 - 48;
        let next: u128 = v as u128 * 10 + d;
        if next >= bound as u128 {
            proof {
                number_value_grows(cs@, a as int, k + 1, b as int);
            }
            return None;
        }
        v = next as usize;
        k += 1;
    }
    Some(v)
}

fn placeholder_end(cs: &Vec<char>, i: usize) -> (r: Option<usize>)
    requires
        i < cs.len(),
    ensures
        match r {
            Some(j) => placeholder_at(cs@, i as int) && j == digits_end(cs@, i + 1) && i < j <= cs.len(),
            None => !placeholder_at(cs@, i as int),
        },
{
    if cs[i] != 'u' || (i > 0 && is_word_char(cs[i - 1])) {
        return None;
    }
    let j: usize = end_of_digits(cs, i + 1);
    if j > i + 1 && (j >= cs.len() || !is_word_char(cs[j])) {
        Some(j)
    } else {
        None
    }
}

/// `text` with the placeholders `u0`, `u1`, ... replaced by `names`, outside of string literals.
pub fn substitute_upvalues(text: &str, names: &Vec<String>) -> (r: String)
    ensures
        r@ == substituted(text@, 0, None, texts(names@)),
{
    let cs = chars_of(text);
    let n: usize = cs.len();
    let ghost s = text@;
    let ghost ns = texts(names@);
    let mut out = String::new();
    let mut quote: Option<char> = None;
    let mut i: usize = 0;
    assert(out@ + substituted(s, 0, None, ns) =~= substituted(s, 0, None, ns));
    while i < n
        invariant
            i <= n,
            n == cs.len(),
            cs@ == s,
            ns == texts(names@),
            substituted(s, 0, None, ns) == out@ + substituted(s, i as int, quote, ns),
        decreases n - i,
    {
        let c = cs[i];
        let ghost o = out@;
        match quote {
            Some(q) => {
                if c == '\\' && i + 1 < n {
                    let ghost rest = substituted(s, i + 2, quote, ns);
                    push_char(&mut out, c);
                    push_char(&mut out, cs[i + 1]);
                    assert(o + (seq![s[i as int], s[i + 1]] + rest) =~= out@ + rest);
                    i += 2;
                } else {
                    push_char(&mut out, c);
                    if c == q {
                        quote = None;
                    }
                    let ghost rest = substituted(s, i + 1, quote, ns);
                    assert(o + (seq![s[i as int]] + rest) =~= out@ + rest);
                    i += 1;
                }
            },
            None => {
                if c == '"' || c == '\'' {
                    push_char(&mut out, c);
                    quote = Some(c);
                    let ghost rest = substituted(s, i + 1, quote, ns);
                    assert(o + (seq![s[i as int]] + rest) =~= out@ + rest);
                    i += 1;
                } else {
                    let mut value: Option<usize> = None;
                    let mut end: usize = i + 1;
                    if let Some(j) = placeholder_end(&cs, i) {
                        proof {
                            digits_end_bounds(s, i + 1);
                        }
                        value = small_number(&cs, i + 1, j, names.len());
                        end = j;
                    }
                    match value {
                        Some(v) => {
                            let ghost rest = substituted(s, end as int, None, ns);
                            out.append(&names[v]);
                            assert(names@[v as int]@ == ns[v as int]);
                            assert(o + (ns[v as int] + rest) =~= out@ + rest);
                            i = end;
                        },
                        None => {
                            let ghost rest = substituted(s, i + 1, None, ns);
                            push_char(&mut out, c);
                            assert(o + (seq![s[i as int]] + rest) =~= out@ + rest);
                            i += 1;
                        },
                    }
                }
            },
        }
    }
    assert(out@ + Seq::<char>::empty() =~= out@);
    out
}

// ---- names that a literal declares ------------------------------------------------------------------------------

/// The parts of `s` from `a` on that commas separate, where the first reaches at least to `i`.
pub open spec fn commas_from(s: Text, a: int, i: int) -> Seq<Text>
    decreases s.len() - i,
{
    if i < 0 || i >= s.len() {
        seq![s.skip(a)]
    } else if s[i] == ',' {
        seq![s.subrange(a, i)] + commas_from(s, i + 1, i + 1)
    } else {
        commas_from(s, a, i + 1)
    }
}

/// The names among `parts`.
pub open spec fn names_among(parts: Seq<Text>) -> Seq<Text>
    decreases parts.len(),
{
    if parts.len() == 0 {
        Seq::empty()
    } else {
        let n = spaces_trimmed(parts.last());
        if identifier(n) && n != "_"@ {
            names_among(parts.drop_last()).push(n)
        } else {
            names_among(parts.drop_last())
        }
    }
}

/// The names in a list with commas.
pub open spec fn comma_names(s: Text) -> Seq<Text> {
    names_among(commas_from(s, 0, 0))
}

fn comma_names_of(s: &str) -> (r: Vec<String>)
    ensures
        texts(r@) == comma_names(s@),
{
    let cs = chars_of(s);
    let n: usize = cs.len();
    let mut parts: Vec<String> = Vec::new();
    let mut a: usize = 0;
    let mut i: usize = 0;
    assert(texts(parts@) + commas_from(s@, 0, 0) =~= commas_from(s@, 0, 0));
    while i < n
        invariant
            a <= i <= n,
            n == cs.len(),
            cs@ == s@,
            commas_from(s@, 0, 0) == texts(parts@) + commas_from(s@, a as int, i as int),
        decreases n - i,
    {
        if cs[i] == ',' {
            let l = string_of(&cs, a, i);
            let ghost o = texts(parts@);
            let ghost lv = l@;
            let ghost rest = commas_from(s@, i + 1, i + 1);
            parts.push(l);
            assert(texts(parts@) =~= o.push(lv));
            assert(o + (seq![lv] + rest) =~= texts(parts@) + rest);
            a = i + 1;
        }
        i += 1;
    }
    let l = string_of(&cs, a, n);
    let ghost o = texts(parts@);
    assert(l@ =~= s@.skip(a as int));
    parts.push(l);
    assert(texts(parts@) =~= o + seq![l@]);
    names_of_parts(&parts)
}

fn names_of_parts(parts: &Vec<String>) -> (r: Vec<String>)
    ensures
        texts(r@) == names_among(texts(parts@)),
{
    let ghost v = texts(parts@);
    let mut out: Vec<String> = Vec::new();
    let mut i: usize = 0;
    assert(texts(out@) =~= Seq::<Text>::empty());
    while i < parts.len()
        invariant
            i <= parts.len(),
            v == texts(parts@),
            texts(out@) == names_among(v.take(i as int)),
        decreases parts.len() - i,
    {
        proof {
            let t = v.take(i + 1);
            assert(t.drop_last() =~= v.take(i as int));
            assert(t.last() == v[i as int]);
        }
        let n = trim_spaces(&parts[i]);
        if is_identifier(&n) && !str_eq(&n, "_") {
            let ghost o = texts(out@);
            let ghost nv = n@;
            out.push(n);
            assert(texts(out@) =~= o.push(nv));
        }
        i += 1;
    }
    assert(v.take(i as int) =~= v);
    out
}

/// What follows the first `p` in `s`.
pub open spec fn after_text(s: Text, p: Text) -> Option<Text> {
    match text_from(s, p, 0) {
        Some(k) => Some(s.skip(k + p.len())),
        None => None,
    }
}

/// What precedes the first `p` in `s`.
pub open spec fn before_text(s: Text, p: Text) -> Option<Text> {
    match text_from(s, p, 0) {
        Some(k) => Some(s.take(k)),
        None => None,
    }
}

fn text_after(s: &str, p: &str) -> (r: Option<String>)
    ensures
        crate::render::opt_string(r) == after_text(s@, p@),
{
    let cs = chars_of(s);
    let n: usize = cs.len();
    match find_text(&cs, p, 0) {
        Some(k) => {
            let m: usize = chars_of(p).len();
            let t = string_of(&cs, k + m, n);
            assert(t@ =~= s@.skip(k + p@.len()));
            Some(t)
        },
        None => None,
    }
}

fn text_before(s: &str, p: &str) -> (r: Option<String>)
    ensures
        crate::render::opt_string(r) == before_text(s@, p@),
{
    let cs = chars_of(s);
    match find_text(&cs, p, 0) {
        Some(k) => {
            let t = string_of(&cs, 0, k);
            assert(t@ =~= s@.take(k as int));
            Some(t)
        },
        None => None,
    }
}

/// `s` up to the first `=`, or all of it.
pub open spec fn up_to_equals(s: Text) -> Text {
    match before_text(s, "="@) {
        Some(t) => t,
        None => s,
    }
}

/// `s` up to the first `(`, or all of it.
pub open spec fn up_to_bracket(s: Text) -> Text {
    match before_text(s, "("@) {
        Some(t) => t,
        None => s,
    }
}

/// The parameters of the function in a line.
pub open spec fn params_in_line(l: Text) -> Seq<Text> {
    match after_text(l, "function"@) {
        Some(a) => match after_text(a, "("@) {
            Some(b) => match before_text(b, ")"@) {
                Some(c) => comma_names(c),
                None => Seq::empty(),
            },
            None => Seq::empty(),
        },
        None => Seq::empty(),
    }
}

/// The local variables that a line declares.
pub open spec fn locals_in_line(l: Text) -> Seq<Text> {
    match stripped(l, "local "@) {
        Some(rest) => {
            let r = match stripped(rest, "function "@) {
                Some(f) => f,
                None => rest,
            };
            comma_names(up_to_bracket(up_to_equals(r)))
        },
        None => Seq::empty(),
    }
}

/// The loop variables that a line declares.
pub open spec fn loop_vars_in_line(l: Text) -> Seq<Text> {
    match stripped(l, "for "@) {
        Some(rest) => match before_text(rest, " in "@) {
            Some(vars) => comma_names(vars),
            None => comma_names(up_to_equals(rest)),
        },
        None => Seq::empty(),
    }
}

/// The names that the first `k` lines declare.
pub open spec fn declared_in_lines(ls: Seq<Text>, k: int) -> Seq<Text>
    decreases k,
{
    if k <= 0 {
        Seq::empty()
    } else {
        let l = spaces_trimmed(ls[k - 1]);
        insert_all(
            insert_all(insert_all(declared_in_lines(ls, k - 1), params_in_line(l)), locals_in_line(l)),
            loop_vars_in_line(l),
        )
    }
}

/// The names that the text of a function literal declares.
pub open spec fn declared_in_text(text: Text) -> Seq<Text> {
    declared_in_lines(lines(text), lines(text).len() as int)
}

fn no_names() -> (r: Vec<String>)
    ensures
        texts(r@) == Seq::<Text>::empty(),
{
    let r: Vec<String> = Vec::new();
    assert(texts(r@) =~= Seq::<Text>::empty());
    r
}

fn params_of_line(l: &str) -> (r: Vec<String>)
    ensures
        texts(r@) == params_in_line(l@),
{
    if let Some(a) = text_after(l, "function") {
        if let Some(b) = text_after(&a, "(") {
            if let Some(c) = text_before(&b, ")") {
                return comma_names_of(&c);
            }
        }
    }
    no_names()
}

fn until_equals(s: &str) -> (r: String)
    ensures
        r@ == up_to_equals(s@),
{
    match text_before(s, "=") {
        Some(t) => t,
        None => owned(s),
    }
}

fn until_bracket(s: &str) -> (r: String)
    ensures
        r@ == up_to_bracket(s@),
{
    match text_before(s, "(") {
        Some(t) => t,
        None => owned(s),
    }
}

fn locals_of_line(l: &str) -> (r: Vec<String>)
    ensures
        texts(r@) == locals_in_line(l@),
{
    match strip(l, "local ") {
        Some(rest) => {
            let r = match strip(&rest, "function ") {
                Some(f) => f,
                None => rest,
            };
            comma_names_of(&until_bracket(&until_equals(&r)))
        },
        None => no_names(),
    }
}

fn loop_vars_of_line(l: &str) -> (r: Vec<String>)
    ensures
        texts(r@) == loop_vars_in_line(l@),
{
    match strip(l, "for ") {
        Some(rest) => match text_before(&rest, " in ") {
            Some(vars) => comma_names_of(&vars),
            None => comma_names_of(&until_equals(&rest)),
        },
        None => no_names(),
    }
}

/// The names that the text of a function literal declares: parameters, locals and loop variables.
pub fn declared_names_in_rendered_closure(text: &str) -> (r: NameSet)
    ensures
        r@ == declared_in_text(text@),
{
    let ls = lines_of(text);
    let ghost v = lines(text@);
    let mut acc = NameSet::new();
    let mut i: usize = 0;
    while i < ls.len()
        invariant
            i <= ls.len(),
            v == texts(ls@),
            acc@ == declared_in_lines(v, i as int),
        decreases ls.len() - i,
    {
        assert(v[i as int] == ls@[i as int]@);
        let l = trim_spaces(&ls[i]);
        acc.insert_all(&params_of_line(&l));
        acc.insert_all(&locals_of_line(&l));
        acc.insert_all(&loop_vars_of_line(&l));
        i += 1;
    }
    acc
}

// ---- fresh names ------------------------------------------------------------------------------------------------

/// `c` as a capital letter, where it is a small one.
pub open spec fn capital(c: char) -> char {
    if 'a' <= c <= 'z' {
        (c as int - 32) as char
    } else {
        c
    }
}

/// The letters and digits of `s` from `i` on, with a capital at the start of every word, and of
/// the first where `up`.
pub open spec fn pascal_from(s: Text, i: int, up: bool) -> Text
    decreases s.len() - i,
{
    if i < 0 || i >= s.len() {
        Seq::empty()
    } else if s[i] == '_' || !word_char(s[i]) {
        pascal_from(s, i + 1, true)
    } else {
        seq![if up { capital(s[i]) } else { s[i] }] + pascal_from(s, i + 1, false)
    }
}

/// `s` as part of a name, with a capital at the start of every word.
pub open spec fn pascal(s: Text) -> Text {
    if pascal_from(s, 0, true).len() == 0 {
        "Value"@
    } else {
        pascal_from(s, 0, true)
    }
}

fn capital_of(c: char) -> (r: char)
    ensures
        r == capital(c),
{
    if 'a' <= c && c <= 'z' {
        (c as u8 - 32) as char
    } else {
        c
    }
}

fn pascal_identifier_fragment(s: &str) -> (r: String)
    ensures
        r@ == pascal(s@),
{
    let cs = chars_of(s);
    let mut out = String::new();
    let mut up = true;
    let mut i: usize = 0;
    assert(out@ + pascal_from(s@, 0, true) =~= pascal_from(s@, 0, true));
    while i < cs.len()
        invariant
            i <= cs.len(),
            cs@ == s@,
            pascal_from(s@, 0, true) == out@ + pascal_from(s@, i as int, up),
        decreases cs.len() - i,
    {
        let c = cs[i];
        let ghost o = out@;
        if c == '_' || !is_word_char(c) {
            up = true;
        } else {
            let d = if up {
                capital_of(c)
            } else {
                c
            };
            let ghost rest = pascal_from(s@, i + 1, false);
            push_char(&mut out, d);
            assert(o + (seq![d] + rest) =~= out@ + rest);
            up = false;
        }
        i += 1;
    }
    assert(out@ + Seq::<char>::empty() =~= out@);
    if chars_of(&out).len() == 0 {
        owned("Value")
    } else {
        out
    }
}

/// What the new name of a captured variable begins with.
pub open spec fn stem(base: Text) -> Text {
    let s = "outer"@ + pascal(base);
    if !identifier(s) || keyword(s) {
        "capturedUpvalue"@
    } else {
        s
    }
}

/// The candidate number `k` for a new name.
pub open spec fn candidate(s: Text, k: nat) -> Text {
    if k == 0 {
        s
    } else {
        s + decimal(k + 1)
    }
}

/// Whether `n` cannot be a new name.
pub open spec fn taken_name(n: Text, declared: Seq<Text>, taken: Seq<Text>) -> bool {
    declared.contains(n) || taken.contains(n) || keyword(n)
}

/// Whether `k` is the first candidate that can be a new name.
pub open spec fn first_free(s: Text, k: nat, declared: Seq<Text>, taken: Seq<Text>) -> bool {
    &&& !taken_name(candidate(s, k), declared, taken)
    &&& forall|j: nat| j < k ==> taken_name(#[trigger] candidate(s, j), declared, taken)
}

/// A new name for `base` that is neither declared nor taken.
pub open spec fn fresh_name(base: Text, declared: Seq<Text>, taken: Seq<Text>) -> Text {
    candidate(stem(base), choose|k: nat| #[trigger] first_free(stem(base), k, declared, taken))
}

/// Different candidates are different names.
proof fn candidates_differ(s: Text, i: nat, j: nat)
    requires
        candidate(s, i) == candidate(s, j),
    ensures
        i == j,
{
    let a = candidate(s, i);
    let b = candidate(s, j);
    decimal_nonempty(i + 1);
    decimal_nonempty(j + 1);
    if i == 0 || j == 0 {
        assert(a.len() == b.len());
    } else {
        assert(a.skip(s.len() as int) =~= decimal(i + 1));
        assert(b.skip(s.len() as int) =~= decimal(j + 1));
        decimal_injective(i + 1, j + 1);
    }
}

/// Only so many candidates can be taken as there are names that take them.
proof fn few_taken(s: Text, k: nat, declared: Seq<Text>, taken: Seq<Text>)
    requires
        forall|j: nat| j < k ==> taken_name(#[trigger] candidate(s, j), declared, taken),
    ensures
        k <= declared.len() + taken.len() + keywords().len(),
{
    let all = declared + taken + keywords();
    let cs = Seq::new(k, |j: int| candidate(s, j as nat));
    assert(cs.no_duplicates()) by {
        assert forall|i: int, j: int| 0 <= i < k && 0 <= j < k && i != j implies cs[i] != cs[j] by {
            if cs[i] == cs[j] {
                candidates_differ(s, i as nat, j as nat);
            }
        }
    }
    assert forall|n: Text| #[trigger] cs.to_set().contains(n) implies all.to_set().contains(n) by {
        let j = choose|j: int| 0 <= j < cs.len() && cs[j] == n;
        assert(taken_name(candidate(s, j as nat), declared, taken));
        if declared.contains(n) {
            let i = choose|i: int| 0 <= i < declared.len() && declared[i] == n;
            assert(all[i] == n);
        } else if taken.contains(n) {
            let i = choose|i: int| 0 <= i < taken.len() && taken[i] == n;
            assert(all[declared.len() + i] == n);
        } else {
            keyword_listed(n);
            let i = choose|i: int| 0 <= i < keywords().len() && keywords()[i] == n;
            assert(all[declared.len() + taken.len() + i] == n);
        }
    }
    cs.unique_seq_to_set();
    all.lemma_cardinality_of_set();
    vstd::set_lib::lemma_len_subset(cs.to_set(), all.to_set());
}

/// There is only one first candidate that can be a new name.
proof fn first_free_unique(s: Text, i: nat, j: nat, declared: Seq<Text>, taken: Seq<Text>)
    requires
        first_free(s, i, declared, taken),
        first_free(s, j, declared, taken),
    ensures
        i == j,
{
    if i < j {
        assert(taken_name(candidate(s, i), declared, taken));
    } else if j < i {
        assert(taken_name(candidate(s, j), declared, taken));
    }
}

proof fn some_free(s: Text, k: nat, declared: Seq<Text>, taken: Seq<Text>) -> (r: nat)
    requires
        forall|j: nat| j < k ==> taken_name(#[trigger] candidate(s, j), declared, taken),
    ensures
        first_free(s, r, declared, taken),
    decreases declared.len() + taken.len() + keywords().len() + 1 - k,
{
    few_taken(s, k, declared, taken);
    if taken_name(candidate(s, k), declared, taken) {
        some_free(s, k + 1, declared, taken)
    } else {
        k
    }
}

/// A new name is neither declared nor taken, and no keyword.
pub proof fn fresh_name_free(base: Text, declared: Seq<Text>, taken: Seq<Text>)
    ensures
        !taken_name(fresh_name(base, declared, taken), declared, taken),
{
    let k = some_free(stem(base), 0, declared, taken);
    assert(first_free(stem(base), k, declared, taken));
}

fn stem_of(base: &str) -> (r: String)
    ensures
        r@ == stem(base@),
{
    let mut s = owned("outer");
    s.append(&pascal_identifier_fragment(base));
    if !is_identifier(&s) || is_luau_keyword(&s) {
        owned("capturedUpvalue")
    } else {
        s
    }
}

fn make_candidate(s: &str, k: u128) -> (r: String)
    requires
        k < u128::MAX,
    ensures
        r@ == candidate(s@, k as nat),
{
    let mut c = owned(s);
    if k > 0 {
        c.append(&decimal_of(k + 1));
    }
    c
}

/// A new name for `base` that neither the literal that captures it declares, nor another variable
/// has.
pub fn fresh_capture_name(base: &str, declared: &NameSet, taken: &NameSet) -> (r: String)
    ensures
        r@ == fresh_name(base@, declared@, taken@),
        !taken_name(r@, declared@, taken@),
{
    let s = stem_of(base);
    let bound: u128 = declared.len() as u128 + taken.len() as u128 + 22;
    assert(keywords().len() == 22);
    let mut k: u128 = 0;
    let mut c = make_candidate(&s, 0);
    while declared.contains(&c) || taken.contains(&c) || is_luau_keyword(&c)
        invariant
            s@ == stem(base@),
            bound == declared@.len() + taken@.len() + 22,
            keywords().len() == 22,
            bound <= 2 * usize::MAX + 22,
            k <= bound,
            c@ == candidate(s@, k as nat),
            forall|j: nat| j < k ==> taken_name(#[trigger] candidate(s@, j), declared@, taken@),
        decreases bound - k,
    {
        proof {
            few_taken(s@, (k + 1) as nat, declared@, taken@);
        }
        k += 1;
        c = make_candidate(&s, k);
    }
    proof {
        assert(first_free(s@, k as nat, declared@, taken@));
        let other = choose|k: nat| #[trigger] first_free(s@, k, declared@, taken@);
        first_free_unique(s@, k as nat, other, declared@, taken@);
    }
    c
}

// ---- names of captured variables ----------------------------------------------------------------------------------

/// The name of `n` after renaming.
pub open spec fn renamed_to(rename: Map<Text, Text>, n: Text) -> Text {
    if rename.dom().contains(n) {
        rename[n]
    } else {
        n
    }
}

fn final_name(rename: &TextMap, n: String) -> (r: String)
    ensures
        r@ == renamed_to(rename@, n@),
{
    match rename.get(&n) {
        Some(m) => m.clone(),
        None => n,
    }
}

/// The name under which a literal finds what it captures; the upvalues of the function that makes
/// it keep their placeholders.
pub open spec fn capture_name(m: MachineV, rename: Map<Text, Text>, c: Capture) -> Text {
    match c {
        Capture::Reg(r) => renamed_to(rename, reg_name(m, r)),
        Capture::Upval(u) => numbered("u"@, u as nat),
    }
}

/// Replaces the placeholders in function literals by the names of what they capture.
pub struct Resolve<'a, 'b> {
    pub machine: &'b Machine<'a>,
    pub rename: &'b TextMap,
}

impl<'a, 'b> Retext for Resolve<'a, 'b> {
    open spec fn new_text(&self, text: Text, captures: Seq<Capture>) -> Text {
        substituted(
            text,
            0,
            None,
            Seq::new(captures.len(), |i: int| capture_name(self.machine@, self.rename@, captures[i])),
        )
    }

    fn retext(&self, text: &str, captures: &Vec<Capture>) -> (r: String) {
        let mut names: Vec<String> = Vec::new();
        let mut i: usize = 0;
        while i < captures.len()
            invariant
                i <= captures.len(),
                names.len() == i,
                forall|j: int|
                    0 <= j < i ==> (#[trigger] names@[j])@ == capture_name(self.machine@, self.rename@, captures@[j]),
            decreases captures.len() - i,
        {
            match captures[i] {
                Capture::Reg(r) => names.push(final_name(self.rename, self.machine.reg_name(r))),
                Capture::Upval(u) => names.push(number_name("u", u as u128)),
            }
            i += 1;
        }
        assert(texts(names@) =~= Seq::new(
            captures@.len(),
            |i: int| capture_name(self.machine@, self.rename@, captures@[i]),
        ));
        substitute_upvalues(text, &names)
    }
}

/// Replaces the placeholders in all function literals by the names of what they capture.
pub fn resolve_closures(stmts: &mut Vec<Stmt>, machine: &Machine, rename: &TextMap)
    ensures
        block(final(stmts)@) == retexted_block(Resolve { machine, rename }, block(old(stmts)@)),
{
    *stmts = retext_block(&Resolve { machine, rename }, stmts);
}

/// Replaces the texts of function literals by those that a map gives.
pub struct Fill<'b> {
    pub sources: &'b TextMap,
}

impl<'b> Retext for Fill<'b> {
    open spec fn new_text(&self, text: Text, captures: Seq<Capture>) -> Text {
        renamed_to(self.sources@, text)
    }

    fn retext(&self, text: &str, captures: &Vec<Capture>) -> (r: String) {
        final_name(self.sources, owned(text))
    }
}

/// Puts the sources of function literals in the place of the numbers of their requests.
pub fn fill_closures(stmts: &mut Vec<Stmt>, sources: &TextMap)
    ensures
        block(final(stmts)@) == retexted_block(Fill { sources }, block(old(stmts)@)),
{
    *stmts = retext_block(&Fill { sources }, stmts);
}

/// A variable that a literal captures, and the names that the literal declares.
pub struct Constraint {
    pub source: String,
    pub declared: NameSet,
}

/// Model of a [`Constraint`].
#[verifier::ext_equal]
pub struct ConstraintV {
    pub source: Text,
    pub declared: Seq<Text>,
}

impl View for Constraint {
    type V = ConstraintV;

    open spec fn view(&self) -> ConstraintV {
        ConstraintV { source: self.source@, declared: self.declared@ }
    }
}

/// The models of constraints.
pub open spec fn constraints_of(s: Seq<Constraint>) -> Seq<ConstraintV> {
    Seq::new(s.len(), |i: int| s[i]@)
}

/// The first `k` captures of a literal whose names the literal declares itself.
pub open spec fn clashes(m: MachineV, rename: Map<Text, Text>, l: LiteralV, k: int) -> Seq<ConstraintV>
    decreases k,
{
    if k <= 0 {
        Seq::empty()
    } else {
        let front = clashes(m, rename, l, k - 1);
        let declared = declared_in_text(l.text);
        match l.captures[k - 1] {
            Capture::Reg(r) => if declared.contains(renamed_to(rename, reg_name(m, r))) {
                front.push(ConstraintV { source: reg_name(m, r), declared })
            } else {
                front
            },
            Capture::Upval(_) => front,
        }
    }
}

/// The captures of the first `k` literals whose names the literal declares itself.
pub open spec fn all_clashes(m: MachineV, rename: Map<Text, Text>, ls: Seq<LiteralV>, k: int) -> Seq<ConstraintV>
    decreases k,
{
    if k <= 0 {
        Seq::empty()
    } else {
        all_clashes(m, rename, ls, k - 1) + clashes(m, rename, ls[k - 1], ls[k - 1].captures.len() as int)
    }
}

fn push_clashes(m: &Machine, rename: &TextMap, l: &Literal, out: &mut Vec<Constraint>)
    ensures
        constraints_of(final(out)@) == constraints_of(old(out)@) + clashes(m@, rename@, l@, l.captures@.len() as int),
{
    let ghost o = constraints_of(out@);
    let declared = declared_names_in_rendered_closure(&l.text);
    let mut i: usize = 0;
    assert(o + Seq::<ConstraintV>::empty() =~= o);
    while i < l.captures.len()
        invariant
            i <= l.captures.len(),
            o == constraints_of(old(out)@),
            declared@ == declared_in_text(l.text@),
            constraints_of(out@) == o + clashes(m@, rename@, l@, i as int),
        decreases l.captures.len() - i,
    {
        if let Capture::Reg(r) = l.captures[i] {
            let source = m.reg_name(r);
            let now = final_name(rename, source.clone());
            if declared.contains(&now) {
                let ghost before = constraints_of(out@);
                let c = Constraint { source, declared: declared.copy() };
                let ghost cv = c@;
                out.push(c);
                assert(constraints_of(out@) =~= before.push(cv));
                assert(o + clashes(m@, rename@, l@, i as int).push(cv) =~= before.push(cv));
            }
        }
        i += 1;
    }
}

fn closure_capture_name_constraints(m: &Machine, rename: &TextMap, ls: &Vec<Literal>) -> (r: Vec<Constraint>)
    ensures
        constraints_of(r@) == all_clashes(m@, rename@, literals_of(ls@), ls@.len() as int),
{
    let ghost v = literals_of(ls@);
    let mut out: Vec<Constraint> = Vec::new();
    let mut i: usize = 0;
    assert(constraints_of(out@) =~= Seq::<ConstraintV>::empty());
    while i < ls.len()
        invariant
            i <= ls.len(),
            v == literals_of(ls@),
            constraints_of(out@) == all_clashes(m@, rename@, v, i as int),
        decreases ls.len() - i,
    {
        assert(v[i as int] == ls@[i as int]@);
        push_clashes(m, rename, &ls[i], &mut out);
        i += 1;
    }
    out
}

/// Names that statements declare, after renaming.
pub open spec fn declares(rename: Map<Text, Text>) -> spec_fn(StmtV) -> Seq<Text> {
    |s: StmtV| declared_by(rename, s)
}

/// The names that `s` itself declares, after renaming.
pub open spec fn declared_by(rename: Map<Text, Text>, s: StmtV) -> Seq<Text> {
    match s {
        StmtV::Local { names, .. } => all_renamed(rename, names),
        StmtV::Loop { head: LoopHead::Numeric { var, .. }, .. } => all_renamed(rename, seq![var]),
        StmtV::Loop { head: LoopHead::Generic { vars, .. }, .. } => all_renamed(rename, vars),
        _ => Seq::empty(),
    }
}

/// `names` after renaming.
pub open spec fn all_renamed(rename: Map<Text, Text>, names: Seq<Text>) -> Seq<Text> {
    Seq::new(names.len(), |i: int| renamed_to(rename, names[i]))
}

fn rename_all(rename: &TextMap, names: &[String]) -> (r: Vec<String>)
    ensures
        texts(r@) == all_renamed(rename@, texts(names@)),
{
    let mut out: Vec<String> = Vec::new();
    let mut i: usize = 0;
    while i < names.len()
        invariant
            i <= names.len(),
            out.len() == i,
            forall|j: int| 0 <= j < i ==> (#[trigger] out@[j])@ == renamed_to(rename@, names@[j]@),
        decreases names.len() - i,
    {
        out.push(final_name(rename, names[i].clone()));
        i += 1;
    }
    assert(texts(out@) =~= all_renamed(rename@, texts(names@)));
    out
}

pub struct Declares<'a> {
    pub rename: &'a TextMap,
}

impl<'a> Pick for Declares<'a> {
    open spec fn names(&self) -> spec_fn(StmtV) -> Seq<Text> {
        declares(self.rename@)
    }

    fn pick(&self, s: &Stmt) -> (r: Vec<String>) {
        match s {
            Stmt::Local { names, .. } => rename_all(self.rename, names),
            Stmt::NumericFor { var, .. } => rename_all(self.rename, &crate::ast::one_name(var.clone())),
            Stmt::GenericFor { vars, .. } => rename_all(self.rename, vars),
            _ => no_names(),
        }
    }
}

/// The names of the first `k` parameters, after renaming.
pub open spec fn param_names(m: MachineV, rename: Map<Text, Text>, k: int) -> Seq<Text>
    decreases k,
{
    if k <= 0 {
        Seq::empty()
    } else {
        insert_sorted(param_names(m, rename, k - 1), renamed_to(rename, reg_name(m, (k - 1) as u8)))
    }
}

/// All names that the function declares, after renaming.
pub open spec fn final_names(m: MachineV, rename: Map<Text, Text>, b: Block) -> Seq<Text> {
    collect(declares(rename), b, param_names(m, rename, m.proto.num_params as int))
}

fn final_names_in_proto(m: &Machine, rename: &TextMap, b: &Vec<Stmt>) -> (r: NameSet)
    ensures
        r@ == final_names(m@, rename@, block(b@)),
{
    let mut acc = NameSet::new();
    let n: u8 = m.proto().num_params;
    let mut r: u8 = 0;
    while r < n
        invariant
            r <= n,
            acc@ == param_names(m@, rename@, r as int),
        decreases n - r,
    {
        acc.insert(&final_name(rename, m.reg_name(r)));
        r += 1;
    }
    collect_names(&Declares { rename }, b, &mut acc);
    acc
}

/// The renaming and the names in use after the first `k` constraints: a variable that a literal
/// declares itself gets a new name.
pub open spec fn without_clashes(cs: Seq<ConstraintV>, k: int, rename: Map<Text, Text>, taken: Seq<Text>) -> (Map<Text, Text>, Seq<Text>)
    decreases k,
{
    if k <= 0 {
        (rename, taken)
    } else {
        let (r, t) = without_clashes(cs, k - 1, rename, taken);
        let c = cs[k - 1];
        let now = renamed_to(r, c.source);
        if c.declared.contains(now) {
            let fresh = fresh_name(now, c.declared, t);
            (r.insert(c.source, fresh), insert_sorted(t, fresh))
        } else {
            (r, t)
        }
    }
}

/// The renaming that keeps captured variables apart from what the literals that capture them declare.
pub open spec fn kept_apart(m: MachineV, rename: Map<Text, Text>, b: Block) -> Map<Text, Text> {
    let ls = literals_in_block(b);
    let cs = all_clashes(m, rename, ls, ls.len() as int);
    without_clashes(cs, cs.len() as int, rename, final_names(m, rename, b)).0
}

/// Changes the renaming so that no literal declares the name of a variable that it captures.
pub fn avoid_closure_capture_name_collisions(stmts: &Vec<Stmt>, m: &Machine, rename: TextMap) -> (r: TextMap)
    ensures
        r@ == kept_apart(m@, rename@, block(stmts@)),
{
    let mut taken = final_names_in_proto(m, &rename, stmts);
    let ls = literals(stmts);
    let cs = closure_capture_name_constraints(m, &rename, &ls);
    let ghost v = constraints_of(cs@);
    let ghost r0 = rename@;
    let ghost t0 = taken@;
    assert(literals_of(ls@).len() == ls@.len());
    let mut now = rename;
    let mut i: usize = 0;
    while i < cs.len()
        invariant
            i <= cs.len(),
            v == constraints_of(cs@),
            now@ == without_clashes(v, i as int, r0, t0).0,
            taken@ == without_clashes(v, i as int, r0, t0).1,
        decreases cs.len() - i,
    {
        let c = &cs[i];
        assert(v[i as int] == c@);
        let current = final_name(&now, c.source.clone());
        if c.declared.contains(&current) {
            let fresh = fresh_capture_name(&current, &c.declared, &taken);
            taken.insert(&fresh);
            now = now.with(&c.source, &fresh);
        }
        i += 1;
    }
    now
}

/// The renaming of a variable stays as it is once the constraints on it are dealt with.
proof fn later_constraints_keep(cs: Seq<ConstraintV>, i: int, k: int, rename: Map<Text, Text>, taken: Seq<Text>)
    requires
        0 <= i < k <= cs.len(),
        forall|j: int| i < j < k ==> (#[trigger] cs[j]).source != cs[i].source,
    ensures
        renamed_to(without_clashes(cs, k, rename, taken).0, cs[i].source) == renamed_to(
            without_clashes(cs, i + 1, rename, taken).0,
            cs[i].source,
        ),
    decreases k,
{
    if k > i + 1 {
        later_constraints_keep(cs, i, k - 1, rename, taken);
        assert(cs[k - 1].source != cs[i].source);
    }
}

/// A literal never declares the final name of a variable that it captures, if it is the last one
/// whose declarations that name had to avoid.
pub proof fn captures_kept_apart(cs: Seq<ConstraintV>, i: int, rename: Map<Text, Text>, taken: Seq<Text>)
    requires
        0 <= i < cs.len(),
        forall|j: int| i < j < cs.len() ==> (#[trigger] cs[j]).source != cs[i].source,
    ensures
        !cs[i].declared.contains(
            renamed_to(without_clashes(cs, cs.len() as int, rename, taken).0, cs[i].source),
        ),
{
    let (r, t) = without_clashes(cs, i, rename, taken);
    let now = renamed_to(r, cs[i].source);
    later_constraints_keep(cs, i, cs.len() as int, rename, taken);
    fresh_name_free(now, cs[i].declared, t);
}

} // verus!
