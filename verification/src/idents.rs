//! Identifiers.
use vstd::prelude::*;

use crate::split::{is_digit, is_word_char, word_char};
use crate::text::{chars_of, str_eq, Text};

verus! {

/// Whether `s` is a Luau identifier, or a keyword.
pub open spec fn identifier(s: Text) -> bool {
    s.len() > 0 && !is_digit(s[0]) && forall|i: int| 0 <= i < s.len() ==> word_char(#[trigger] s[i])
}

/// Whether `s` is a Luau identifier, or a keyword.
pub fn is_identifier(s: &str) -> (r: bool)
    ensures
        r == identifier(s@),
{
    let cs = chars_of(s);
    if cs.len() == 0 || ('0' <= cs[0] && cs[0] <= '9') {
        return false;
    }
    let mut i: usize = 0;
    while i < cs.len()
        invariant
            i <= cs.len(),
            cs@ == s@,
            forall|j: int| 0 <= j < i ==> word_char(#[trigger] s@[j]),
        decreases cs.len() - i,
    {
        if !is_word_char(cs[i]) {
            assert(!word_char(s@[i as int]));
            return false;
        }
        i += 1;
    }
    true
}

/// Whether `s` is a word of Luau's grammar.
pub open spec fn keyword(s: Text) -> bool {
    s == "and"@ || s == "break"@ || s == "continue"@ || s == "do"@ || s == "else"@ || s == "elseif"@ || s == "end"@ || s
        == "false"@ || s == "for"@ || s == "function"@ || s == "if"@ || s == "in"@ || s == "local"@ || s == "nil"@ || s
        == "not"@ || s == "or"@ || s == "repeat"@ || s == "return"@ || s == "then"@ || s == "true"@ || s == "until"@ || s
        == "while"@
}

/// Whether `s` is a word of Luau's grammar.
pub fn is_luau_keyword(s: &str) -> (r: bool)
    ensures
        r == keyword(s@),
{
    str_eq(s, "and") || str_eq(s, "break") || str_eq(s, "continue") || str_eq(s, "do") || str_eq(s, "else") || str_eq(
        s,
        "elseif",
    ) || str_eq(s, "end") || str_eq(s, "false") || str_eq(s, "for") || str_eq(s, "function") || str_eq(s, "if")
        || str_eq(s, "in") || str_eq(s, "local") || str_eq(s, "nil") || str_eq(s, "not") || str_eq(s, "or") || str_eq(
        s,
        "repeat",
    ) || str_eq(s, "return") || str_eq(s, "then") || str_eq(s, "true") || str_eq(s, "until") || str_eq(s, "while")
}

/// The words of Luau's grammar.
pub open spec fn keywords() -> Seq<Text> {
    seq![
        "and"@,
        "break"@,
        "continue"@,
        "do"@,
        "else"@,
        "elseif"@,
        "end"@,
        "false"@,
        "for"@,
        "function"@,
        "if"@,
        "in"@,
        "local"@,
        "nil"@,
        "not"@,
        "or"@,
        "repeat"@,
        "return"@,
        "then"@,
        "true"@,
        "until"@,
        "while"@,
    ]
}

pub proof fn keyword_listed(s: Text)
    requires
        keyword(s),
    ensures
        keywords().contains(s),
{
    let k = keywords();
    assert(k[0] == "and"@ && k[1] == "break"@ && k[2] == "continue"@ && k[3] == "do"@ && k[4] == "else"@ && k[5] == "elseif"@);
    assert(k[6] == "end"@ && k[7] == "false"@ && k[8] == "for"@ && k[9] == "function"@ && k[10] == "if"@ && k[11] == "in"@);
    assert(k[12] == "local"@ && k[13] == "nil"@ && k[14] == "not"@ && k[15] == "or"@ && k[16] == "repeat"@);
    assert(k[17] == "return"@ && k[18] == "then"@ && k[19] == "true"@ && k[20] == "until"@ && k[21] == "while"@);
}

} // verus!
