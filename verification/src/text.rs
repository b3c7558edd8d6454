//! Character-level text helpers. A string is modelled by its sequence of characters.
use vstd::prelude::*;
use vstd::string::StringExecFns;


verus! {

/// The mathematical model of a string.
pub type Text = Seq<char>;

/// The models of a sequence of strings.
pub open spec fn texts(names: Seq<String>) -> Seq<Text> {
    Seq::new(names.len(), |i: int| names[i]@)
}

/// `str == str` of the standard library: whether both hold the same characters.
#[verifier::external_body]
pub(crate) fn str_eq(a: &str, b: &str) -> (r: bool)
    ensures
        r == (a@ == b@),
{
    a == b
}

/// `str < str` of the standard library, which orders strings by their code points.
#[verifier::external_body]
pub(crate) fn str_lt(a: &str, b: &str) -> (r: bool)
    ensures
        r == text_lt(a@, b@),
{
    a < b
}

/// `String::push` of the standard library: appends one character.
#[verifier::external_body]
pub(crate) fn push_char(out: &mut String, c: char)
    ensures
        final(out)@ == old(out)@.push(c),
{
    out.push(c);
}

/// Lexicographic order by code point.
pub open spec fn text_lt(a: Text, b: Text) -> bool
    decreases a.len(),
{
    if b.len() == 0 {
        false
    } else if a.len() == 0 {
        true
    } else if a[0] != b[0] {
        (a[0] as int) < (b[0] as int)
    } else {
        text_lt(a.drop_first(), b.drop_first())
    }
}

/// No text is smaller than itself.
pub proof fn text_lt_irreflexive(a: Text)
    ensures
        !text_lt(a, a),
    decreases a.len(),
{
    if a.len() > 0 {
        text_lt_irreflexive(a.drop_first());
    }
}

/// Of two different texts one is smaller.
pub proof fn text_lt_total(a: Text, b: Text)
    requires
        a != b,
    ensures
        text_lt(a, b) || text_lt(b, a),
    decreases a.len(),
{
    if a.len() > 0 && b.len() > 0 && a[0] == b[0] {
        if a.drop_first() == b.drop_first() {
            assert(a =~= seq![a[0]] + a.drop_first());
            assert(b =~= seq![b[0]] + b.drop_first());
        }
        text_lt_total(a.drop_first(), b.drop_first());
    } else if a.len() == 0 && b.len() == 0 {
        assert(a =~= b);
    }
}

/// The order is transitive.
pub proof fn text_lt_transitive(a: Text, b: Text, c: Text)
    requires
        text_lt(a, b),
        text_lt(b, c),
    ensures
        text_lt(a, c),
    decreases a.len(),
{
    if a.len() > 0 && a[0] == b[0] && b[0] == c[0] {
        text_lt_transitive(a.drop_first(), b.drop_first(), c.drop_first());
    }
}

/// An owned copy of `s`.
pub fn owned(s: &str) -> (r: String)
    ensures
        r@ == s@,
{
    s.to_owned()
}

/// The characters of `s`.
pub fn chars_of(s: &str) -> (r: Vec<char>)
    ensures
        r@ == s@,
{
    let mut out: Vec<char> = Vec::new();
    for c in it: s.chars()
        invariant
            it.seq() == s@,
            out@ == s@.take(it.index() as int),
    {
        out.push(c);
    }
    assert(s@.take(s@.len() as int) =~= s@);
    out
}

/// The string made of the characters `cs[lo..hi]`.
pub fn string_of(cs: &Vec<char>, lo: usize, hi: usize) -> (r: String)
    requires
        lo <= hi <= cs.len(),
    ensures
        r@ == cs@.subrange(lo as int, hi as int),
{
    let mut out = String::new();
    let mut i = lo;
    while i < hi
        invariant
            lo <= i <= hi <= cs.len(),
            out@ == cs@.subrange(lo as int, i as int),
        decreases hi - i,
    {
        push_char(&mut out, cs[i]);
        i += 1;
        assert(cs@.subrange(lo as int, i as int) =~= cs@.subrange(lo as int, i - 1).push(cs@[i - 1]));
    }
    out
}

/// Whether `c` occurs in `s`.
pub fn has_char(s: &str, c: char) -> (r: bool)
    ensures
        r == s@.contains(c),
{
    let cs = chars_of(s);
    let mut i: usize = 0;
    while i < cs.len()
        invariant
            i <= cs.len(),
            cs@ == s@,
            forall|j: int| 0 <= j < i ==> s@[j] != c,
        decreases cs.len() - i,
    {
        if cs[i] == c {
            assert(s@[i as int] == c);
            return true;
        }
        i += 1;
    }
    false
}

/// The first position from `i` on that does not hold `c`.
pub open spec fn first_other(s: Text, c: char, i: int) -> int
    decreases s.len() - i,
{
    if 0 <= i < s.len() && s[i] == c {
        first_other(s, c, i + 1)
    } else {
        i
    }
}

/// The position after the last one before `k`, and not before `lo`, that does not hold `c`.
pub open spec fn last_other(s: Text, c: char, lo: int, k: int) -> int
    decreases k - lo,
{
    if 0 <= lo < k <= s.len() && s[k - 1] == c {
        last_other(s, c, lo, k - 1)
    } else {
        k
    }
}

/// `s` without the `c`s at its two ends.
pub open spec fn trimmed(s: Text, c: char) -> Text {
    let lo = first_other(s, c, 0);
    s.subrange(lo, last_other(s, c, lo, s.len() as int))
}

/// `s` without the `c`s at its two ends.
pub fn trim_char(s: &str, c: char) -> (r: String)
    ensures
        r@ == trimmed(s@, c),
{
    let cs = chars_of(s);
    let n: usize = cs.len();
    let mut lo: usize = 0;
    while lo < n && cs[lo] == c
        invariant
            lo <= n,
            n == cs.len(),
            cs@ == s@,
            first_other(s@, c, 0) == first_other(s@, c, lo as int),
        decreases n - lo,
    {
        lo += 1;
    }
    let mut hi: usize = n;
    while hi > lo && cs[hi - 1] == c
        invariant
            lo <= hi <= n,
            n == cs.len(),
            cs@ == s@,
            last_other(s@, c, lo as int, n as int) == last_other(s@, c, lo as int, hi as int),
        decreases hi,
    {
        hi -= 1;
    }
    string_of(&cs, lo, hi)
}

// ---- prefixes, spaces and lists ---------------------------------------------------------

/// `s` without the prefix `p`, where it has it.
pub open spec fn stripped(s: Text, p: Text) -> Option<Text> {
    if p.len() <= s.len() && s.take(p.len() as int) == p {
        Some(s.skip(p.len() as int))
    } else {
        None
    }
}

/// `s` without the prefix `p`, where it has it.
pub fn strip(s: &str, p: &str) -> (r: Option<String>)
    ensures
        match r {
            Some(t) => stripped(s@, p@) == Some(t@),
            None => stripped(s@, p@) is None,
        },
{
    let cs = chars_of(s);
    let ps = chars_of(p);
    if cs.len() < ps.len() {
        return None;
    }
    let mut i: usize = 0;
    while i < ps.len()
        invariant
            i <= ps.len() <= cs.len(),
            cs@ == s@,
            ps@ == p@,
            forall|j: int| 0 <= j < i ==> cs@[j] == ps@[j],
        decreases ps.len() - i,
    {
        if cs[i] != ps[i] {
            assert(s@.take(p@.len() as int)[i as int] != p@[i as int]);
            return None;
        }
        i += 1;
    }
    assert(s@.take(p@.len() as int) =~= p@);
    let n: usize = cs.len();
    let t = string_of(&cs, i, n);
    assert(t@ =~= s@.skip(p@.len() as int));
    Some(t)
}

/// Whether `c` is white space.
pub open spec fn white(c: char) -> bool {
    let n = c as int;
    9 <= n <= 13 || n == 32 || n == 0x85 || n == 0xa0 || n == 0x1680 || 0x2000 <= n <= 0x200a || n == 0x2028 || n == 0x2029
        || n == 0x202f || n == 0x205f || n == 0x3000
}

fn is_white(c: char) -> (r: bool)
    ensures
        r == white(c),
{
    let n: u32 = c as u32;
    (9 <= n && n <= 13) || n == 32 || n == 0x85 || n == 0xa0 || n == 0x1680 || (0x2000 <= n && n <= 0x200a) || n == 0x2028
        || n == 0x2029 || n == 0x202f || n == 0x205f || n == 0x3000
}

/// The first position from `i` on that does not hold white space.
pub open spec fn first_ink(s: Text, i: int) -> int
    decreases s.len() - i,
{
    if 0 <= i < s.len() && white(s[i]) {
        first_ink(s, i + 1)
    } else {
        i
    }
}

/// The position after the last one before `k`, and not before `lo`, that does not hold white space.
pub open spec fn last_ink(s: Text, lo: int, k: int) -> int
    decreases k - lo,
{
    if 0 <= lo < k <= s.len() && white(s[k - 1]) {
        last_ink(s, lo, k - 1)
    } else {
        k
    }
}

/// `s` without the white space at its start.
pub open spec fn spaces_trimmed_start(s: Text) -> Text {
    s.subrange(first_ink(s, 0), s.len() as int)
}

/// `s` without the white space at its two ends.
pub open spec fn spaces_trimmed(s: Text) -> Text {
    let lo = first_ink(s, 0);
    s.subrange(lo, last_ink(s, lo, s.len() as int))
}

fn position_of_ink(cs: &Vec<char>) -> (r: usize)
    ensures
        r == first_ink(cs@, 0),
        r <= cs.len(),
{
    let mut lo: usize = 0;
    while lo < cs.len() && is_white(cs[lo])
        invariant
            lo <= cs.len(),
            first_ink(cs@, 0) == first_ink(cs@, lo as int),
        decreases cs.len() - lo,
    {
        lo += 1;
    }
    lo
}

/// `s` without the white space at its start.
pub fn trim_spaces_start(s: &str) -> (r: String)
    ensures
        r@ == spaces_trimmed_start(s@),
{
    let cs = chars_of(s);
    let lo: usize = position_of_ink(&cs);
    let n: usize = cs.len();
    string_of(&cs, lo, n)
}

/// `s` without the white space at its two ends.
pub fn trim_spaces(s: &str) -> (r: String)
    ensures
        r@ == spaces_trimmed(s@),
{
    let cs = chars_of(s);
    let n: usize = cs.len();
    let lo: usize = position_of_ink(&cs);
    let mut hi: usize = n;
    while hi > lo && is_white(cs[hi - 1])
        invariant
            lo <= hi <= n,
            n == cs.len(),
            cs@ == s@,
            last_ink(s@, lo as int, n as int) == last_ink(s@, lo as int, hi as int),
        decreases hi,
    {
        hi -= 1;
    }
    string_of(&cs, lo, hi)
}

/// `parts`, with a comma and a space between each two.
pub open spec fn joined(parts: Seq<Text>) -> Text
    decreases parts.len(),
{
    if parts.len() == 0 {
        Seq::empty()
    } else if parts.len() == 1 {
        parts[0]
    } else {
        joined(parts.drop_last()) + ", "@ + parts.last()
    }
}

/// `names`, with a comma and a space between each two.
pub fn join_names(names: &[String]) -> (r: String)
    ensures
        r@ == joined(texts(names@)),
{
    let ghost v = texts(names@);
    let mut s = String::new();
    let mut i: usize = 0;
    while i < names.len()
        invariant
            i <= names.len(),
            v == texts(names@),
            s@ == joined(v.take(i as int)),
        decreases names.len() - i,
    {
        proof {
            let t = v.take(i + 1);
            assert(t.drop_last() =~= v.take(i as int));
            assert(t.last() == v[i as int]);
        }
        if i > 0 {
            s.append(", ");
            s.append(&names[i]);
        } else {
            s = names[i].clone();
        }
        i += 1;
    }
    assert(v.take(i as int) =~= v);
    s
}

// ---- decimal numbers ------------------------------------------------------------------

/// The character for a digit.
pub open spec fn digit(d: nat) -> char {
    (48 + d) as char
}

/// `n` in decimal.
pub open spec fn decimal(n: nat) -> Text
    decreases n,
{
    if n < 10 {
        seq![digit(n)]
    } else {
        decimal(n / 10).push(digit(n % 10))
    }
}

/// `n` in decimal.
pub fn decimal_of(n: u128) -> (r: String)
    ensures
        r@ == decimal(n as nat),
    decreases n,
{
    if n < 10 {
        let mut s = String::new();
        push_char(&mut s, (48 + n as u8) as char);
        assert(s@ =~= seq![digit(n as nat)]);
        s
    } else {
        let mut s = decimal_of(n / 10);
        push_char(&mut s, (48 + (n % 10) as u8) as char);
        s
    }
}

/// Different numbers have different decimals.
pub proof fn decimal_injective(a: nat, b: nat)
    ensures
        decimal(a) == decimal(b) ==> a == b,
    decreases a,
{
    if decimal(a) == decimal(b) {
        let x = decimal(a);
        let y = decimal(b);
        assert(x.last() == digit(a % 10));
        assert(y.last() == digit(b % 10));
        assert(digit(a % 10) as int == 48 + a % 10);
        assert(digit(b % 10) as int == 48 + b % 10);
        if a >= 10 && b >= 10 {
            decimal_injective(a / 10, b / 10);
            assert(x.drop_last() =~= decimal(a / 10));
            assert(y.drop_last() =~= decimal(b / 10));
        } else if a >= 10 {
            decimal_nonempty(a / 10);
            assert(x.drop_last() =~= decimal(a / 10));
            assert(y.drop_last() =~= Seq::<char>::empty());
        } else if b >= 10 {
            decimal_nonempty(b / 10);
            assert(y.drop_last() =~= decimal(b / 10));
            assert(x.drop_last() =~= Seq::<char>::empty());
        }
    }
}

/// A decimal has at least one digit.
pub proof fn decimal_nonempty(a: nat)
    ensures
        decimal(a).len() > 0,
{
}

} // verus!
