//! Ordered sets of names.
use vstd::prelude::*;

use crate::ast::clone_names;
use crate::text::{str_eq, str_lt, text_lt, text_lt_irreflexive, text_lt_total, text_lt_transitive, texts, Text};

verus! {

/// Whether the names stand in strictly ascending order (so none occurs twice).
pub open spec fn ascending(s: Seq<Text>) -> bool {
    forall|i: int, j: int| 0 <= i < j < s.len() ==> text_lt(#[trigger] s[i], #[trigger] s[j])
}

/// The ascending sequence `s` with `n` put where it belongs.
pub open spec fn insert_sorted(s: Seq<Text>, n: Text) -> Seq<Text>
    decreases s.len(),
{
    if s.len() == 0 {
        seq![n]
    } else if s.last() == n {
        s
    } else if text_lt(s.last(), n) {
        s.push(n)
    } else {
        insert_sorted(s.drop_last(), n).push(s.last())
    }
}

/// The ascending sequence `s` with each of `more` put where it belongs.
pub open spec fn insert_all(s: Seq<Text>, more: Seq<Text>) -> Seq<Text>
    decreases more.len(),
{
    if more.len() == 0 {
        s
    } else {
        insert_sorted(insert_all(s, more.drop_last()), more.last())
    }
}

/// Inserting a name adds that name and nothing else.
pub proof fn insert_sorted_members(s: Seq<Text>, n: Text, m: Text)
    ensures
        insert_sorted(s, n).contains(m) <==> s.contains(m) || m == n,
    decreases s.len(),
{
    if s.len() == 0 {
        assert(seq![n][0] == n);
    } else if s.last() == n {
        assert(s[s.len() - 1] == n);
    } else if text_lt(s.last(), n) {
        let r = s.push(n);
        assert(r[s.len() as int] == n);
        if s.contains(m) {
            let k = s.index_of(m);
            assert(r[k] == m);
        }
        if r.contains(m) && m != n {
            let k = choose|k: int| 0 <= k < r.len() && r[k] == m;
            assert(s[k] == m);
        }
    } else {
        insert_sorted_members(s.drop_last(), n, m);
        let p = insert_sorted(s.drop_last(), n);
        let r = p.push(s.last());
        assert(r[p.len() as int] == s.last());
        assert(s[s.len() - 1] == s.last());
        if p.contains(m) {
            let k = p.index_of(m);
            assert(r[k] == m);
        }
        if s.drop_last().contains(m) {
            let k = s.drop_last().index_of(m);
            assert(s[k] == m);
        }
        if s.contains(m) && m != s.last() {
            let k = s.index_of(m);
            assert(s.drop_last()[k] == m);
        }
        if r.contains(m) && m != s.last() {
            let k = choose|k: int| 0 <= k < r.len() && r[k] == m;
            assert(p[k] == m);
        }
    }
}

/// Inserting keeps the order strictly ascending.
pub proof fn insert_sorted_ascending(s: Seq<Text>, n: Text)
    requires
        ascending(s),
    ensures
        ascending(insert_sorted(s, n)),
    decreases s.len(),
{
    if s.len() > 0 && s.last() != n {
        if text_lt(s.last(), n) {
            assert forall|i: int| 0 <= i < s.len() implies text_lt(#[trigger] s[i], n) by {
                if i < s.len() - 1 {
                    text_lt_transitive(s[i], s[s.len() - 1], n);
                }
            }
        } else {
            text_lt_total(s.last(), n);
            let d = s.drop_last();
            assert(ascending(d));
            insert_sorted_ascending(d, n);
            let p = insert_sorted(d, n);
            assert forall|i: int| 0 <= i < p.len() implies text_lt(#[trigger] p[i], s.last()) by {
                insert_sorted_members(d, n, p[i]);
                assert(p.contains(p[i]));
                if p[i] != n {
                    let k = d.index_of(p[i]);
                    assert(s[k] == p[i]);
                    assert(text_lt(s[k], s[s.len() - 1]));
                }
            }
        }
    }
}

/// Inserting several names adds those names and nothing else, and keeps the order.
pub proof fn insert_all_members(s: Seq<Text>, more: Seq<Text>, m: Text)
    ensures
        insert_all(s, more).contains(m) <==> s.contains(m) || more.contains(m),
        ascending(s) ==> ascending(insert_all(s, more)),
    decreases more.len(),
{
    if more.len() > 0 {
        insert_all_members(s, more.drop_last(), m);
        insert_sorted_members(insert_all(s, more.drop_last()), more.last(), m);
        if ascending(s) {
            insert_sorted_ascending(insert_all(s, more.drop_last()), more.last());
        }
        if more.contains(m) && m != more.last() {
            let k = more.index_of(m);
            assert(more.drop_last()[k] == m);
        }
        if more.drop_last().contains(m) {
            let k = more.drop_last().index_of(m);
            assert(more[k] == m);
        }
        assert(more[more.len() - 1] == more.last());
    }
}

/// Two ascending sequences with the same members are the same sequence.
pub proof fn ascending_unique(a: Seq<Text>, b: Seq<Text>)
    requires
        ascending(a),
        ascending(b),
        forall|m: Text| a.contains(m) <==> b.contains(m),
    ensures
        a == b,
    decreases a.len(),
{
    if a.len() == 0 {
        if b.len() > 0 {
            assert(b.contains(b[0]));
        }
        assert(a =~= b);
    } else {
        assert(a.contains(a.last()));
        assert(b.len() > 0);
        assert(b.contains(b.last()));
        let i = a.index_of(b.last());
        let j = b.index_of(a.last());
        if a.last() != b.last() {
            assert(text_lt(a[i], a[a.len() - 1]));
            assert(text_lt(b[j], b[b.len() - 1]));
            text_lt_transitive(a.last(), b.last(), a.last());
            text_lt_irreflexive(a.last());
        }
        let c = a.drop_last();
        let d = b.drop_last();
        assert(ascending(c) && ascending(d));
        assert forall|m: Text| c.contains(m) <==> d.contains(m) by {
            if c.contains(m) {
                let k = c.index_of(m);
                assert(a[k] == m);
                assert(text_lt(a[k], a[a.len() - 1]));
                text_lt_irreflexive(m);
                assert(b.contains(m));
                let q = b.index_of(m);
                assert(d[q] == m);
            }
            if d.contains(m) {
                let k = d.index_of(m);
                assert(b[k] == m);
                assert(text_lt(b[k], b[b.len() - 1]));
                text_lt_irreflexive(m);
                assert(a.contains(m));
                let q = a.index_of(m);
                assert(c[q] == m);
            }
        }
        ascending_unique(c, d);
        assert(a =~= c.push(a.last()));
        assert(b =~= d.push(b.last()));
    }
}

/// A set of names, walked in ascending order.
#[derive(Debug)]
pub struct NameSet {
    names: Vec<String>,
}

impl View for NameSet {
    type V = Seq<Text>;

    closed spec fn view(&self) -> Seq<Text> {
        texts(self.names@)
    }
}

impl NameSet {
    /// Holds of every set built by the operations below.
    pub open spec fn wf(&self) -> bool {
        ascending(self@)
    }

    /// The empty set.
    pub fn new() -> (r: NameSet)
        ensures
            r@ == Seq::<Text>::empty(),
            r.wf(),
    {
        let r = NameSet { names: Vec::new() };
        assert(r@ =~= Seq::<Text>::empty());
        r
    }

    /// The number of names in the set.
    pub fn len(&self) -> (r: usize)
        ensures
            r == self@.len(),
    {
        self.names.len()
    }

    /// The name at position `i` of the ascending order.
    pub fn get(&self, i: usize) -> (r: &String)
        requires
            i < self@.len(),
        ensures
            r@ == self@[i as int],
    {
        &self.names[i]
    }

    /// Whether `n` is in the set.
    pub fn contains(&self, n: &str) -> (r: bool)
        ensures
            r == self@.contains(n@),
    {
        let mut i: usize = 0;
        while i < self.names.len()
            invariant
                i <= self.names.len(),
                forall|j: int| 0 <= j < i ==> self@[j] != n@,
            decreases self.names.len() - i,
        {
            if str_eq(&self.names[i], n) {
                assert(self@[i as int] == n@);
                return true;
            }
            i += 1;
        }
        false
    }

    /// Adds `n` to the set.
    pub fn insert(&mut self, n: &str)
        ensures
            final(self)@ == insert_sorted(old(self)@, n@),
            old(self).wf() ==> final(self).wf(),
    {
        proof {
            if self.wf() {
                insert_sorted_ascending(self@, n@);
            }
        }
        let ghost s = self@;
        let mut i: usize = self.names.len();
        assert(s.take(i as int) + s.skip(i as int) =~= s);
        assert(insert_sorted(s, n@) =~= insert_sorted(s.take(i as int), n@) + s.skip(i as int));
        while i > 0
            invariant
                i <= self.names.len(),
                s == self@,
                self@ == old(self)@,
                old(self).wf() ==> ascending(insert_sorted(old(self)@, n@)),
                insert_sorted(s, n@) == insert_sorted(s.take(i as int), n@) + s.skip(i as int),
            decreases i,
        {
            let ghost t = s.take(i as int);
            assert(t.last() == s[i - 1]);
            if str_eq(&self.names[i - 1], n) {
                assert(insert_sorted(s, n@) =~= s);
                return;
            }
            if str_lt(&self.names[i - 1], n) {
                self.names.insert(i, n.to_owned());
                assert(self@ =~= t.push(n@) + s.skip(i as int));
                return;
            }
            i -= 1;
            assert(t.drop_last() =~= s.take(i as int));
            assert(insert_sorted(s.take(i as int), n@).push(s[i as int]) + s.skip(i + 1)
                =~= insert_sorted(s.take(i as int), n@) + s.skip(i as int));
        }
        self.names.insert(0, n.to_owned());
        assert(self@ =~= seq![n@] + s.skip(0));
    }

    /// Adds every name of `more` to the set.
    pub fn insert_all(&mut self, more: &[String])
        ensures
            final(self)@ == insert_all(old(self)@, texts(more@)),
            old(self).wf() ==> final(self).wf(),
    {
        let ghost m = texts(more@);
        let ghost s0 = self@;
        let ghost w0 = self.wf();
        let mut i: usize = 0;
        while i < more.len()
            invariant
                i <= more.len(),
                m == texts(more@),
                self@ == insert_all(s0, m.take(i as int)),
                w0 ==> self.wf(),
            decreases more.len() - i,
        {
            self.insert(&more[i]);
            i += 1;
            assert(m.take(i as int).drop_last() =~= m.take(i - 1));
            assert(m.take(i as int).last() == m[i - 1]);
        }
        assert(m.take(i as int) =~= m);
    }

    /// A copy of the set.
    pub fn copy(&self) -> (r: NameSet)
        ensures
            r@ == self@,
    {
        NameSet { names: clone_names(&self.names) }
    }
}

} // verus!
