//! Maps from strings to strings.
use vstd::prelude::*;

use crate::text::{owned, str_eq, Text};

verus! {

/// A map from strings to strings.
#[derive(Debug)]
pub struct TextMap {
    keys: Vec<String>,
    values: Vec<String>,
}

impl View for TextMap {
    type V = Map<Text, Text>;

    closed spec fn view(&self) -> Map<Text, Text> {
        entries_up_to(self.keys@, self.values@, self.keys@.len() as int)
    }
}

/// The map that the first `k` entries make; later entries win.
spec fn entries_up_to(keys: Seq<String>, values: Seq<String>, k: int) -> Map<Text, Text>
    decreases k,
{
    if k <= 0 {
        Map::empty()
    } else {
        entries_up_to(keys, values, k - 1).insert(keys[k - 1]@, values[k - 1]@)
    }
}

proof fn entries_agree(k1: Seq<String>, v1: Seq<String>, k2: Seq<String>, v2: Seq<String>, n: int)
    requires
        forall|i: int| 0 <= i < n ==> #[trigger] k1[i] == k2[i],
        forall|i: int| 0 <= i < n ==> #[trigger] v1[i] == v2[i],
    ensures
        entries_up_to(k1, v1, n) == entries_up_to(k2, v2, n),
    decreases n,
{
    if n > 0 {
        entries_agree(k1, v1, k2, v2, n - 1);
        assert(k1[n - 1] == k2[n - 1]);
        assert(v1[n - 1] == v2[n - 1]);
    }
}

impl TextMap {
    #[verifier::type_invariant]
    spec fn paired(self) -> bool {
        self.keys.len() == self.values.len()
    }

    /// The empty map.
    pub fn new() -> (r: TextMap)
        ensures
            r@ == Map::<Text, Text>::empty(),
    {
        TextMap { keys: Vec::new(), values: Vec::new() }
    }

    /// This map, with `value` at `key`.
    pub fn with(self, key: &str, value: &str) -> (r: TextMap)
        ensures
            r@ == self@.insert(key@, value@),
    {
        proof {
            use_type_invariant(&self);
        }
        let ghost k0 = self.keys@;
        let ghost v0 = self.values@;
        let mut keys = self.keys;
        let mut values = self.values;
        keys.push(owned(key));
        values.push(owned(value));
        proof {
            entries_agree(keys@, values@, k0, v0, k0.len() as int);
        }
        TextMap { keys, values }
    }

    /// The value at `key`.
    pub fn get(&self, key: &str) -> (r: Option<&String>)
        ensures
            match r {
                Some(v) => self@.dom().contains(key@) && self@[key@] == v@,
                None => !self@.dom().contains(key@),
            },
    {
        proof {
            use_type_invariant(self);
        }
        let n: usize = self.keys.len();
        let mut i: usize = n;
        while i > 0
            invariant
                i <= n,
                n == self.keys.len(),
                n == self.values.len(),
                self@.dom().contains(key@) == entries_up_to(self.keys@, self.values@, i as int).dom().contains(key@),
                self@.dom().contains(key@) ==> self@[key@] == entries_up_to(self.keys@, self.values@, i as int)[key@],
            decreases i,
        {
            i -= 1;
            if str_eq(&self.keys[i], key) {
                return Some(&self.values[i]);
            }
        }
        None
    }
}

} // verus!
