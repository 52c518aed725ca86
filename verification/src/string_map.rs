//! A small map keyed by strings, kept as a list of pairs in increasing key
//! order.
use crate::attestation::{has_key, lemma_lookup_keys, lookup, unique_keys};
use crate::path_order::{
    chars_less, chars_lt, lemma_chars_less_irreflexive, lemma_chars_less_total_from,
    lemma_chars_less_transitive,
};
use crate::text::str_eq;
use vstd::prelude::*;

verus! {

/// The map that a list of pairs with distinct keys stands for.
pub open spec fn pairs_map<V>(s: Seq<(String, V)>) -> Map<Seq<char>, V> {
    Map::new(|k: Seq<char>| has_key(s, k), |k: Seq<char>| lookup(s, k)->0)
}

/// With distinct keys, the map of one more pair is the map of the fewer
/// pairs with that pair inserted.
pub proof fn lemma_pairs_map_take<V>(s: Seq<(String, V)>, i: int)
    requires
        unique_keys(s),
        0 <= i < s.len(),
    ensures
        unique_keys(s.take(i + 1)),
        !has_key(s.take(i), s[i].0@),
        pairs_map(s.take(i + 1)) == pairs_map(s.take(i)).insert(s[i].0@, s[i].1),
{
    let before = s.take(i);
    let after = s.take(i + 1);
    let k = s[i].0@;
    assert(after =~= before.push(s[i]));
    assert(!has_key(before, k)) by {
        if has_key(before, k) {
            let j = choose|j: int| 0 <= j < before.len() && #[trigger] before[j].0@ == k;
            assert(s[j].0@ != s[i].0@);
        }
    }
    assert forall|a: int, b: int| 0 <= a < b < after.len() implies after[a].0@ != after[b].0@ by {
        assert(s[a].0@ != s[b].0@);
    }
    assert(unique_keys(before)) by {
        assert forall|a: int, b: int| 0 <= a < b < before.len() implies before[a].0@
            != before[b].0@ by {
            assert(s[a].0@ != s[b].0@);
        }
    }
    assert forall|x: Seq<char>| has_key(after, x) == (has_key(before, x) || x == k) by {
        if has_key(after, x) {
            let j = choose|j: int| 0 <= j < after.len() && #[trigger] after[j].0@ == x;
            if j < before.len() {
                assert(before[j].0@ == x);
            }
        }
        if has_key(before, x) {
            let j = choose|j: int| 0 <= j < before.len() && #[trigger] before[j].0@ == x;
            assert(after[j].0@ == x);
        }
        if x == k {
            assert(after[i].0@ == x);
        }
    }
    assert forall|x: Seq<char>| has_key(after, x) implies lookup(after, x)->0 == (if x == k {
        s[i].1
    } else {
        lookup(before, x)->0
    }) by {
        lemma_lookup_keys(after, x);
        lemma_lookup_keys(before, x);
        let j = choose|j: int| 0 <= j < after.len() && #[trigger] after[j].0@ == x;
        if j < before.len() {
            assert(before[j].0@ == x);
        }
    }
    assert(pairs_map(after) =~= pairs_map(before).insert(k, s[i].1));
}

/// The keys of `pairs` are in strictly increasing character order.
pub open spec fn keys_in_order<V>(pairs: Seq<(String, V)>) -> bool {
    forall|i: int, j: int| 0 <= i < j < pairs.len() ==> chars_less(pairs[i].0@, pairs[j].0@)
}

/// Keys in strictly increasing order are distinct.
pub proof fn lemma_keys_in_order_unique<V>(pairs: Seq<(String, V)>)
    requires
        keys_in_order(pairs),
    ensures
        unique_keys(pairs),
{
    assert forall|i: int, j: int| 0 <= i < j < pairs.len() implies pairs[i].0@ != pairs[j].0@ by {
        lemma_chars_less_irreflexive(pairs[i].0@);
    }
}

/// Where `key` belongs among pairs in key order: after every smaller key and
/// before every other one.
pub fn key_position<V>(pairs: &Vec<(String, V)>, key: &String) -> (p: usize)
    requires
        keys_in_order(pairs@),
    ensures
        p <= pairs.len(),
        forall|i: int| 0 <= i < p ==> chars_less(#[trigger] pairs@[i].0@, key@),
        forall|i: int| p <= i < pairs.len() ==> !chars_less(#[trigger] pairs@[i].0@, key@),
        forall|i: int| p < i < pairs.len() ==> chars_less(key@, #[trigger] pairs@[i].0@),
{
    let mut p: usize = 0;
    while p < pairs.len() && chars_lt(pairs[p].0.as_str(), key.as_str())
        invariant
            p <= pairs.len(),
            keys_in_order(pairs@),
            forall|i: int| 0 <= i < p ==> chars_less(#[trigger] pairs@[i].0@, key@),
        decreases pairs.len() - p,
    {
        p = p + 1;
    }
    proof {
        if p < pairs.len() {
            let x = pairs@[p as int].0@;
            lemma_chars_less_total_from(x, key@, 0);
            assert forall|i: int| p <= i < pairs.len() implies !chars_less(
                #[trigger] pairs@[i].0@,
                key@,
            ) by {
                if i > p {
                    if chars_less(pairs@[i].0@, key@) {
                        if x == key@ {
                            lemma_chars_less_transitive(x, pairs@[i].0@, key@);
                            lemma_chars_less_irreflexive(x);
                        } else {
                            lemma_chars_less_transitive(key@, x, pairs@[i].0@);
                            lemma_chars_less_transitive(key@, pairs@[i].0@, key@);
                            lemma_chars_less_irreflexive(key@);
                        }
                    }
                }
            }
            assert forall|i: int| p < i < pairs.len() implies chars_less(
                key@,
                #[trigger] pairs@[i].0@,
            ) by {
                if x == key@ {
                } else {
                    lemma_chars_less_transitive(key@, x, pairs@[i].0@);
                }
            }
        }
    }
    p
}

/// A map from strings to values, each key once, in increasing key order.
#[derive(Debug, Clone)]
pub struct StringMap<V> {
    entries: Vec<(String, V)>,
}

impl<V> StringMap<V> {
    /// The value of each key.
    pub closed spec fn view(&self) -> Map<Seq<char>, V> {
        pairs_map(self.entries@)
    }

    /// The pairs, in key order.
    pub closed spec fn pairs(&self) -> Seq<(String, V)> {
        self.entries@
    }

    /// The keys are in strictly increasing order.
    pub closed spec fn well_formed(&self) -> bool {
        keys_in_order(self.entries@)
    }

    /// The view is the map of the pairs, whose keys are in increasing order
    /// and so distinct.
    pub proof fn lemma_view_is_pairs(&self)
        ensures
            self@ == pairs_map(self.pairs()),
            self.well_formed() == keys_in_order(self.pairs()),
            self.well_formed() ==> unique_keys(self.pairs()),
    {
        if self.well_formed() {
            lemma_keys_in_order_unique(self.entries@);
        }
    }

    /// The map is empty exactly when it holds no pair.
    pub proof fn lemma_empty_iff_no_pairs(&self)
        ensures
            self@ == Map::<Seq<char>, V>::empty() <==> self.pairs().len() == 0,
    {
        if self.pairs().len() > 0 {
            let k = self.entries@[0].0@;
            assert(has_key(self.entries@, k));
            assert(self@.contains_key(k));
        } else {
            assert(self@ =~= Map::<Seq<char>, V>::empty());
        }
    }

    /// An empty map.
    pub fn new() -> (r: StringMap<V>)
        ensures
            r@ == Map::<Seq<char>, V>::empty(),
            r.pairs() == Seq::<(String, V)>::empty(),
            r.well_formed(),
    {
        let r = StringMap { entries: Vec::new() };
        assert(r@ =~= Map::<Seq<char>, V>::empty());
        r
    }

    /// Map `key` to `value`, replacing any earlier value.
    pub fn insert(&mut self, key: String, value: V)
        requires
            old(self).well_formed(),
        ensures
            final(self).well_formed(),
            final(self)@ == old(self)@.insert(key@, value),
    {
        let ghost k = key@;
        let ghost before = self.entries@;
        proof {
            lemma_keys_in_order_unique(before);
        }
        let p = key_position(&self.entries, &key);
        let found = p < self.entries.len() && str_eq(self.entries[p].0.as_str(), key.as_str());
        if found {
            self.entries.set(p, (key, value));
        } else {
            self.entries.insert(p, (key, value));
        }
        proof {
            let after = self.entries@;
            if found {
                assert forall|a: int, b: int| 0 <= a < b < after.len() implies chars_less(
                    after[a].0@,
                    after[b].0@,
                ) by {
                    assert(after[a].0@ == before[a].0@ && after[b].0@ == before[b].0@);
                }
            } else {
                assert(after =~= before.insert(p as int, (after[p as int].0, value)));
                if p < before.len() {
                    lemma_chars_less_total_from(before[p as int].0@, k, 0);
                }
                assert forall|a: int, b: int| 0 <= a < b < after.len() implies chars_less(
                    after[a].0@,
                    after[b].0@,
                ) by {
                    if b < p {
                        assert(after[a] == before[a] && after[b] == before[b]);
                    } else if b == p {
                        assert(after[a] == before[a]);
                    } else if a == p {
                        assert(after[b] == before[b - 1]);
                        if b - 1 > p {
                            lemma_chars_less_transitive(k, before[p as int].0@, before[b - 1].0@);
                        }
                    } else if a < p {
                        assert(after[a] == before[a] && after[b] == before[b - 1]);
                    } else {
                        assert(after[a] == before[a - 1] && after[b] == before[b - 1]);
                    }
                }
            }
            lemma_keys_in_order_unique(after);
            assert forall|x: Seq<char>| has_key(after, x) == (has_key(before, x) || x == k) by {
                if has_key(after, x) {
                    let j = choose|j: int| 0 <= j < after.len() && #[trigger] after[j].0@ == x;
                    if found {
                        assert(before[j].0@ == after[j].0@);
                    } else if j < p {
                        assert(before[j].0@ == x);
                    } else if j > p {
                        assert(before[j - 1].0@ == x);
                    }
                }
                if has_key(before, x) {
                    let j = choose|j: int| 0 <= j < before.len() && #[trigger] before[j].0@ == x;
                    if found {
                        assert(after[j].0@ == x);
                    } else if j < p {
                        assert(after[j].0@ == x);
                    } else {
                        assert(after[j + 1].0@ == x);
                    }
                }
                if x == k {
                    assert(after[p as int].0@ == x);
                }
            }
            assert forall|x: Seq<char>| has_key(after, x) implies lookup(after, x)->0 == (if x
                == k {
                value
            } else {
                lookup(before, x)->0
            }) by {
                let j = choose|j: int| 0 <= j < after.len() && #[trigger] after[j].0@ == x;
                lemma_lookup_keys(after, x);
                lemma_lookup_keys(before, x);
                if j == p {
                    assert(after[j].1 == value);
                    assert(x == k);
                } else {
                    assert(after[p as int].0@ == k);
                    assert(x != k);
                    if found || j < p {
                        assert(after[j] == before[j]);
                    } else {
                        assert(after[j] == before[j - 1]);
                    }
                }
            }
            assert(pairs_map(after) =~= pairs_map(before).insert(k, value));
        }
    }

    /// The value of `key`, if it has one.
    pub fn get(&self, key: &String) -> (r: Option<&V>)
        requires
            self.well_formed(),
        ensures
            match r {
                Some(v) => self@.contains_key(key@) && self@[key@] == *v,
                None => !self@.contains_key(key@),
            },
    {
        let mut i: usize = 0;
        proof {
            lemma_keys_in_order_unique(self.entries@);
        }
        while i < self.entries.len()
            invariant
                i <= self.entries.len(),
                unique_keys(self.entries@),
                forall|j: int| 0 <= j < i ==> self.entries@[j].0@ != key@,
            decreases self.entries.len() - i,
        {
            if self.entries[i].0 == *key {
                proof {
                    lemma_lookup_keys(self.entries@, key@);
                }
                return Some(&self.entries[i].1);
            }
            i = i + 1;
        }
        None
    }

    /// Number of keys.
    pub fn len(&self) -> (r: usize)
        ensures
            r == self.pairs().len(),
    {
        self.entries.len()
    }

    /// The pairs, in key order, taken out of the map.
    pub fn into_pairs(self) -> (r: Vec<(String, V)>)
        ensures
            r@ == self.pairs(),
    {
        self.entries
    }

    /// The pairs, in key order.
    pub fn as_pairs(&self) -> (r: &Vec<(String, V)>)
        ensures
            r@ == self.pairs(),
    {
        &self.entries
    }
}

} // verus!
