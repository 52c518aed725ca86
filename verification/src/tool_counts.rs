//! Line counts keyed by a `tool::model` name, in name order.
use crate::path_order::{chars_less, lemma_chars_less_irreflexive, lemma_chars_less_total_from, lemma_chars_less_transitive};
use crate::string_map::{key_position, keys_in_order};
use crate::text::str_eq;
use vstd::prelude::*;

verus! {

/// The counts held by a list of (name, count) pairs.
pub open spec fn counts_map(s: Seq<(String, u32)>) -> Map<Seq<char>, int>
    decreases s.len(),
{
    if s.len() == 0 {
        Map::empty()
    } else {
        counts_map(s.drop_last()).insert(s.last().0@, s.last().1 as int)
    }
}

/// No name occurs twice.
pub open spec fn unique_names(s: Seq<(String, u32)>) -> bool {
    forall|i: int, j: int| 0 <= i < j < s.len() ==> s[i].0@ != s[j].0@
}

/// `counts` with `amount` added to the count of `name` (a missing name counts
/// zero).
pub open spec fn bump(counts: Map<Seq<char>, int>, name: Seq<char>, amount: int) -> Map<
    Seq<char>,
    int,
> {
    counts.insert(
        name,
        (if counts.contains_key(name) {
            counts[name]
        } else {
            0
        }) + amount,
    )
}

/// The sum of the counts of a list of (name, count) pairs.
pub open spec fn counts_sum(s: Seq<(String, u32)>) -> int
    decreases s.len(),
{
    if s.len() == 0 {
        0
    } else {
        counts_sum(s.drop_last()) + s.last().1 as int
    }
}

proof fn lemma_counts_sum_update(s: Seq<(String, u32)>, i: int, v: u32)
    requires
        0 <= i < s.len(),
    ensures
        counts_sum(s.update(i, (s[i].0, v))) == counts_sum(s) - s[i].1 + v,
    decreases s.len(),
{
    let t = s.update(i, (s[i].0, v));
    if i == s.len() - 1 {
        assert(t.drop_last() =~= s.drop_last());
    } else {
        assert(t.drop_last() =~= s.drop_last().update(i, (s[i].0, v)));
        lemma_counts_sum_update(s.drop_last(), i, v);
    }
}

proof fn lemma_counts_insert(s: Seq<(String, u32)>, p: int, item: (String, u32))
    requires
        0 <= p <= s.len(),
        unique_names(s),
        forall|i: int| 0 <= i < s.len() ==> s[i].0@ != item.0@,
    ensures
        counts_map(s.insert(p, item)) =~= counts_map(s).insert(item.0@, item.1 as int),
        counts_sum(s.insert(p, item)) == counts_sum(s) + item.1,
    decreases s.len(),
{
    let t = s.insert(p, item);
    if p == s.len() {
        assert(t.drop_last() =~= s);
    } else {
        assert(t.drop_last() =~= s.drop_last().insert(p, item));
        lemma_counts_insert(s.drop_last(), p, item);
        assert(t.last() == s.last());
        lemma_counts_absent(s.drop_last(), item.0@);
    }
}

proof fn lemma_counts_absent(s: Seq<(String, u32)>, name: Seq<char>)
    requires
        forall|i: int| 0 <= i < s.len() ==> s[i].0@ != name,
    ensures
        !counts_map(s).contains_key(name),
    decreases s.len(),
{
    if s.len() > 0 {
        lemma_counts_absent(s.drop_last(), name);
    }
}

proof fn lemma_counts_lookup(s: Seq<(String, u32)>, i: int)
    requires
        unique_names(s),
        0 <= i < s.len(),
    ensures
        counts_map(s).contains_key(s[i].0@),
        counts_map(s)[s[i].0@] == s[i].1 as int,
    decreases s.len(),
{
    if i < s.len() - 1 {
        lemma_counts_lookup(s.drop_last(), i);
    }
}

proof fn lemma_counts_update(s: Seq<(String, u32)>, i: int, v: u32)
    requires
        unique_names(s),
        0 <= i < s.len(),
    ensures
        counts_map(s.update(i, (s[i].0, v))) =~= counts_map(s).insert(s[i].0@, v as int),
    decreases s.len(),
{
    let t = s.update(i, (s[i].0, v));
    if i == s.len() - 1 {
        assert(t.drop_last() =~= s.drop_last());
    } else {
        assert(t.drop_last() =~= s.drop_last().update(i, (s[i].0, v)));
        lemma_counts_update(s.drop_last(), i, v);
    }
}

proof fn lemma_in_order_unique(s: Seq<(String, u32)>)
    requires
        keys_in_order(s),
    ensures
        unique_names(s),
{
    assert forall|i: int, j: int| 0 <= i < j < s.len() implies s[i].0@ != s[j].0@ by {
        lemma_chars_less_irreflexive(s[i].0@);
    }
}

/// Accepted-line counts per `tool::model`, each name once, in name order.
#[derive(Debug, Clone)]
pub struct ToolModelCounts {
    entries: Vec<(String, u32)>,
}

impl ToolModelCounts {
    /// The count of each name.
    pub closed spec fn view(&self) -> Map<Seq<char>, int> {
        counts_map(self.entries@)
    }

    /// The names are in strictly increasing order, so each occurs once.
    pub closed spec fn well_formed(&self) -> bool {
        keys_in_order(self.entries@)
    }

    /// The sum of the counts of all names.
    pub closed spec fn total(&self) -> int {
        counts_sum(self.entries@)
    }

    /// No counts.
    pub fn new() -> (r: ToolModelCounts)
        ensures
            r@ == Map::<Seq<char>, int>::empty(),
            r.well_formed(),
            r.total() == 0,
    {
        ToolModelCounts { entries: Vec::new() }
    }

    /// Add `amount` to the count of `name`.
    pub fn add(&mut self, name: String, amount: u32)
        requires
            old(self).well_formed(),
            old(self)@.contains_key(name@) ==> old(self)@[name@] + amount <= u32::MAX,
        ensures
            final(self).well_formed(),
            final(self)@ == bump(old(self)@, name@, amount as int),
            final(self).total() == old(self).total() + amount,
    {
        let ghost before = self.entries@;
        let ghost k = name@;
        proof {
            lemma_in_order_unique(before);
        }
        let p = key_position(&self.entries, &name);
        if p < self.entries.len() && str_eq(self.entries[p].0.as_str(), name.as_str()) {
            proof {
                lemma_counts_lookup(before, p as int);
            }
            let old_count = self.entries[p].1;
            proof {
                lemma_counts_update(before, p as int, (old_count + amount) as u32);
                lemma_counts_sum_update(before, p as int, (old_count + amount) as u32);
            }
            let n = self.entries[p].0.clone();
            self.entries.set(p, (n, old_count + amount));
            proof {
                let after = self.entries@;
                assert(after =~= before.update(p as int, (before[p as int].0, (old_count + amount) as u32)));
                assert forall|a: int, b: int| 0 <= a < b < after.len() implies chars_less(
                    after[a].0@,
                    after[b].0@,
                ) by {
                    assert(after[a].0@ == before[a].0@ && after[b].0@ == before[b].0@);
                }
            }
        } else {
            proof {
                assert forall|i: int| 0 <= i < before.len() implies before[i].0@ != k by {
                    if i < p {
                        lemma_chars_less_irreflexive(k);
                    } else if i > p {
                        lemma_chars_less_irreflexive(k);
                    }
                }
                lemma_counts_absent(before, k);
                if p < before.len() {
                    lemma_chars_less_total_from(before[p as int].0@, k, 0);
                }
            }
            self.entries.insert(p, (name, amount));
            proof {
                let after = self.entries@;
                let item = after[p as int];
                assert(after =~= before.insert(p as int, item));
                assert forall|a: int, b: int| 0 <= a < b < after.len() implies chars_less(
                    after[a].0@,
                    after[b].0@,
                ) by {
                    if b < p {
                        assert(after[a] == before[a] && after[b] == before[b]);
                    } else if b == p {
                        assert(after[a] == before[a]);
                    } else if a == p {
                        assert(after[b] == before[b - 1]);
                        if b - 1 > p {
                            lemma_chars_less_transitive(k, before[p as int].0@, before[b - 1].0@);
                        }
                    } else if a < p {
                        assert(after[a] == before[a] && after[b] == before[b - 1]);
                    } else {
                        assert(after[a] == before[a - 1] && after[b] == before[b - 1]);
                    }
                }
                lemma_counts_insert(before, p as int, item);
            }
        }
    }

    /// The count of `name`, if it has one.
    pub fn get(&self, name: &String) -> (r: Option<&u32>)
        requires
            self.well_formed(),
        ensures
            match r {
                Some(v) => self@.contains_key(name@) && self@[name@] == *v as int,
                None => !self@.contains_key(name@),
            },
    {
        proof {
            lemma_in_order_unique(self.entries@);
        }
        let mut i: usize = 0;
        while i < self.entries.len()
            invariant
                i <= self.entries.len(),
                unique_names(self.entries@),
                forall|k: int| 0 <= k < i ==> self.entries@[k].0@ != name@,
            decreases self.entries.len() - i,
        {
            if self.entries[i].0 == *name {
                proof {
                    lemma_counts_lookup(self.entries@, i as int);
                }
                return Some(&self.entries[i].1);
            }
            i = i + 1;
        }
        proof {
            lemma_counts_absent(self.entries@, name@);
        }
        None
    }

    /// No name has a count.
    pub fn is_empty(&self) -> (r: bool)
        requires
            self.well_formed(),
        ensures
            r == (self@.dom() =~= Set::<Seq<char>>::empty()),
    {
        if self.entries.len() == 0 {
            assert(self@ =~= Map::<Seq<char>, int>::empty());
            true
        } else {
            proof {
                lemma_in_order_unique(self.entries@);
                lemma_counts_lookup(self.entries@, 0);
            }
            assert(self@.dom().contains(self.entries@[0].0@));
            false
        }
    }

    /// The (name, count) pairs, each name once, in name order.
    pub fn to_vec(&self) -> (r: Vec<(String, u32)>)
        ensures
            counts_map(r@) == self@,
            self.well_formed() ==> unique_names(r@) && keys_in_order(r@),
    {
        proof {
            if self.well_formed() {
                lemma_in_order_unique(self.entries@);
            }
        }
        let mut r: Vec<(String, u32)> = Vec::new();
        let mut i: usize = 0;
        while i < self.entries.len()
            invariant
                i <= self.entries.len(),
                r@ =~= self.entries@.take(i as int),
            decreases self.entries.len() - i,
        {
            let name = self.entries[i].0.clone();
            r.push((name, self.entries[i].1));
            assert(self.entries@.take(i + 1) =~= self.entries@.take(i as int).push(
                self.entries@[i as int],
            ));
            i = i + 1;
        }
        assert(self.entries@.take(i as int) =~= self.entries@);
        r
    }
}

} // verus!
