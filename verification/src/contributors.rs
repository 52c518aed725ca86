//! Per-developer line counts, and how the counts of several commits merge.
use crate::attestation::{has_key, lemma_lookup_keys, lookup, unique_keys};
use crate::string_map::{lemma_pairs_map_take, pairs_map, StringMap};
use vstd::prelude::*;

verus! {

/// Per `tool::model` line counts of one contributor.
#[derive(Debug, Clone, Copy, PartialEq, Eq, Structural)]
pub struct ToolModelContributorStats {
    pub ai_additions: u32,
    pub ai_accepted: u32,
    pub mixed_additions: u32,
}

impl Default for ToolModelContributorStats {
    fn default() -> (r: ToolModelContributorStats)
        ensures
            r == zero_counts(),
    {
        ToolModelContributorStats { ai_additions: 0, ai_accepted: 0, mixed_additions: 0 }
    }
}

/// Per-developer line counts, keyed by email in the contributors map.
#[derive(Debug, Clone)]
pub struct ContributorStats {
    pub name: String,
    pub human_additions: u32,
    pub manual_additions: u32,
    pub ai_additions: u32,
    pub ai_accepted: u32,
    pub mixed_additions: u32,
    pub tool_model_breakdown: StringMap<ToolModelContributorStats>,
}

/// Counts that no line has added to.
pub open spec fn zero_counts() -> ToolModelContributorStats {
    ToolModelContributorStats { ai_additions: 0, ai_accepted: 0, mixed_additions: 0 }
}

/// The counts of `k`, or zero counts when it has none.
pub open spec fn counts_or_zero(m: Map<Seq<char>, ToolModelContributorStats>, k: Seq<char>) -> ToolModelContributorStats {
    if m.contains_key(k) {
        m[k]
    } else {
        zero_counts()
    }
}

/// The field-by-field sum of two counts fits in `u32`.
pub open spec fn counts_fit(a: ToolModelContributorStats, b: ToolModelContributorStats) -> bool {
    &&& a.ai_additions + b.ai_additions <= u32::MAX
    &&& a.ai_accepted + b.ai_accepted <= u32::MAX
    &&& a.mixed_additions + b.mixed_additions <= u32::MAX
}

/// The field-by-field sum of two counts.
pub open spec fn counts_sum(a: ToolModelContributorStats, b: ToolModelContributorStats) -> ToolModelContributorStats {
    ToolModelContributorStats {
        ai_additions: (a.ai_additions + b.ai_additions) as u32,
        ai_accepted: (a.ai_accepted + b.ai_accepted) as u32,
        mixed_additions: (a.mixed_additions + b.mixed_additions) as u32,
    }
}

/// Two breakdowns merged: every `tool::model` of either, with its counts
/// summed.
pub open spec fn merged_breakdown(
    a: Map<Seq<char>, ToolModelContributorStats>,
    b: Map<Seq<char>, ToolModelContributorStats>,
) -> Map<Seq<char>, ToolModelContributorStats> {
    Map::new(
        |k: Seq<char>| a.contains_key(k) || b.contains_key(k),
        |k: Seq<char>| counts_sum(counts_or_zero(a, k), counts_or_zero(b, k)),
    )
}

/// Merging keeps every `tool::model` of either breakdown, and nothing else,
/// and adds up each of its counts, a missing one counting zero.
pub proof fn lemma_merged_breakdown_adds(
    a: Map<Seq<char>, ToolModelContributorStats>,
    b: Map<Seq<char>, ToolModelContributorStats>,
    k: Seq<char>,
)
    requires
        a.contains_key(k) ==> b.contains_key(k) ==> counts_fit(a[k], b[k]),
    ensures
        merged_breakdown(a, b).contains_key(k) <==> (a.contains_key(k) || b.contains_key(k)),
        merged_breakdown(a, b).contains_key(k) ==> {
            let m = merged_breakdown(a, b)[k];
            let x = if a.contains_key(k) {
                a[k]
            } else {
                ToolModelContributorStats { ai_additions: 0, ai_accepted: 0, mixed_additions: 0 }
            };
            let y = if b.contains_key(k) {
                b[k]
            } else {
                ToolModelContributorStats { ai_additions: 0, ai_accepted: 0, mixed_additions: 0 }
            };
            &&& m.ai_additions == x.ai_additions + y.ai_additions
            &&& m.ai_accepted == x.ai_accepted + y.ai_accepted
            &&& m.mixed_additions == x.mixed_additions + y.mixed_additions
        },
{
}

/// Every sum of a merge fits in `u32`.
pub open spec fn merge_fits(a: ContributorStats, b: ContributorStats) -> bool {
    &&& a.human_additions + b.human_additions <= u32::MAX
    &&& a.manual_additions + b.manual_additions <= u32::MAX
    &&& a.ai_additions + b.ai_additions <= u32::MAX
    &&& a.ai_accepted + b.ai_accepted <= u32::MAX
    &&& a.mixed_additions + b.mixed_additions <= u32::MAX
    &&& forall|k: Seq<char>|
        #[trigger] b.tool_model_breakdown@.contains_key(k) ==> counts_fit(
            counts_or_zero(a.tool_model_breakdown@, k),
            b.tool_model_breakdown@[k],
        )
}

/// Merge the `tool::model` counts of `other` into `target`.
fn merge_breakdown(
    target: &mut StringMap<ToolModelContributorStats>,
    other: &StringMap<ToolModelContributorStats>,
)
    requires
        old(target).well_formed(),
        other.well_formed(),
        forall|k: Seq<char>|
            #[trigger] other@.contains_key(k) ==> counts_fit(counts_or_zero(old(target)@, k), other@[k]),
    ensures
        final(target).well_formed(),
        final(target)@ == merged_breakdown(old(target)@, other@),
{
    let ghost start = target@;
    let pairs = other.as_pairs();
    proof {
        other.lemma_view_is_pairs();
    }
    let mut i: usize = 0;
    while i < pairs.len()
        invariant
            i <= pairs.len(),
            pairs@ == other.pairs(),
            unique_keys(pairs@),
            other@ == pairs_map(pairs@),
            target.well_formed(),
            forall|k: Seq<char>|
                #[trigger] other@.contains_key(k) ==> counts_fit(
                    counts_or_zero(start, k),
                    other@[k],
                ),
            target@ == merged_breakdown(
                start,
                pairs_map(pairs@.take(i as int)),
            ),
        decreases pairs.len() - i,
    {
        let key = &pairs[i].0;
        let more = pairs[i].1;
        proof {
            lemma_lookup_keys(pairs@, key@);
            assert(has_key(pairs@, key@));
            assert(other@.contains_key(key@));
            assert(other@[key@] == more);
            let before = pairs@.take(i as int);
            assert(!has_key(before, key@)) by {
                if has_key(before, key@) {
                    let j = choose|j: int| 0 <= j < before.len() && #[trigger] before[j].0@ == key@;
                    assert(pairs@[j].0@ != pairs@[i as int].0@);
                }
            }
        }
        let current = match target.get(key) {
            Some(c) => *c,
            None => ToolModelContributorStats::default(),
        };
        let sum = ToolModelContributorStats {
            ai_additions: current.ai_additions + more.ai_additions,
            ai_accepted: current.ai_accepted + more.ai_accepted,
            mixed_additions: current.mixed_additions + more.mixed_additions,
        };
        let ghost prev = target@;
        target.insert(key.clone(), sum);
        proof {
            let before = pairs@.take(i as int);
            let after = pairs@.take(i + 1);
            assert(after =~= before.push(pairs@[i as int]));
            assert forall|k: Seq<char>| has_key(after, k) == (
            has_key(before, k) || k == key@) by {
                if has_key(after, k) {
                    let j = choose|j: int| 0 <= j < after.len() && #[trigger] after[j].0@ == k;
                    if j < before.len() {
                        assert(before[j].0@ == k);
                    }
                }
                if has_key(before, k) {
                    let j = choose|j: int| 0 <= j < before.len() && #[trigger] before[j].0@ == k;
                    assert(after[j].0@ == k);
                }
                if k == key@ {
                    assert(after[i as int].0@ == k);
                }
            }
            assert forall|k: Seq<char>| has_key(after, k) implies (
            lookup(after, k)->0 == if k == key@ {
                more
            } else {
                lookup(before, k)->0
            }) by {
                lemma_lookup_keys(after, k);
                lemma_lookup_keys(before, k);
                if k == key@ {
                    assert(after[i as int].0@ == k);
                    assert(unique_keys(after)) by {
                        assert forall|a: int, b: int| 0 <= a < b < after.len() implies after[a].0@
                            != after[b].0@ by {
                            assert(pairs@[a].0@ != pairs@[b].0@);
                        }
                    }
                } else {
                    let j = choose|j: int| 0 <= j < after.len() && #[trigger] after[j].0@ == k;
                    assert(j < before.len());
                    assert(before[j].0@ == k);
                    assert(unique_keys(after)) by {
                        assert forall|a: int, b: int| 0 <= a < b < after.len() implies after[a].0@
                            != after[b].0@ by {
                            assert(pairs@[a].0@ != pairs@[b].0@);
                        }
                    }
                    assert(unique_keys(before)) by {
                        assert forall|a: int, b: int| 0 <= a < b < before.len() implies before[a].0@
                            != before[b].0@ by {
                            assert(pairs@[a].0@ != pairs@[b].0@);
                        }
                    }
                }
            }
            let pb = pairs_map(before);
            let pa = pairs_map(after);
            assert(!pb.contains_key(key@));
            assert(counts_or_zero(prev, key@) == counts_or_zero(start, key@));
            assert(current == counts_or_zero(prev, key@));
            assert(target@ =~= merged_breakdown(start, pa));
        }
        i = i + 1;
    }
    proof {
        assert(pairs@.take(pairs.len() as int) =~= pairs@);
    }
}

impl ContributorStats {
    /// Merge another ContributorStats into this one by summing all numeric
    /// fields; the name is taken from `other` when this one has none.
    /// Acceptance rates are not summed: they are recalculated after all
    /// merges.
    pub fn merge_from(&mut self, other: &ContributorStats)
        requires
            old(self).tool_model_breakdown.well_formed(),
            other.tool_model_breakdown.well_formed(),
            merge_fits(*old(self), *other),
        ensures
            final(self).name@ == (if old(self).name@.len() == 0 {
                other.name@
            } else {
                old(self).name@
            }),
            final(self).human_additions == old(self).human_additions + other.human_additions,
            final(self).manual_additions == old(self).manual_additions + other.manual_additions,
            final(self).ai_additions == old(self).ai_additions + other.ai_additions,
            final(self).ai_accepted == old(self).ai_accepted + other.ai_accepted,
            final(self).mixed_additions == old(self).mixed_additions + other.mixed_additions,
            final(self).tool_model_breakdown.well_formed(),
            final(self).tool_model_breakdown@ == merged_breakdown(
                old(self).tool_model_breakdown@,
                other.tool_model_breakdown@,
            ),
    {
        if self.name.unicode_len() == 0 {
            self.name = other.name.clone();
        }
        self.human_additions = self.human_additions + other.human_additions;
        self.manual_additions = self.manual_additions + other.manual_additions;
        self.ai_additions = self.ai_additions + other.ai_additions;
        self.ai_accepted = self.ai_accepted + other.ai_accepted;
        self.mixed_additions = self.mixed_additions + other.mixed_additions;
        merge_breakdown(&mut self.tool_model_breakdown, &other.tool_model_breakdown);
    }
}

/// A contributor's fields as plain values.
pub open spec fn stats_view(s: ContributorStats) -> (
    Seq<char>,
    (u32, u32, u32, u32, u32),
    Map<Seq<char>, ToolModelContributorStats>,
) {
    (
        s.name@,
        (s.human_additions, s.manual_additions, s.ai_additions, s.ai_accepted, s.mixed_additions),
        s.tool_model_breakdown@,
    )
}

/// Each contributor's breakdown names each `tool::model` once.
pub open spec fn contributors_well_formed(m: StringMap<ContributorStats>) -> bool {
    &&& m.well_formed()
    &&& forall|k: Seq<char>| #[trigger] m@.contains_key(k) ==> m@[k].tool_model_breakdown.well_formed()
}

/// `copy` holds the same contributors as `m`, with the same fields.
pub open spec fn same_contributors(copy: StringMap<ContributorStats>, m: StringMap<ContributorStats>) -> bool {
    &&& contributors_well_formed(copy)
    &&& copy@.dom() == m@.dom()
    &&& forall|k: Seq<char>| #[trigger] copy@.contains_key(k) ==> stats_view(copy@[k]) == stats_view(m@[k])
}

/// A copy of a breakdown.
fn copy_breakdown(m: &StringMap<ToolModelContributorStats>) -> (r: StringMap<ToolModelContributorStats>)
    requires
        m.well_formed(),
    ensures
        r.well_formed(),
        r@ == m@,
{
    let pairs = m.as_pairs();
    proof {
        m.lemma_view_is_pairs();
    }
    let mut r: StringMap<ToolModelContributorStats> = StringMap::new();
    let mut i: usize = 0;
    assert(pairs_map(pairs@.take(0)) =~= Map::<Seq<char>, ToolModelContributorStats>::empty());
    while i < pairs.len()
        invariant
            i <= pairs.len(),
            unique_keys(pairs@),
            r.well_formed(),
            r@ == pairs_map(pairs@.take(i as int)),
        decreases pairs.len() - i,
    {
        proof {
            lemma_pairs_map_take(pairs@, i as int);
        }
        r.insert(pairs[i].0.clone(), pairs[i].1);
        i = i + 1;
    }
    assert(pairs@.take(pairs.len() as int) =~= pairs@);
    r
}

impl ContributorStats {
    /// A copy of these counts.
    pub fn duplicate(&self) -> (r: ContributorStats)
        requires
            self.tool_model_breakdown.well_formed(),
        ensures
            stats_view(r) == stats_view(*self),
            r.tool_model_breakdown.well_formed(),
    {
        ContributorStats {
            name: self.name.clone(),
            human_additions: self.human_additions,
            manual_additions: self.manual_additions,
            ai_additions: self.ai_additions,
            ai_accepted: self.ai_accepted,
            mixed_additions: self.mixed_additions,
            tool_model_breakdown: copy_breakdown(&self.tool_model_breakdown),
        }
    }
}

/// A copy of the contributors map.
pub fn copy_contributors(m: &StringMap<ContributorStats>) -> (r: StringMap<ContributorStats>)
    requires
        contributors_well_formed(*m),
    ensures
        same_contributors(r, *m),
{
    let pairs = m.as_pairs();
    proof {
        m.lemma_view_is_pairs();
    }
    let mut r: StringMap<ContributorStats> = StringMap::new();
    let mut i: usize = 0;
    while i < pairs.len()
        invariant
            i <= pairs.len(),
            unique_keys(pairs@),
            m@ == pairs_map(pairs@),
            contributors_well_formed(*m),
            contributors_well_formed(r),
            r@.dom() == pairs_map(pairs@.take(i as int)).dom(),
            forall|k: Seq<char>|
                #[trigger] r@.contains_key(k) ==> stats_view(r@[k]) == stats_view(
                    pairs_map(pairs@.take(i as int))[k],
                ),
        decreases pairs.len() - i,
    {
        proof {
            lemma_pairs_map_take(pairs@, i as int);
            lemma_lookup_keys(pairs@, pairs@[i as int].0@);
            assert(has_key(pairs@, pairs@[i as int].0@));
            assert(m@.contains_key(pairs@[i as int].0@));
            assert(m@[pairs@[i as int].0@] == pairs@[i as int].1);
        }
        let copy = pairs[i].1.duplicate();
        let ghost prev = r@;
        r.insert(pairs[i].0.clone(), copy);
        proof {
            let next = pairs_map(pairs@.take(i + 1));
            assert(r@.dom() =~= next.dom());
            assert forall|k: Seq<char>| #[trigger] r@.contains_key(k) implies r@[k].tool_model_breakdown.well_formed() by {
                if k != pairs@[i as int].0@ {
                    assert(prev.contains_key(k));
                }
            }
        }
        i = i + 1;
    }
    assert(pairs@.take(pairs.len() as int) =~= pairs@);
    r
}

} // verus!
