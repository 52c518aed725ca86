//! Lines of a file attributed to an author: a single line or an inclusive
//! range of lines.
use crate::text::{decimal, decimal_string, digits_value, lemma_decimal_spells, push_char};
use vstd::prelude::*;
use vstd::string::*;

verus! {

/// Represents either a single line or a range of lines (`start`, `end`, both
/// inclusive).
#[derive(Debug, Clone, Copy, PartialEq, Eq, Structural, PartialOrd, Ord)]
pub enum LineRange {
    Single(u32),
    Range(u32, u32),
}

/// The lines `start, start + 1, ..., end` (empty when `start > end`).
pub open spec fn span(start: int, end: int) -> Seq<int> {
    Seq::new(if start <= end { (end - start + 1) as nat } else { 0 }, |i: int| start + i)
}

/// The lines of all ranges, one range after the other.
pub open spec fn expand_all(ranges: Seq<LineRange>) -> Seq<int>
    decreases ranges.len(),
{
    if ranges.len() == 0 {
        Seq::empty()
    } else {
        expand_all(ranges.drop_last()) + ranges.last().lines()
    }
}

/// Some range of `ranges` covers `line`.
pub open spec fn any_covers(ranges: Seq<LineRange>, line: int) -> bool {
    exists|i: int| 0 <= i < ranges.len() && #[trigger] ranges[i].covers(line)
}

/// Every line number is greater than the one before it.
pub open spec fn strictly_increasing(lines: Seq<u32>) -> bool {
    forall|a: int, b: int| 0 <= a < b < lines.len() ==> lines[a] < lines[b]
}

/// The line numbers of a slice, as integers.
pub open spec fn as_ints(lines: Seq<u32>) -> Seq<int> {
    lines.map_values(|l: u32| l as int)
}

/// The range from `start` to `end` in its shortest form.
pub open spec fn piece(start: u32, end: u32) -> LineRange {
    if start == end {
        LineRange::Single(start)
    } else {
        LineRange::Range(start, end)
    }
}

/// What is left of `range` once `removed` is taken out of it, as at most two
/// pieces: the part before `removed` and the part after it.
pub open spec fn removal(range: LineRange, removed: LineRange) -> Seq<LineRange> {
    if removed.first() > range.last() || removed.last() < range.first() {
        seq![range]
    } else {
        let left = if range.first() < removed.first() {
            seq![LineRange::Range(range.first() as u32, (removed.first() - 1) as u32)]
        } else {
            Seq::empty()
        };
        let right = if range.last() > removed.last() {
            seq![LineRange::Range((removed.last() + 1) as u32, range.last() as u32)]
        } else {
            Seq::empty()
        };
        left + right
    }
}

/// Where `line` lands after `offset` lines are inserted (or, when negative,
/// deleted) at `insertion_point`; `None` when it leaves the `u32` line space.
pub open spec fn shifted_line(line: u32, insertion_point: u32, offset: i32) -> Option<u32> {
    if line >= insertion_point {
        let shifted = line + offset;
        if 0 <= shifted <= u32::MAX {
            Some(shifted as u32)
        } else {
            None
        }
    } else {
        Some(line)
    }
}

/// The result of shifting `range`: both ends are shifted, and the range must
/// stay non-empty; a range whose ends meet becomes a single line.
pub open spec fn shifted_range(range: LineRange, insertion_point: u32, offset: i32) -> Option<
    LineRange,
> {
    match range {
        LineRange::Single(l) => match shifted_line(l, insertion_point, offset) {
            Some(n) => Some(LineRange::Single(n)),
            None => None,
        },
        LineRange::Range(start, end) => match (
            shifted_line(start, insertion_point, offset),
            shifted_line(end, insertion_point, offset),
        ) {
            (Some(s), Some(e)) => if s <= e {
                Some(piece(s, e))
            } else {
                None
            },
            _ => None,
        },
    }
}

/// How a range is displayed: a single line as its number, a range as
/// `[start, end]`.
pub open spec fn range_text(r: LineRange) -> Seq<char> {
    match r {
        LineRange::Single(l) => decimal(l as nat),
        LineRange::Range(start, end) => seq!['['] + decimal(start as nat) + seq![',', ' '] + decimal(
            end as nat,
        ) + seq![']'],
    }
}

impl LineRange {
    /// The range as it is displayed: `5` or `[3, 7]`.
    pub fn to_string(&self) -> (r: String)
        ensures
            r@ == range_text(*self),
    {
        match self {
            LineRange::Single(l) => decimal_string(*l),
            LineRange::Range(start, end) => {
                let mut r = String::new();
                push_char(&mut r, '[');
                let a = decimal_string(*start);
                r.append(a.as_str());
                push_char(&mut r, ',');
                push_char(&mut r, ' ');
                let b = decimal_string(*end);
                r.append(b.as_str());
                push_char(&mut r, ']');
                assert(r@ =~= seq!['['] + decimal(*start as nat) + seq![',', ' '] + decimal(
                    *end as nat,
                ) + seq![']']);
                r
            },
        }
    }

    /// First line of the range.
    pub open spec fn first(self) -> int {
        match self {
            LineRange::Single(l) => l as int,
            LineRange::Range(start, _) => start as int,
        }
    }

    /// Last line of the range.
    pub open spec fn last(self) -> int {
        match self {
            LineRange::Single(l) => l as int,
            LineRange::Range(_, end) => end as int,
        }
    }

    /// The range holds `line`.
    pub open spec fn covers(self, line: int) -> bool {
        self.first() <= line <= self.last()
    }

    /// The range holds at least one line.
    pub open spec fn is_well_formed(self) -> bool {
        self.first() <= self.last()
    }

    /// A `Range` spans at least two lines (a single line is written `Single`).
    pub open spec fn is_canonical(self) -> bool {
        self.first() <= self.last() && (self is Range ==> self.first() < self.last())
    }

    /// The lines of the range in increasing order.
    pub open spec fn lines(self) -> Seq<int> {
        span(self.first(), self.last())
    }

    /// The two ranges have a line number in common by their bounds.
    pub open spec fn overlaps_spec(self, other: LineRange) -> bool {
        self.first() <= other.last() && other.first() <= self.last()
    }

    /// Whether the range holds `line`.
    pub fn contains(&self, line: u32) -> (r: bool)
        ensures
            r == self.covers(line as int),
    {
        match self {
            LineRange::Single(l) => *l == line,
            LineRange::Range(start, end) => line >= *start && line <= *end,
        }
    }

    /// Whether the two ranges share a line.
    pub fn overlaps(&self, other: &LineRange) -> (r: bool)
        ensures
            r == self.overlaps_spec(*other),
            self.is_well_formed() && other.is_well_formed() ==> (r <==> exists|line: int|
                self.covers(line) && other.covers(line)),
    {
        let r = match (self, other) {
            (LineRange::Single(l1), LineRange::Single(l2)) => l1 == l2,
            (LineRange::Single(l), LineRange::Range(start, end)) => *l >= *start && *l <= *end,
            (LineRange::Range(start, end), LineRange::Single(l)) => *l >= *start && *l <= *end,
            (LineRange::Range(start1, end1), LineRange::Range(start2, end2)) => {
                start1 <= end2 && start2 <= end1
            },
        };
        proof {
            if self.is_well_formed() && other.is_well_formed() && r {
                let w = if self.first() <= other.first() {
                    other.first()
                } else {
                    self.first()
                };
                assert(self.covers(w) && other.covers(w));
            }
        }
        r
    }

    /// Remove a line or range from this range, returning the remaining parts.
    pub fn remove(&self, to_remove: &LineRange) -> (r: Vec<LineRange>)
        ensures
            r@ == removal(*self, *to_remove),
            r.len() <= 2,
            self.is_well_formed() ==> forall|i: int|
                0 <= i < r.len() ==> #[trigger] r[i].is_well_formed(),
            forall|line: int|
                any_covers(r@, line) <==> self.covers(line) && !to_remove.covers(line),
    {
        let r = match (self, to_remove) {
            (LineRange::Single(l), LineRange::Single(rm)) => {
                if l == rm {
                    Vec::new()
                } else {
                    vec![LineRange::Single(*l)]
                }
            },
            (LineRange::Single(l), LineRange::Range(start, end)) => {
                if *l >= *start && *l <= *end {
                    Vec::new()
                } else {
                    vec![LineRange::Single(*l)]
                }
            },
            (LineRange::Range(start, end), LineRange::Single(rm)) => {
                if *rm < *start || *rm > *end {
                    vec![LineRange::Range(*start, *end)]
                } else if *rm == *start && *rm == *end {
                    Vec::new()
                } else if *rm == *start {
                    vec![LineRange::Range(*start + 1, *end)]
                } else if *rm == *end {
                    vec![LineRange::Range(*start, *end - 1)]
                } else {
                    vec![LineRange::Range(*start, *rm - 1), LineRange::Range(*rm + 1, *end)]
                }
            },
            (LineRange::Range(start1, end1), LineRange::Range(start2, end2)) => {
                if *start2 > *end1 || *end2 < *start1 {
                    vec![LineRange::Range(*start1, *end1)]
                } else {
                    let mut result = Vec::new();
                    if *start1 < *start2 {
                        result.push(LineRange::Range(*start1, *start2 - 1));
                    }
                    if *end1 > *end2 {
                        result.push(LineRange::Range(*end2 + 1, *end1));
                    }
                    result
                }
            },
        };
        proof {
            let spec_r = removal(*self, *to_remove);
            assert(r@ =~= spec_r);
            if self.is_well_formed() {
                assert forall|i: int| 0 <= i < r.len() implies #[trigger] r[i].is_well_formed() by {
                    assert(spec_r[i].is_well_formed());
                }
            }
            assert forall|line: int|
                any_covers(r@, line) <==> self.covers(line) && !to_remove.covers(line) by {
                if self.covers(line) && !to_remove.covers(line) {
                    if to_remove.first() > self.last() || to_remove.last() < self.first() {
                        assert(r@[0].covers(line));
                    } else if line < to_remove.first() {
                        assert(r@[0].covers(line));
                    } else {
                        assert(r@[r@.len() - 1].covers(line));
                    }
                }
            }
        }
        r
    }

    /// Convert a list of line numbers into ranges: each maximal run of
    /// consecutive line numbers becomes one range. Only the last line may be
    /// `u32::MAX` (the next line number after it does not exist).
    pub fn compress_lines(lines: &[u32]) -> (ranges: Vec<LineRange>)
        requires
            forall|i: int| 0 <= i < lines.len() - 1 ==> lines[i] < u32::MAX,
        ensures
            expand_all(ranges@) == as_ints(lines@),
            forall|i: int| 0 <= i < ranges.len() ==> #[trigger] ranges[i].is_canonical(),
            forall|i: int|
                0 <= i < ranges.len() - 1 ==> #[trigger] ranges[i].last() + 1 != ranges[i
                    + 1].first(),
            strictly_increasing(lines@) ==> forall|i: int|
                0 <= i < ranges.len() - 1 ==> #[trigger] ranges[i].last() + 1 < ranges[i
                    + 1].first(),
    {
        let ghost ls = as_ints(lines@);
        if lines.len() == 0 {
            assert(ls =~= Seq::<int>::empty());
            return Vec::new();
        }
        let mut ranges: Vec<LineRange> = Vec::new();
        let mut current_start: u32 = lines[0];
        let mut current_end: u32 = lines[0];
        let mut i: usize = 1;
        assert(ls.take(1) =~= span(current_start as int, current_end as int));
        assert(expand_all(ranges@) =~= Seq::<int>::empty());
        while i < lines.len()
            invariant
                1 <= i <= lines.len(),
                ls == as_ints(lines@),
                current_start <= current_end,
                expand_all(ranges@) + span(current_start as int, current_end as int) =~= ls.take(
                    i as int,
                ),
                forall|k: int| 0 <= k < ranges.len() ==> #[trigger] ranges[k].is_canonical(),
                forall|k: int|
                    0 <= k < ranges.len() - 1 ==> #[trigger] ranges[k].last() + 1 != ranges[k
                        + 1].first(),
                ranges.len() > 0 ==> ranges@.last().last() + 1 != current_start,
                current_end == lines@[i - 1],
                forall|k: int| 0 <= k < lines.len() - 1 ==> lines[k] < u32::MAX,
                strictly_increasing(lines@) ==> forall|k: int|
                    0 <= k < ranges.len() - 1 ==> #[trigger] ranges[k].last() + 1 < ranges[k
                        + 1].first(),
                strictly_increasing(lines@) && ranges.len() > 0 ==> ranges@.last().last() + 1
                    < current_start,
            decreases lines.len() - i,
        {
            let line = lines[i];
            let ghost prev = expand_all(ranges@);
            assert(ls.take(i + 1) =~= ls.take(i as int).push(line as int));
            if line == current_end + 1 {
                assert(span(current_start as int, line as int) =~= span(
                    current_start as int,
                    current_end as int,
                ).push(line as int));
                current_end = line;
            } else {
                let p = if current_start == current_end {
                    LineRange::Single(current_start)
                } else {
                    LineRange::Range(current_start, current_end)
                };
                assert(p.lines() =~= span(current_start as int, current_end as int));
                let ghost old_ranges = ranges@;
                ranges.push(p);
                assert(ranges@.drop_last() =~= old_ranges);
                assert(span(line as int, line as int) =~= seq![line as int]);
                current_start = line;
                current_end = line;
            }
            i = i + 1;
        }
        let p = if current_start == current_end {
            LineRange::Single(current_start)
        } else {
            LineRange::Range(current_start, current_end)
        };
        assert(p.lines() =~= span(current_start as int, current_end as int));
        let ghost old_ranges = ranges@;
        ranges.push(p);
        assert(ranges@.drop_last() =~= old_ranges);
        assert(ls.take(lines.len() as int) =~= ls);
        ranges
    }

    /// All lines of the range, in increasing order.
    pub fn expand(&self) -> (r: Vec<u32>)
        ensures
            as_ints(r@) == self.lines(),
    {
        match self {
            LineRange::Single(l) => {
                let r = vec![*l];
                assert(as_ints(r@) =~= self.lines());
                r
            },
            LineRange::Range(start, end) => {
                let mut r: Vec<u32> = Vec::new();
                if *start > *end {
                    assert(as_ints(r@) =~= self.lines());
                    return r;
                }
                let mut cur: u32 = *start;
                assert(self.lines() == span(*start as int, *end as int));
                loop
                    invariant
                        *start <= cur <= *end,
                        self.lines() == span(*start as int, *end as int),
                        as_ints(r@) =~= span(*start as int, cur as int - 1),
                    decreases *end - cur,
                {
                    let ghost old_r = r@;
                    r.push(cur);
                    assert(as_ints(r@) =~= as_ints(old_r).push(cur as int));
                    assert(span(*start as int, cur as int) =~= span(
                        *start as int,
                        cur as int - 1,
                    ).push(cur as int));
                    if cur == *end {
                        return r;
                    }
                    cur = cur + 1;
                }
            },
        }
    }

    /// Shift line numbers by a given offset.
    /// - For insertions: offset is positive (shift lines down/forward)
    /// - For deletions: offset is negative (shift lines up/backward)
    /// - insertion_point: the line number where the change occurred
    pub fn shift(&self, insertion_point: u32, offset: i32) -> (r: Option<LineRange>)
        ensures
            r == shifted_range(*self, insertion_point, offset),
    {
        match self {
            LineRange::Single(l) => {
                let new_line = apply_offset(*l, insertion_point, offset)?;
                Some(LineRange::Single(new_line))
            },
            LineRange::Range(start, end) => {
                let new_start = apply_offset(*start, insertion_point, offset)?;
                let new_end = apply_offset(*end, insertion_point, offset)?;
                if new_start <= new_end {
                    if new_start == new_end {
                        Some(LineRange::Single(new_start))
                    } else {
                        Some(LineRange::Range(new_start, new_end))
                    }
                } else {
                    None
                }
            },
        }
    }
}

/// Apply `offset` to `line` when it lies at or after `insertion_point`.
fn apply_offset(line: u32, insertion_point: u32, offset: i32) -> (r: Option<u32>)
    ensures
        r == shifted_line(line, insertion_point, offset),
{
    if line >= insertion_point {
        let shifted: i64 = (line as i64) + (offset as i64);
        if shifted >= 0 && shifted <= u32::MAX as i64 {
            Some(shifted as u32)
        } else {
            None
        }
    } else {
        Some(line)
    }
}

/// Shifting moves each end of a range as a single line moves: an end at or
/// after the insertion point moves by the offset, an end before it stays. The
/// result exists exactly when both moved ends are line numbers (`0` to
/// `u32::MAX`) and the start does not pass the end; it then runs from the
/// moved start to the moved end. So an insertion inside a range grows its
/// end by the offset and keeps its start.
pub proof fn lemma_shift_moves_each_end(range: LineRange, insertion_point: u32, offset: i32)
    requires
        range.first() <= range.last(),
    ensures
        ({
            let s = if range.first() >= insertion_point {
                range.first() + offset
            } else {
                range.first()
            };
            let e = if range.last() >= insertion_point {
                range.last() + offset
            } else {
                range.last()
            };
            &&& shifted_range(range, insertion_point, offset) is Some <==> (0 <= s && e <= u32::MAX
                && s <= e)
            &&& shifted_range(range, insertion_point, offset) matches Some(r) ==> r.first() == s
                && r.last() == e
        }),
{
}

/// What removal leaves of a range, piece by piece: a single line stays as it
/// is or goes; a range leaves at most two ranges (never single lines), in
/// order, with at least one removed line between them, which together cover
/// exactly the lines of the range that were not removed.
pub proof fn lemma_removal_pieces(range: LineRange, removed: LineRange)
    requires
        range.is_well_formed(),
        removed.is_well_formed(),
    ensures
        ({
            let r = removal(range, removed);
            &&& r.len() <= 2
            &&& forall|line: int| any_covers(r, line) <==> range.covers(line) && !removed.covers(
                line,
            )
            &&& range is Single ==> (r == seq![range] || r.len() == 0)
            &&& range is Range ==> forall|i: int| 0 <= i < r.len() ==> #[trigger] r[i] is Range
            &&& forall|i: int| 0 <= i < r.len() ==> #[trigger] r[i].is_well_formed()
            &&& r.len() == 2 ==> r[0].last() + 1 < r[1].first()
        }),
{
    let r = removal(range, removed);
    assert forall|line: int| any_covers(r, line) <==> range.covers(line) && !removed.covers(
        line,
    ) by {
        if any_covers(r, line) {
            let i = choose|i: int| 0 <= i < r.len() && #[trigger] r[i].covers(line);
        }
        if range.covers(line) && !removed.covers(line) {
            if removed.first() > range.last() || removed.last() < range.first() {
                assert(r[0].covers(line));
            } else if line < removed.first() {
                assert(r[0].covers(line));
            } else {
                assert(r[r.len() - 1].covers(line));
            }
        }
    }
}

/// A single line is displayed as its number in decimal; a range as its two
/// ends, displayed as single lines, between `[` and `]` and apart by `, `.
pub proof fn lemma_range_text_shape(range: LineRange)
    ensures
        range matches LineRange::Single(l) ==> digits_value(range_text(range)) == l,
        range matches LineRange::Range(s, e) ==> range_text(range) == seq!['[']
            + range_text(LineRange::Single(s)) + seq![',', ' '] + range_text(
            LineRange::Single(e),
        ) + seq![']'],
{
    match range {
        LineRange::Single(l) => lemma_decimal_spells(l as nat),
        _ => {},
    }
}

/// Overlap is symmetric: `a` overlaps `b` exactly when `b` overlaps `a`.
pub proof fn lemma_overlaps_symmetric(a: LineRange, b: LineRange)
    ensures
        a.overlaps_spec(b) == b.overlaps_spec(a),
{
}

/// A range contains a line exactly when the line is among the range's
/// expanded lines.
pub proof fn lemma_contains_iff_expanded(r: LineRange, line: int)
    ensures
        r.covers(line) <==> r.lines().contains(line),
{
    if r.covers(line) {
        assert(r.lines()[line - r.first()] == line);
    }
}

/// Shifting by a zero offset leaves a range in its shortest form unchanged.
pub proof fn lemma_shift_zero_is_identity(r: LineRange, insertion_point: u32)
    requires
        r.is_canonical(),
    ensures
        shifted_range(r, insertion_point, 0) == Some(r),
{
}

/// A range that ends before the insertion point does not move.
pub proof fn lemma_shift_before_insertion_point(r: LineRange, insertion_point: u32, offset: i32)
    requires
        r.is_canonical(),
        r.last() < insertion_point,
    ensures
        shifted_range(r, insertion_point, offset) == Some(r),
{
}

/// Inserting `offset` lines at `insertion_point` and then deleting them again
/// at the new position of that point gives back a range that lies at or after
/// the insertion point.
pub proof fn lemma_shift_round_trip(r: LineRange, insertion_point: u32, offset: i32)
    requires
        r.is_canonical(),
        r.first() >= insertion_point,
        offset > i32::MIN,
        0 <= insertion_point + offset <= u32::MAX,
        shifted_range(r, insertion_point, offset) is Some,
    ensures
        shifted_range(
            shifted_range(r, insertion_point, offset)->0,
            (insertion_point + offset) as u32,
            (-offset) as i32,
        ) == Some(r),
{
}

} // verus!
