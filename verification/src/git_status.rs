//! Reading the changed paths out of `git status --porcelain=v2 -z
//! --untracked-files=all`.
use crate::text::{has_prefix, normalize_to_posix, posix_path};
use vstd::prelude::*;
use vstd::string::*;

verus! {

/// The first space of `s`, if any.
pub open spec fn first_space(s: Seq<char>) -> Option<int> {
    if exists|j: int| 0 <= j < s.len() && s[j] == ' ' {
        Some(
            choose|j: int|
                0 <= j < s.len() && s[j] == ' ' && forall|k: int| 0 <= k < j ==> s[k] != ' ',
        )
    } else {
        None
    }
}

/// The last item of splitting `s` on spaces into at most `k + 1` items: what
/// follows the `k`-th space, or the last space when there are fewer.
pub open spec fn fields_tail(s: Seq<char>, k: nat) -> Seq<char>
    decreases k,
{
    if k == 0 {
        s
    } else {
        match first_space(s) {
            None => s,
            Some(j) => fields_tail(s.skip(j + 1), (k - 1) as nat),
        }
    }
}

/// The paths that the records from `parts[i]` on report, in `/` form:
/// ordinary (`1 `) and unmerged (`u `) records give their path, renames and
/// copies (`2 `) their new path and then, from the next part, the original
/// one, and untracked records (`? `) their path. Empty parts and other records
/// give nothing.
pub open spec fn status_paths_from(parts: Seq<Seq<char>>, i: int) -> Seq<Seq<char>>
    decreases parts.len() - i,
{
    if i < 0 || i >= parts.len() {
        Seq::empty()
    } else {
        let line = parts[i];
        if line.len() == 0 {
            status_paths_from(parts, i + 1)
        } else if seq!['1', ' '].is_prefix_of(line) {
            seq![posix_path(fields_tail(line, 8))] + status_paths_from(parts, i + 1)
        } else if seq!['u', ' '].is_prefix_of(line) {
            seq![posix_path(fields_tail(line, 10))] + status_paths_from(parts, i + 1)
        } else if seq!['2', ' '].is_prefix_of(line) {
            let head = seq![posix_path(fields_tail(line, 9))];
            if i + 1 < parts.len() {
                let orig = parts[i + 1];
                let both = if orig.len() > 0 {
                    head + seq![posix_path(orig)]
                } else {
                    head
                };
                both + status_paths_from(parts, i + 2)
            } else {
                head
            }
        } else if seq!['?', ' '].is_prefix_of(line) {
            seq![posix_path(line.skip(2))] + status_paths_from(parts, i + 1)
        } else {
            status_paths_from(parts, i + 1)
        }
    }
}

/// The number of spaces in `s`.
#[verifier::opaque]
pub open spec fn space_count(s: Seq<char>) -> nat
    decreases s.len(),
{
    if s.len() == 0 {
        0
    } else {
        (if s[0] == ' ' {
            1nat
        } else {
            0nat
        }) + space_count(s.drop_first())
    }
}

proof fn lemma_space_count_concat(a: Seq<char>, b: Seq<char>)
    ensures
        space_count(a + b) == space_count(a) + space_count(b),
    decreases a.len(),
{
    reveal(space_count);
    if a.len() == 0 {
        assert(a + b =~= b);
    } else {
        assert((a + b).drop_first() =~= a.drop_first() + b);
        lemma_space_count_concat(a.drop_first(), b);
    }
}

proof fn lemma_space_count_zero(s: Seq<char>)
    ensures
        space_count(s) == 0 <==> forall|q: int| 0 <= q < s.len() ==> s[q] != ' ',
    decreases s.len(),
{
    reveal(space_count);
    if s.len() > 0 {
        lemma_space_count_zero(s.drop_first());
        if space_count(s) == 0 {
            assert forall|q: int| 0 <= q < s.len() implies s[q] != ' ' by {
                if q > 0 {
                    assert(s.drop_first()[q - 1] == s[q]);
                }
            }
        }
        if forall|q: int| 0 <= q < s.len() ==> s[q] != ' ' {
            assert forall|q: int| 0 <= q < s.drop_first().len() implies s.drop_first()[q] != ' ' by {
                assert(s.drop_first()[q] == s[q + 1]);
            }
        }
    }
}

proof fn lemma_first_space_before(s: Seq<char>, from: int, t: int) -> (j: int)
    requires
        0 <= from < t <= s.len(),
        s[t - 1] == ' ',
        forall|q: int| 0 <= q < from ==> s[q] != ' ',
    ensures
        from <= j < t,
        s[j] == ' ',
        forall|q: int| 0 <= q < j ==> s[q] != ' ',
    decreases t - from,
{
    if s[from] == ' ' {
        from
    } else {
        lemma_first_space_before(s, from + 1, t)
    }
}

proof fn lemma_spaces_after_first(s: Seq<char>, j: int, t: int)
    requires
        0 <= j < t <= s.len(),
        s[j] == ' ',
        forall|q: int| 0 <= q < j ==> s[q] != ' ',
    ensures
        space_count(s.skip(j + 1).take(t - j - 1)) + 1 == space_count(s.take(t)),
{
    let tail = s.skip(j + 1).take(t - j - 1);
    let head = s.take(j);
    let one = seq![' '];
    assert(s.take(t) =~= head + one + tail);
    lemma_space_count_concat(head + one, tail);
    lemma_space_count_concat(head, one);
    lemma_space_count_zero(head);
    assert forall|q: int| 0 <= q < head.len() implies head[q] != ' ' by {
        assert(head[q] == s[q]);
    }
    assert(space_count(one) == 1) by {
        reveal(space_count);
        assert(one.drop_first() =~= Seq::<char>::empty());
        assert(space_count(one.drop_first()) == 0);
    }
}

/// Splitting on spaces into at most `k + 1` items leaves, as the last item,
/// everything after the `k`-th space.
proof fn lemma_tail_after_spaces(s: Seq<char>, k: nat, t: int)
    requires
        k >= 1,
        1 <= t <= s.len(),
        s[t - 1] == ' ',
        space_count(s.take(t)) == k,
    ensures
        fields_tail(s, k) == s.skip(t),
    decreases k,
{
    let j = lemma_first_space_before(s, 0, t);
    assert(fields_tail(s, k) == fields_tail(s.skip(j + 1), (k - 1) as nat)) by {
        assert(s.skip(0) =~= s);
        lemma_fields_tail_step(s, 0, j, k);
    }
    let rest = s.skip(j + 1);
    lemma_spaces_after_first(s, j, t);
    if k == 1 {
        assert(t == j + 1) by {
            let tail = rest.take(t - j - 1);
            lemma_space_count_zero(tail);
            if t - j - 1 > 0 {
                assert(tail[t - j - 2] == s[t - 1]);
            }
        }
        assert(rest =~= s.skip(t));
    } else {
        assert(t - j - 1 >= 1) by {
            if t - j - 1 == 0 {
                assert(rest.take(0) =~= Seq::<char>::empty());
                reveal(space_count);
            }
        }
        assert(rest[t - j - 2] == s[t - 1]);
        lemma_tail_after_spaces(rest, (k - 1) as nat, t - j - 1);
        assert(rest.skip(t - j - 1) =~= s.skip(t));
    }
}

/// An ordinary record (`1 `) reports, in `/` form, everything after its
/// eighth space as its path, spaces and all.
pub proof fn lemma_ordinary_record_path(parts: Seq<Seq<char>>, i: int, t: int)
    requires
        0 <= i < parts.len(),
        seq!['1', ' '].is_prefix_of(parts[i]),
        1 <= t <= parts[i].len(),
        parts[i][t - 1] == ' ',
        space_count(parts[i].take(t)) == 8,
    ensures
        status_paths_from(parts, i) == seq![posix_path(parts[i].skip(t))] + status_paths_from(
            parts,
            i + 1,
        ),
{
    lemma_tail_after_spaces(parts[i], 8, t);
}

/// An unmerged record (`u `) reports, in `/` form, everything after its
/// tenth space as its path, spaces and all.
pub proof fn lemma_unmerged_record_path(parts: Seq<Seq<char>>, i: int, t: int)
    requires
        0 <= i < parts.len(),
        seq!['u', ' '].is_prefix_of(parts[i]),
        1 <= t <= parts[i].len(),
        parts[i][t - 1] == ' ',
        space_count(parts[i].take(t)) == 10,
    ensures
        status_paths_from(parts, i) == seq![posix_path(parts[i].skip(t))] + status_paths_from(
            parts,
            i + 1,
        ),
{
    lemma_tail_after_spaces(parts[i], 10, t);
    assert(parts[i][0] == 'u');
}

/// A rename or copy record (`2 `) reports, in `/` form, everything after its
/// ninth space as its new path, then the whole next part as its original
/// path when that part is not empty.
pub proof fn lemma_rename_record_paths(parts: Seq<Seq<char>>, i: int, t: int)
    requires
        0 <= i,
        i + 1 < parts.len(),
        seq!['2', ' '].is_prefix_of(parts[i]),
        1 <= t <= parts[i].len(),
        parts[i][t - 1] == ' ',
        space_count(parts[i].take(t)) == 9,
        parts[i + 1].len() > 0,
    ensures
        status_paths_from(parts, i) == seq![posix_path(parts[i].skip(t)), posix_path(parts[i + 1])]
            + status_paths_from(parts, i + 2),
{
    lemma_tail_after_spaces(parts[i], 9, t);
    assert(parts[i][0] == '2');
    assert(seq![posix_path(parts[i].skip(t))] + seq![posix_path(parts[i + 1])] =~= seq![
        posix_path(parts[i].skip(t)),
        posix_path(parts[i + 1]),
    ]);
}

/// An untracked record (`? `) reports, in `/` form, everything after its
/// `? ` as its path; an empty part reports nothing.
pub proof fn lemma_untracked_record_path(parts: Seq<Seq<char>>, i: int)
    requires
        0 <= i < parts.len(),
    ensures
        seq!['?', ' '].is_prefix_of(parts[i]) ==> status_paths_from(parts, i) == seq![
            posix_path(parts[i].skip(2)),
        ] + status_paths_from(parts, i + 1),
        parts[i].len() == 0 ==> status_paths_from(parts, i) == status_paths_from(parts, i + 1),
{
    if seq!['?', ' '].is_prefix_of(parts[i]) {
        assert(parts[i][0] == '?');
    }
}

/// The first space of `s` at or after `from`, if any.
fn next_space(s: &str, n: usize, from: usize) -> (r: Option<usize>)
    requires
        n == s@.len(),
        from <= n,
    ensures
        match r {
            Some(j) => from <= j < n && s@[j as int] == ' ' && forall|q: int|
                from <= q < j ==> s@[q] != ' ',
            None => forall|q: int| from <= q < n ==> s@[q] != ' ',
        },
{
    let mut j: usize = from;
    while j < n
        invariant
            n == s@.len(),
            from <= j <= n,
            forall|q: int| from <= q < j ==> s@[q] != ' ',
        decreases n - j,
    {
        if s.get_char(j) == ' ' {
            return Some(j);
        }
        j = j + 1;
    }
    None
}

proof fn lemma_fields_tail_none(s: Seq<char>, pos: int, left: nat)
    requires
        0 <= pos <= s.len(),
        forall|q: int| pos <= q < s.len() ==> s[q] != ' ',
    ensures
        fields_tail(s.skip(pos), left) == s.skip(pos),
{
    let rest = s.skip(pos);
    if left > 0 {
        assert(!(exists|q: int| 0 <= q < rest.len() && rest[q] == ' ')) by {
            if exists|q: int| 0 <= q < rest.len() && rest[q] == ' ' {
                let q = choose|q: int| 0 <= q < rest.len() && rest[q] == ' ';
                assert(s[pos + q] == ' ');
            }
        }
    }
}

proof fn lemma_fields_tail_step(s: Seq<char>, pos: int, j: int, left: nat)
    requires
        0 <= pos <= j < s.len(),
        s[j] == ' ',
        forall|q: int| pos <= q < j ==> s[q] != ' ',
        left > 0,
    ensures
        fields_tail(s.skip(pos), left) == fields_tail(s.skip(j + 1), (left - 1) as nat),
{
    let rest = s.skip(pos);
    assert(rest[j - pos] == ' ');
    let c = choose|c: int|
        0 <= c < rest.len() && rest[c] == ' ' && forall|q: int| 0 <= q < c ==> rest[q] != ' ';
    assert(c == j - pos) by {
        if c < j - pos {
            assert(s[pos + c] == ' ');
        }
        if c > j - pos {
            assert(rest[j - pos] != ' ');
        }
    }
    assert(rest.skip(j - pos + 1) =~= s.skip(j + 1));
}

/// What follows the `k`-th space of `s` (or its last space, when it has
/// fewer): the last item of `s.splitn(k + 1, ' ')`.
pub fn fields_tail_of(s: &str, k: usize) -> (r: String)
    ensures
        r@ == fields_tail(s@, k as nat),
{
    let n = s.unicode_len();
    let mut pos: usize = 0;
    let mut left: usize = k;
    assert(s@.skip(0) =~= s@);
    while left > 0
        invariant
            n == s@.len(),
            pos <= n,
            left <= k,
            fields_tail(s@, k as nat) == fields_tail(s@.skip(pos as int), left as nat),
        decreases left,
    {
        match next_space(s, n, pos) {
            None => {
                proof {
                    lemma_fields_tail_none(s@, pos as int, left as nat);
                }
                let tail = s.substring_char(pos, n);
                assert(s@.subrange(pos as int, n as int) =~= s@.skip(pos as int));
                return String::from_str(tail);
            },
            Some(j) => {
                proof {
                    lemma_fields_tail_step(s@, pos as int, j as int, left as nat);
                }
                pos = j + 1;
                left = left - 1;
            },
        }
    }
    let tail = s.substring_char(pos, n);
    assert(s@.subrange(pos as int, n as int) =~= s@.skip(pos as int));
    String::from_str(tail)
}

/// The paths of `s`, as characters.
pub open spec fn texts(s: Seq<String>) -> Seq<Seq<char>> {
    s.map_values(|p: String| p@)
}

/// The changed paths of a `git status --porcelain=v2 -z --untracked-files=all`
/// output, given as its NUL-separated parts.
pub fn parse_status_paths(parts: &Vec<String>) -> (r: Vec<String>)
    ensures
        texts(r@) == status_paths_from(texts(parts@), 0),
{
    let ghost ps = texts(parts@);
    let mut changed: Vec<String> = Vec::new();
    let mut i: usize = 0;
    while i < parts.len()
        invariant
            ps == texts(parts@),
            i <= parts.len(),
            texts(changed@) + status_paths_from(ps, i as int) =~= status_paths_from(ps, 0),
        decreases parts.len() - i,
    {
        proof {
            reveal_strlit("1 ");
            reveal_strlit("u ");
            reveal_strlit("2 ");
            reveal_strlit("? ");
            assert("1 "@ =~= seq!['1', ' ']);
            assert("u "@ =~= seq!['u', ' ']);
            assert("2 "@ =~= seq!['2', ' ']);
            assert("? "@ =~= seq!['?', ' ']);
        }
        let line = parts[i].as_str();
        let ghost before = changed@;
        let ghost here = status_paths_from(ps, i as int);
        assert(ps[i as int] == line@);
        if line.unicode_len() == 0 {
            assert(here == status_paths_from(ps, i + 1));
            i = i + 1;
            continue ;
        }
        let is_one = has_prefix(line, "1 ");
        let is_unmerged = has_prefix(line, "u ");
        let is_rename = has_prefix(line, "2 ");
        let is_untracked = has_prefix(line, "? ");
        if is_one || is_unmerged {
            let k: usize = if is_one {
                8
            } else {
                10
            };
            let f = fields_tail_of(line, k);
            changed.push(normalize_to_posix(f.as_str()));
            proof {
                assert(texts(changed@) =~= texts(before).push(posix_path(fields_tail(line@, k as nat))));
                assert(here =~= seq![posix_path(fields_tail(line@, k as nat))] + status_paths_from(ps, i + 1));
            }
        } else if is_rename {
            let f = fields_tail_of(line, 9);
            changed.push(normalize_to_posix(f.as_str()));
            let ghost mid = changed@;
            proof {
                assert(texts(changed@) =~= texts(before).push(posix_path(fields_tail(line@, 9))));
            }
            if i + 1 < parts.len() {
                let orig = parts[i + 1].as_str();
                assert(ps[i + 1] == orig@);
                if orig.unicode_len() > 0 {
                    changed.push(normalize_to_posix(orig));
                    proof {
                        assert(texts(changed@) =~= texts(mid).push(posix_path(orig@)));
                    }
                }
                proof {
                    if orig@.len() > 0 {
                        assert(here =~= seq![posix_path(fields_tail(line@, 9)), posix_path(orig@)]
                            + status_paths_from(ps, i + 2));
                    } else {
                        assert(here =~= seq![posix_path(fields_tail(line@, 9))] + status_paths_from(
                            ps,
                            i + 2,
                        ));
                    }
                }
            } else {
                assert(here =~= seq![posix_path(fields_tail(line@, 9))]);
                assert(status_paths_from(ps, parts.len() as int) =~= Seq::<Seq<char>>::empty());
                i = parts.len();
                continue ;
            }
            i = i + 2;
            continue ;
        } else if is_untracked {
            let n = line.unicode_len();
            let rest = line.substring_char(2, n);
            changed.push(normalize_to_posix(rest));
            proof {
                assert(line@.subrange(2, n as int) =~= line@.skip(2));
                assert(texts(changed@) =~= texts(before).push(posix_path(line@.skip(2))));
                assert(here =~= seq![posix_path(line@.skip(2))] + status_paths_from(ps, i + 1));
            }
        } else {
            assert(here == status_paths_from(ps, i + 1));
        }
        i = i + 1;
    }
    assert(status_paths_from(ps, i as int) =~= Seq::<Seq<char>>::empty());
    changed
}

} // verus!
