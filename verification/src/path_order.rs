//! Paths compared as `Path` compares them: component by component. A path
//! splits at `/` into segments; a leading `/` is the root; empty segments and
//! `.` segments are dropped, except a `.` that begins a relative path; `..` is
//! the parent directory, and any other segment is a named component. Two
//! paths are the same path when their components are equal, and paths are
//! ordered by their components: the root first, then `.`, then `..`, then
//! named components by their characters.
use crate::text::{push_char, str_eq};
use vstd::prelude::*;
use vstd::string::*;

verus! {

/// One component of a path.
pub enum PathComponent {
    RootDir,
    CurDir,
    ParentDir,
    Normal(Seq<char>),
}

/// The segments of `p` between its `/` separators, in order; there is always
/// at least one, possibly empty.
pub open spec fn segments(p: Seq<char>) -> Seq<Seq<char>>
    decreases p.len(),
{
    if p.len() == 0 {
        seq![Seq::<char>::empty()]
    } else {
        let before = segments(p.drop_last());
        if p.last() == '/' {
            before.push(Seq::<char>::empty())
        } else {
            before.update(before.len() - 1, before.last().push(p.last()))
        }
    }
}

/// The segments one after the other with `/` between them.
pub open spec fn joined_segments(segs: Seq<Seq<char>>) -> Seq<char>
    decreases segs.len(),
{
    if segs.len() == 0 {
        Seq::empty()
    } else if segs.len() == 1 {
        segs[0]
    } else {
        joined_segments(segs.drop_last()) + seq!['/'] + segs.last()
    }
}

proof fn lemma_joined_segments_extend(segs: Seq<Seq<char>>, c: char)
    requires
        segs.len() >= 1,
    ensures
        joined_segments(segs.update(segs.len() - 1, segs.last().push(c))) == joined_segments(
            segs,
        ).push(c),
{
    let t = segs.update(segs.len() - 1, segs.last().push(c));
    if segs.len() > 1 {
        assert(t.drop_last() =~= segs.drop_last());
    }
}

/// A path splits at every `/` and nowhere else: its segments hold no `/`,
/// and joined again with `/` they give back the path.
pub proof fn lemma_segments_rejoin(p: Seq<char>)
    ensures
        segments(p).len() >= 1,
        joined_segments(segments(p)) == p,
        forall|i: int, j: int|
            0 <= i < segments(p).len() && 0 <= j < segments(p)[i].len() ==> #[trigger] segments(
                p,
            )[i][j] != '/',
    decreases p.len(),
{
    if p.len() == 0 {
        assert(p =~= Seq::<char>::empty());
    } else {
        let f = segments(p.drop_last());
        lemma_segments_rejoin(p.drop_last());
        if p.last() == '/' {
            assert(f.push(Seq::<char>::empty()).drop_last() =~= f);
            assert(joined_segments(f) + seq!['/'] + Seq::<char>::empty() =~= p);
            assert forall|i: int, j: int|
                0 <= i < segments(p).len() && 0 <= j < segments(p)[i].len() implies #[trigger] segments(
                p,
            )[i][j] != '/' by {
                assert(i < f.len());
                assert(segments(p)[i] == f[i]);
            }
        } else {
            lemma_joined_segments_extend(f, p.last());
            assert(joined_segments(f).push(p.last()) =~= p);
            assert forall|i: int, j: int|
                0 <= i < segments(p).len() && 0 <= j < segments(p)[i].len() implies #[trigger] segments(
                p,
            )[i][j] != '/' by {
                if i < f.len() - 1 {
                    assert(segments(p)[i] == f[i]);
                } else if j < f.last().len() {
                    assert(segments(p)[i][j] == f[f.len() - 1][j]);
                }
            }
        }
    }
}

/// The component a segment stands for: none for an empty segment, or for `.`
/// unless it begins a relative path.
pub open spec fn segment_component(seg: Seq<char>, leading: bool) -> Option<PathComponent> {
    if seg.len() == 0 {
        None
    } else if seg == seq!['.'] {
        if leading {
            Some(PathComponent::CurDir)
        } else {
            None
        }
    } else if seg == seq!['.', '.'] {
        Some(PathComponent::ParentDir)
    } else {
        Some(PathComponent::Normal(seg))
    }
}

/// The components of the segments of a path, after the root when it has one.
pub open spec fn segments_components(segs: Seq<Seq<char>>, rooted: bool) -> Seq<PathComponent>
    decreases segs.len(),
{
    if segs.len() == 0 {
        if rooted {
            seq![PathComponent::RootDir]
        } else {
            Seq::empty()
        }
    } else {
        let before = segments_components(segs.drop_last(), rooted);
        match segment_component(segs.last(), segs.len() == 1 && !rooted) {
            Some(c) => before.push(c),
            None => before,
        }
    }
}

/// The path starts at the root.
pub open spec fn rooted(p: Seq<char>) -> bool {
    p.len() > 0 && p[0] == '/'
}

/// The components of a path.
pub open spec fn components(p: Seq<char>) -> Seq<PathComponent> {
    segments_components(segments(p), rooted(p))
}

/// `a` and `b` name the same path: their components are equal.
pub open spec fn same_path(a: Seq<char>, b: Seq<char>) -> bool {
    components(a) == components(b)
}

/// `a` and `b` agree before position `i`, where `a` ends while `b` goes on,
/// or `a` has the smaller character.
pub open spec fn chars_less_at(a: Seq<char>, b: Seq<char>, i: int) -> bool {
    &&& 0 <= i <= a.len()
    &&& i <= b.len()
    &&& forall|k: int| 0 <= k < i ==> a[k] == b[k]
    &&& ((i == a.len() && i < b.len()) || (i < a.len() && i < b.len() && (a[i] as int) < (
    b[i] as int)))
}

/// `a` comes before `b` character by character.
pub open spec fn chars_less(a: Seq<char>, b: Seq<char>) -> bool {
    exists|i: int| chars_less_at(a, b, i)
}

/// The place of a kind of component in path order.
pub open spec fn component_rank(c: PathComponent) -> int {
    match c {
        PathComponent::RootDir => 0,
        PathComponent::CurDir => 1,
        PathComponent::ParentDir => 2,
        PathComponent::Normal(_) => 3,
    }
}

/// Component `a` comes before component `b`.
pub open spec fn component_less(a: PathComponent, b: PathComponent) -> bool {
    component_rank(a) < component_rank(b) || match (a, b) {
        (PathComponent::Normal(x), PathComponent::Normal(y)) => chars_less(x, y),
        _ => false,
    }
}

/// `a` and `b` agree before component `i`, where `a` ends while `b` goes on,
/// or `a` has the smaller component.
pub open spec fn components_less_at(a: Seq<PathComponent>, b: Seq<PathComponent>, i: int) -> bool {
    &&& 0 <= i <= a.len()
    &&& i <= b.len()
    &&& forall|k: int| 0 <= k < i ==> a[k] == b[k]
    &&& ((i == a.len() && i < b.len()) || (i < a.len() && i < b.len() && component_less(
        a[i],
        b[i],
    )))
}

/// `a` comes before `b` component by component.
pub open spec fn components_less(a: Seq<PathComponent>, b: Seq<PathComponent>) -> bool {
    exists|i: int| components_less_at(a, b, i)
}

/// Path `a` comes before path `b`.
pub open spec fn path_less(a: Seq<char>, b: Seq<char>) -> bool {
    components_less(components(a), components(b))
}

/// The paths are in strictly increasing path order.
pub open spec fn sorted_paths(s: Seq<String>) -> bool {
    forall|i: int, j: int| 0 <= i < j < s.len() ==> path_less(s[i]@, s[j]@)
}

/// No path occurs twice.
pub open spec fn distinct_paths(s: Seq<String>) -> bool {
    forall|i: int, j: int| 0 <= i < j < s.len() ==> !same_path(s[i]@, s[j]@)
}

/// Some path of `s` is the path `p`.
pub open spec fn has_path(s: Seq<String>, p: Seq<char>) -> bool {
    exists|i: int| 0 <= i < s.len() && #[trigger] same_path(s[i]@, p)
}

/// Some string of `s` holds exactly the characters `x`.
pub open spec fn has_string(s: Seq<String>, x: Seq<char>) -> bool {
    exists|k: int| 0 <= k < s.len() && #[trigger] s[k]@ == x
}

/// No text comes before itself.
pub proof fn lemma_chars_less_irreflexive(a: Seq<char>)
    ensures
        !chars_less(a, a),
{
}

/// Character order is transitive.
pub proof fn lemma_chars_less_transitive(a: Seq<char>, b: Seq<char>, c: Seq<char>)
    requires
        chars_less(a, b),
        chars_less(b, c),
    ensures
        chars_less(a, c),
{
    let i = choose|i: int| chars_less_at(a, b, i);
    let j = choose|j: int| chars_less_at(b, c, j);
    if i < j {
        assert(chars_less_at(a, c, i));
    } else if j < i {
        assert(chars_less_at(a, c, j));
    } else {
        assert(chars_less_at(a, c, i));
    }
}

/// Texts that agree before position `i` are equal or ordered one way or the
/// other.
pub proof fn lemma_chars_less_total_from(a: Seq<char>, b: Seq<char>, i: int)
    requires
        0 <= i <= a.len(),
        i <= b.len(),
        forall|k: int| 0 <= k < i ==> a[k] == b[k],
    ensures
        a == b || chars_less(a, b) || chars_less(b, a),
    decreases a.len() - i,
{
    if i == a.len() || i == b.len() {
        if a.len() == b.len() {
            assert(a =~= b);
        } else if i == a.len() {
            assert(chars_less_at(a, b, i));
        } else {
            assert(chars_less_at(b, a, i));
        }
    } else if a[i] == b[i] {
        lemma_chars_less_total_from(a, b, i + 1);
    } else if (a[i] as int) < (b[i] as int) {
        assert(chars_less_at(a, b, i));
    } else {
        let ca = a[i];
        let cb = b[i];
        assert(ca as int != cb as int);
        assert(chars_less_at(b, a, i));
    }
}

proof fn lemma_component_less_order(a: PathComponent, b: PathComponent, c: PathComponent)
    ensures
        !component_less(a, a),
        component_less(a, b) && component_less(b, c) ==> component_less(a, c),
        a == b || component_less(a, b) || component_less(b, a),
{
    match a {
        PathComponent::Normal(x) => lemma_chars_less_irreflexive(x),
        _ => {},
    }
    match (a, b, c) {
        (PathComponent::Normal(x), PathComponent::Normal(y), PathComponent::Normal(z)) => {
            if chars_less(x, y) && chars_less(y, z) {
                lemma_chars_less_transitive(x, y, z);
            }
        },
        _ => {},
    }
    match (a, b) {
        (PathComponent::Normal(x), PathComponent::Normal(y)) => {
            lemma_chars_less_total_from(x, y, 0);
        },
        _ => {},
    }
}

/// No path comes before itself.
pub proof fn lemma_path_less_irreflexive(a: Seq<char>)
    ensures
        !path_less(a, a),
{
    let s = components(a);
    if path_less(a, a) {
        let i = choose|i: int| components_less_at(s, s, i);
        lemma_component_less_order(s[i], s[i], s[i]);
    }
}

/// Path order is transitive.
pub proof fn lemma_path_less_transitive(a: Seq<char>, b: Seq<char>, c: Seq<char>)
    requires
        path_less(a, b),
        path_less(b, c),
    ensures
        path_less(a, c),
{
    let x = components(a);
    let y = components(b);
    let z = components(c);
    let i = choose|i: int| components_less_at(x, y, i);
    let j = choose|j: int| components_less_at(y, z, j);
    if i < j {
        assert(components_less_at(x, z, i));
    } else if j < i {
        assert(components_less_at(x, z, j));
    } else {
        if i < x.len() {
            lemma_component_less_order(x[i], y[i], z[i]);
        }
        assert(components_less_at(x, z, i));
    }
}

proof fn lemma_components_less_total_from(a: Seq<PathComponent>, b: Seq<PathComponent>, i: int)
    requires
        0 <= i <= a.len(),
        i <= b.len(),
        forall|k: int| 0 <= k < i ==> a[k] == b[k],
    ensures
        a == b || components_less(a, b) || components_less(b, a),
    decreases a.len() - i,
{
    if i == a.len() || i == b.len() {
        if a.len() == b.len() {
            assert(a =~= b);
        } else if i == a.len() {
            assert(components_less_at(a, b, i));
        } else {
            assert(components_less_at(b, a, i));
        }
    } else if a[i] == b[i] {
        lemma_components_less_total_from(a, b, i + 1);
    } else {
        lemma_component_less_order(a[i], b[i], b[i]);
        if component_less(a[i], b[i]) {
            assert(components_less_at(a, b, i));
        } else {
            assert(components_less_at(b, a, i));
        }
    }
}

/// Any two paths are the same path or ordered one way or the other.
pub proof fn lemma_path_less_total(a: Seq<char>, b: Seq<char>)
    ensures
        same_path(a, b) || path_less(a, b) || path_less(b, a),
{
    lemma_components_less_total_from(components(a), components(b), 0);
}

/// Paths that are the same path stand in the same order to any other.
pub proof fn lemma_same_path_order(a: Seq<char>, b: Seq<char>, c: Seq<char>)
    requires
        same_path(a, b),
    ensures
        path_less(a, c) == path_less(b, c),
        path_less(c, a) == path_less(c, b),
        !path_less(a, b),
{
    lemma_path_less_irreflexive(a);
}

/// A path is in `s` with one more string exactly when it is in `s` or is that
/// string's path.
pub proof fn lemma_has_path_push(s: Seq<String>, y: String, x: Seq<char>)
    ensures
        has_path(s.push(y), x) <==> (has_path(s, x) || same_path(y@, x)),
{
    let t = s.push(y);
    if has_path(t, x) {
        let k = choose|k: int| 0 <= k < t.len() && #[trigger] same_path(t[k]@, x);
        if k < s.len() {
            assert(same_path(s[k]@, x));
        }
    }
    if has_path(s, x) {
        let k = choose|k: int| 0 <= k < s.len() && #[trigger] same_path(s[k]@, x);
        assert(same_path(t[k]@, x));
    }
    if same_path(y@, x) {
        assert(same_path(t[s.len() as int]@, x));
    }
}

/// Lists that hold the same strings hold the same paths.
pub proof fn lemma_same_strings_same_paths(a: Seq<String>, b: Seq<String>, x: Seq<char>)
    requires
        forall|s: Seq<char>| #[trigger] has_string(a, s) <==> has_string(b, s),
    ensures
        has_path(a, x) <==> has_path(b, x),
{
    if has_path(a, x) {
        let k = choose|k: int| 0 <= k < a.len() && #[trigger] same_path(a[k]@, x);
        assert(has_string(a, a[k]@));
        assert(has_string(b, a[k]@));
        let m = choose|m: int| 0 <= m < b.len() && #[trigger] b[m]@ == a[k]@;
        assert(same_path(b[m]@, x));
    }
    if has_path(b, x) {
        let k = choose|k: int| 0 <= k < b.len() && #[trigger] same_path(b[k]@, x);
        assert(has_string(b, b[k]@));
        assert(has_string(a, b[k]@));
        let m = choose|m: int| 0 <= m < a.len() && #[trigger] a[m]@ == b[k]@;
        assert(same_path(a[m]@, x));
    }
}

/// One component of a path, as the code holds it.
enum PathComp {
    RootDir,
    CurDir,
    ParentDir,
    Normal(String),
}

spec fn comp_view(c: PathComp) -> PathComponent {
    match c {
        PathComp::RootDir => PathComponent::RootDir,
        PathComp::CurDir => PathComponent::CurDir,
        PathComp::ParentDir => PathComponent::ParentDir,
        PathComp::Normal(s) => PathComponent::Normal(s@),
    }
}

spec fn comps_view(s: Seq<PathComp>) -> Seq<PathComponent> {
    s.map_values(|c: PathComp| comp_view(c))
}

proof fn lemma_segments_nonempty(p: Seq<char>)
    ensures
        segments(p).len() >= 1,
    decreases p.len(),
{
    if p.len() > 0 {
        lemma_segments_nonempty(p.drop_last());
    }
}

/// The component of one segment.
fn segment_comp(seg: String, leading: bool) -> (r: Option<PathComp>)
    ensures
        match r {
            Some(c) => segment_component(seg@, leading) == Some(comp_view(c)),
            None => segment_component(seg@, leading) is None,
        },
{
    let n = seg.as_str().unicode_len();
    if n == 0 {
        return None;
    }
    let c0 = seg.as_str().get_char(0);
    if n == 1 && c0 == '.' {
        assert(seg@ =~= seq!['.']);
        if leading {
            return Some(PathComp::CurDir);
        } else {
            return None;
        }
    }
    if n == 2 && c0 == '.' && seg.as_str().get_char(1) == '.' {
        assert(seg@ =~= seq!['.', '.']);
        return Some(PathComp::ParentDir);
    }
    proof {
        if seg@ == seq!['.'] {
            assert(seg@[0] == '.');
        }
        if seg@ == seq!['.', '.'] {
            assert(seg@[0] == '.' && seg@[1] == '.');
        }
    }
    Some(PathComp::Normal(seg))
}

/// The components of a path.
fn path_components(p: &str) -> (r: Vec<PathComp>)
    ensures
        comps_view(r@) == components(p@),
{
    let n = p.unicode_len();
    let is_rooted = n > 0 && p.get_char(0) == '/';
    let mut r: Vec<PathComp> = Vec::new();
    if is_rooted {
        r.push(PathComp::RootDir);
    }
    let mut cur = String::new();
    let mut first = true;
    let mut i: usize = 0;
    proof {
        assert(p@.take(0) =~= Seq::<char>::empty());
        assert(comps_view(r@) =~= segments_components(Seq::<Seq<char>>::empty(), is_rooted));
        assert(segments(p@.take(0)).drop_last() =~= Seq::<Seq<char>>::empty());
    }
    while i < n
        invariant
            n == p@.len(),
            i <= n,
            is_rooted == rooted(p@),
            segments(p@.take(i as int)).len() >= 1,
            first == (segments(p@.take(i as int)).len() == 1),
            cur@ == segments(p@.take(i as int)).last(),
            comps_view(r@) == segments_components(
                segments(p@.take(i as int)).drop_last(),
                is_rooted,
            ),
        decreases n - i,
    {
        let c = p.get_char(i);
        let ghost s = segments(p@.take(i as int));
        proof {
            assert(p@.take(i + 1).drop_last() =~= p@.take(i as int));
            assert(p@.take(i + 1).last() == c);
        }
        if c == '/' {
            let seg = cur;
            cur = String::new();
            let comp = segment_comp(seg, first && !is_rooted);
            let ghost old_r = r@;
            match comp {
                Some(x) => {
                    r.push(x);
                    assert(comps_view(r@) =~= comps_view(old_r).push(comp_view(x)));
                },
                None => {},
            }
            first = false;
            proof {
                let s2 = segments(p@.take(i + 1));
                assert(s2 == s.push(Seq::<char>::empty()));
                assert(s2.drop_last() =~= s);
                assert(s =~= s.drop_last().push(s.last()));
            }
        } else {
            push_char(&mut cur, c);
            proof {
                let s2 = segments(p@.take(i + 1));
                assert(s2.drop_last() =~= s.drop_last());
            }
        }
        i = i + 1;
    }
    proof {
        assert(p@.take(n as int) =~= p@);
        let s = segments(p@);
        assert(s =~= s.drop_last().push(s.last()));
    }
    let comp = segment_comp(cur, first && !is_rooted);
    let ghost old_r = r@;
    match comp {
        Some(x) => {
            r.push(x);
            assert(comps_view(r@) =~= comps_view(old_r).push(comp_view(x)));
        },
        None => {},
    }
    r
}

/// `a` comes before `b` character by character.
pub(crate) fn chars_lt(a: &str, b: &str) -> (r: bool)
    ensures
        r == chars_less(a@, b@),
{
    let n = a.unicode_len();
    let m = b.unicode_len();
    let mut i: usize = 0;
    while i < n && i < m
        invariant
            n == a@.len(),
            m == b@.len(),
            i <= n,
            i <= m,
            forall|k: int| 0 <= k < i ==> a@[k] == b@[k],
        decreases n - i,
    {
        let ca = a.get_char(i);
        let cb = b.get_char(i);
        if ca != cb {
            let lower = ca < cb;
            proof {
                if lower {
                    assert(chars_less_at(a@, b@, i as int));
                } else {
                    assert forall|j: int| !chars_less_at(a@, b@, j) by {
                        if chars_less_at(a@, b@, j) && j > i {
                            assert(a@[i as int] == b@[i as int]);
                        }
                    }
                }
            }
            return lower;
        }
        i = i + 1;
    }
    let r = n < m;
    proof {
        if r {
            assert(chars_less_at(a@, b@, i as int));
        } else {
            assert forall|j: int| !chars_less_at(a@, b@, j) by {}
        }
    }
    r
}

fn comp_rank(c: &PathComp) -> (r: u8)
    ensures
        r as int == component_rank(comp_view(*c)),
{
    match c {
        PathComp::RootDir => 0,
        PathComp::CurDir => 1,
        PathComp::ParentDir => 2,
        PathComp::Normal(_) => 3,
    }
}

fn comp_lt(a: &PathComp, b: &PathComp) -> (r: bool)
    ensures
        r == component_less(comp_view(*a), comp_view(*b)),
{
    let ra = comp_rank(a);
    let rb = comp_rank(b);
    if ra != rb {
        return ra < rb;
    }
    match (a, b) {
        (PathComp::Normal(x), PathComp::Normal(y)) => chars_lt(x.as_str(), y.as_str()),
        _ => false,
    }
}

fn comp_eq(a: &PathComp, b: &PathComp) -> (r: bool)
    ensures
        r == (comp_view(*a) == comp_view(*b)),
{
    match (a, b) {
        (PathComp::RootDir, PathComp::RootDir) => true,
        (PathComp::CurDir, PathComp::CurDir) => true,
        (PathComp::ParentDir, PathComp::ParentDir) => true,
        (PathComp::Normal(x), PathComp::Normal(y)) => str_eq(x.as_str(), y.as_str()),
        _ => false,
    }
}

/// `a` comes before `b` in path order.
pub fn path_lt(a: &str, b: &str) -> (r: bool)
    ensures
        r == path_less(a@, b@),
{
    let x = path_components(a);
    let y = path_components(b);
    let ghost xs = comps_view(x@);
    let ghost ys = comps_view(y@);
    assert(xs == components(a@) && ys == components(b@));
    let mut i: usize = 0;
    while i < x.len() && i < y.len()
        invariant
            xs == comps_view(x@),
            ys == comps_view(y@),
            xs == components(a@),
            ys == components(b@),
            xs.len() == x.len(),
            ys.len() == y.len(),
            i <= x.len(),
            i <= y.len(),
            forall|k: int| 0 <= k < i ==> xs[k] == ys[k],
        decreases x.len() - i,
    {
        if !comp_eq(&x[i], &y[i]) {
            let lower = comp_lt(&x[i], &y[i]);
            proof {
                assert(xs[i as int] == comp_view(x@[i as int]));
                assert(ys[i as int] == comp_view(y@[i as int]));
                assert(xs[i as int] != ys[i as int]);
                if lower {
                    assert(components_less_at(xs, ys, i as int));
                } else {
                    assert forall|j: int| !components_less_at(xs, ys, j) by {
                        if components_less_at(xs, ys, j) {
                            if j < i {
                                lemma_component_less_order(xs[j], ys[j], ys[j]);
                            } else if j > i {
                                assert(xs[i as int] == ys[i as int]);
                            }
                        }
                    }
                }
            }
            return lower;
        }
        i = i + 1;
    }
    let r = x.len() < y.len();
    proof {
        if r {
            assert(components_less_at(xs, ys, i as int));
        } else {
            assert forall|j: int| !components_less_at(xs, ys, j) by {
                if components_less_at(xs, ys, j) && j < i {
                    lemma_component_less_order(xs[j], ys[j], ys[j]);
                }
            }
        }
    }
    r
}

/// `a` and `b` name the same path.
pub fn paths_equal(a: &str, b: &str) -> (r: bool)
    ensures
        r == same_path(a@, b@),
{
    let x = path_components(a);
    let y = path_components(b);
    let ghost xs = comps_view(x@);
    let ghost ys = comps_view(y@);
    assert(xs == components(a@) && ys == components(b@));
    if x.len() != y.len() {
        assert(xs.len() != ys.len());
        return false;
    }
    let mut i: usize = 0;
    while i < x.len()
        invariant
            xs == comps_view(x@),
            ys == comps_view(y@),
            xs == components(a@),
            ys == components(b@),
            xs.len() == x.len(),
            ys.len() == y.len(),
            x.len() == y.len(),
            i <= x.len(),
            forall|k: int| 0 <= k < i ==> xs[k] == ys[k],
        decreases x.len() - i,
    {
        if !comp_eq(&x[i], &y[i]) {
            assert(xs[i as int] == comp_view(x@[i as int]));
            assert(ys[i as int] == comp_view(y@[i as int]));
            assert(xs[i as int] != ys[i as int]);
            assert(xs != ys);
            return false;
        }
        i = i + 1;
    }
    assert(xs =~= ys);
    true
}

/// One of the components of `p` is named `.git`.
pub open spec fn has_git_component(p: Seq<char>) -> bool {
    exists|i: int|
        0 <= i < components(p).len() && #[trigger] components(p)[i] == PathComponent::Normal(
            seq!['.', 'g', 'i', 't'],
        )
}

/// The path lies inside a `.git` directory (or is one): a snapshot walk
/// skips it.
pub fn within_git_dir(p: &str) -> (r: bool)
    ensures
        r == has_git_component(p@),
{
    let comps = path_components(p);
    let ghost cs = comps_view(comps@);
    let git = String::from_str(".git");
    proof {
        reveal_strlit(".git");
    }
    let mut i: usize = 0;
    while i < comps.len()
        invariant
            cs == comps_view(comps@),
            cs == components(p@),
            cs.len() == comps.len(),
            git@ == seq!['.', 'g', 'i', 't'],
            i <= comps.len(),
            forall|k: int| 0 <= k < i ==> cs[k] != PathComponent::Normal(seq!['.', 'g', 'i', 't']),
        decreases comps.len() - i,
    {
        match &comps[i] {
            PathComp::Normal(name) => {
                if str_eq(name.as_str(), git.as_str()) {
                    assert(cs[i as int] == comp_view(comps@[i as int]));
                    return true;
                }
                assert(cs[i as int] == comp_view(comps@[i as int]));
            },
            _ => {
                assert(cs[i as int] == comp_view(comps@[i as int]));
            },
        }
        i = i + 1;
    }
    false
}

/// Sort paths, no two of them the same path, into path order.
pub fn sort_paths(v: Vec<String>) -> (r: Vec<String>)
    requires
        distinct_paths(v@),
    ensures
        sorted_paths(r@),
        distinct_paths(r@),
        r.len() == v.len(),
        forall|s: Seq<char>| #[trigger] has_string(r@, s) <==> has_string(v@, s),
{
    let mut r: Vec<String> = Vec::new();
    let mut i: usize = 0;
    while i < v.len()
        invariant
            i <= v.len(),
            distinct_paths(v@),
            sorted_paths(r@),
            r.len() == i,
            forall|s: Seq<char>| #[trigger] has_string(r@, s) <==> has_string(v@.take(i as int), s),
        decreases v.len() - i,
    {
        let x = v[i].clone();
        assert forall|k: int| 0 <= k < r.len() implies !same_path(#[trigger] r@[k]@, x@) by {
            let s = r@[k]@;
            assert(has_string(r@, s));
            let k3 = choose|k3: int| 0 <= k3 < i && #[trigger] v@.take(i as int)[k3]@ == s;
            assert(v@.take(i as int)[k3] == v@[k3]);
            assert(!same_path(v@[k3]@, v@[i as int]@));
        }
        let mut p: usize = 0;
        while p < r.len() && path_lt(r[p].as_str(), x.as_str())
            invariant
                p <= r.len(),
                forall|k: int| 0 <= k < p ==> path_less(#[trigger] r@[k]@, x@),
            decreases r.len() - p,
        {
            p = p + 1;
        }
        proof {
            if p < r.len() {
                lemma_path_less_total(r@[p as int]@, x@);
                assert(!same_path(r@[p as int]@, x@));
                assert(path_less(x@, r@[p as int]@));
                assert forall|k: int| p <= k < r.len() implies path_less(x@, #[trigger] r@[k]@) by {
                    if k > p {
                        lemma_path_less_transitive(x@, r@[p as int]@, r@[k]@);
                    }
                }
            }
        }
        let ghost old_r = r@;
        r.insert(p, x);
        proof {
            assert(r@ =~= old_r.insert(p as int, x));
            assert forall|a: int, b: int| 0 <= a < b < r.len() implies path_less(
                r@[a]@,
                r@[b]@,
            ) by {
                if a < p && b == p {
                } else if a < p && b > p {
                    assert(r@[b] == old_r[b - 1]);
                } else if a == p {
                    assert(r@[b] == old_r[b - 1]);
                } else if a > p {
                    assert(r@[a] == old_r[a - 1]);
                    assert(r@[b] == old_r[b - 1]);
                }
            }
            let vt = v@.take(i + 1);
            assert(v@.take(i as int) =~= vt.drop_last());
            assert forall|s: Seq<char>| #[trigger] has_string(r@, s) <==> has_string(vt, s) by {
                if has_string(r@, s) {
                    let k = choose|k: int| 0 <= k < r.len() && #[trigger] r@[k]@ == s;
                    if k == p {
                        assert(vt[i as int]@ == s);
                    } else {
                        let k1 = if k < p {
                            k
                        } else {
                            k - 1
                        };
                        assert(old_r[k1]@ == s);
                        assert(has_string(old_r, s));
                        let k2 = choose|k2: int| 0 <= k2 < i && #[trigger] v@.take(i as int)[k2]@ == s;
                        assert(vt[k2]@ == s);
                    }
                }
                if has_string(vt, s) {
                    let k = choose|k: int| 0 <= k < i + 1 && #[trigger] vt[k]@ == s;
                    if k == i {
                        assert(r@[p as int]@ == s);
                    } else {
                        assert(v@.take(i as int)[k]@ == s);
                        assert(has_string(old_r, s));
                        let k2 = choose|k2: int| 0 <= k2 < old_r.len() && #[trigger] old_r[k2]@ == s;
                        if k2 < p {
                            assert(r@[k2]@ == s);
                        } else {
                            assert(r@[k2 + 1]@ == s);
                        }
                    }
                }
            }
        }
        i = i + 1;
    }
    assert forall|a: int, b: int| 0 <= a < b < r.len() implies !same_path(r@[a]@, r@[b]@) by {
        if same_path(r@[a]@, r@[b]@) {
            lemma_same_path_order(r@[a]@, r@[b]@, r@[b]@);
        }
    }
    assert(v@.take(i as int) =~= v@);
    r
}

} // verus!
