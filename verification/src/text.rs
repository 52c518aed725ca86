//! Small verified string helpers.
use vstd::prelude::*;
use vstd::string::*;

verus! {

/// `s` holds the separator `::` starting at position `i`.
pub open spec fn double_colon_at(s: Seq<char>, i: int) -> bool {
    0 <= i && i + 1 < s.len() && s[i] == ':' && s[i + 1] == ':'
}

/// `s` holds no separator `::` before position `i`.
pub open spec fn no_double_colon_before(s: Seq<char>, i: int) -> bool {
    forall|j: int| 0 <= j < i ==> !#[trigger] double_colon_at(s, j)
}

/// The part of `s` before its first `::`, or all of `s` when it holds none.
pub open spec fn before_double_colon(s: Seq<char>) -> Seq<char> {
    if exists|i: int| double_colon_at(s, i) {
        let i = choose|i: int| double_colon_at(s, i) && no_double_colon_before(s, i);
        s.take(i)
    } else {
        s
    }
}

proof fn lemma_first_double_colon(s: Seq<char>, from: int, i: int) -> (j: int)
    requires
        0 <= from <= i,
        double_colon_at(s, i),
        no_double_colon_before(s, from),
    ensures
        double_colon_at(s, j),
        no_double_colon_before(s, j),
    decreases i - from,
{
    if double_colon_at(s, from) {
        from
    } else {
        assert forall|k: int| 0 <= k < from + 1 implies !#[trigger] double_colon_at(s, k) by {
            if k < from {
                assert(!double_colon_at(s, k));
            }
        }
        lemma_first_double_colon(s, from + 1, i)
    }
}

/// The part before the first `::` starts `s` and holds no `::`; when `s`
/// holds a `::`, one comes right after that part.
pub proof fn lemma_before_double_colon(s: Seq<char>)
    ensures
        before_double_colon(s).is_prefix_of(s),
        forall|j: int|
            0 <= j < before_double_colon(s).len() - 1 ==> !(before_double_colon(s)[j] == ':'
                && #[trigger] before_double_colon(s)[j + 1] == ':'),
        (exists|i: int| 0 <= i && i + 1 < s.len() && s[i] == ':' && #[trigger] s[i + 1] == ':')
            ==> ({
            let n = before_double_colon(s).len() as int;
            n + 1 < s.len() && s[n] == ':' && s[n + 1] == ':'
        }),
{
    if exists|i: int| double_colon_at(s, i) {
        let w = choose|i: int| double_colon_at(s, i);
        let m = lemma_first_double_colon(s, 0, w);
        let i = choose|i: int| double_colon_at(s, i) && no_double_colon_before(s, i);
        assert(i + 1 < s.len());
        assert forall|j: int| 0 <= j < i - 1 implies !(s.take(i)[j] == ':' && #[trigger] s.take(
            i,
        )[j + 1] == ':') by {
            assert(!double_colon_at(s, j));
        }
    } else {
        assert forall|j: int| 0 <= j < s.len() - 1 implies !(s[j] == ':' && #[trigger] s[j + 1]
            == ':') by {
            assert(!double_colon_at(s, j));
        }
        if exists|i: int| 0 <= i && i + 1 < s.len() && s[i] == ':' && #[trigger] s[i + 1] == ':' {
            let i = choose|i: int| 0 <= i && i + 1 < s.len() && s[i] == ':' && #[trigger] s[i + 1]
                == ':';
            assert(double_colon_at(s, i));
        }
    }
}

/// `prefix` starts `s`.
pub fn has_prefix(s: &str, prefix: &str) -> (r: bool)
    ensures
        r == prefix@.is_prefix_of(s@),
{
    let n = s.unicode_len();
    let m = prefix.unicode_len();
    if m > n {
        return false;
    }
    let mut i: usize = 0;
    while i < m
        invariant
            i <= m <= n,
            n == s@.len(),
            m == prefix@.len(),
            forall|k: int| 0 <= k < i ==> s@[k] == prefix@[k],
        decreases m - i,
    {
        if s.get_char(i) != prefix.get_char(i) {
            return false;
        }
        i = i + 1;
    }
    assert(prefix@ =~= s@.subrange(0, prefix@.len() as int));
    true
}

/// The first item of splitting `s` on `::`: the part before the first `::`.
pub fn head_before_double_colon(s: &str) -> (r: String)
    ensures
        r@ == before_double_colon(s@),
{
    let n = s.unicode_len();
    let mut i: usize = 0;
    while i < n && i + 1 < n
        invariant
            n == s@.len(),
            i <= n,
            no_double_colon_before(s@, i as int),
        decreases n - i,
    {
        if s.get_char(i) == ':' && s.get_char(i + 1) == ':' {
            assert(double_colon_at(s@, i as int));
            let head = s.substring_char(0, i);
            let r = String::from_str(head);
            proof {
                let c = choose|c: int| double_colon_at(s@, c) && no_double_colon_before(s@, c);
                assert(c == i as int);
            }
            return r;
        }
        i = i + 1;
    }
    assert forall|j: int| !double_colon_at(s@, j) by {
        if double_colon_at(s@, j) {
            assert(j < i);
        }
    }
    let r = String::from_str(s);
    r
}

/// Append `c` to `s` (`String::push`).
#[verifier::external_body]
pub(crate) fn push_char(s: &mut String, c: char)
    ensures
        final(s)@ == old(s)@.push(c),
{
    s.push(c)
}

/// A character of the Unicode `White_Space` property, the whitespace that
/// `str::trim` strips.
pub open spec fn is_white_space(c: char) -> bool {
    let v = c as u32;
    (0x9 <= v <= 0xd) || v == 0x20 || v == 0x85 || v == 0xa0 || v == 0x1680 || (0x2000 <= v
        <= 0x200a) || v == 0x2028 || v == 0x2029 || v == 0x202f || v == 0x205f || v == 0x3000
}

/// `s` without its leading whitespace.
pub open spec fn trimmed_start(s: Seq<char>) -> Seq<char>
    decreases s.len(),
{
    if s.len() > 0 && is_white_space(s[0]) {
        trimmed_start(s.drop_first())
    } else {
        s
    }
}

/// `s` without its trailing whitespace.
pub open spec fn trimmed_end(s: Seq<char>) -> Seq<char>
    decreases s.len(),
{
    if s.len() > 0 && is_white_space(s.last()) {
        trimmed_end(s.drop_last())
    } else {
        s
    }
}

/// The text of `s` without its leading and trailing whitespace.
pub open spec fn trimmed(s: Seq<char>) -> Seq<char> {
    trimmed_end(trimmed_start(s))
}

proof fn lemma_trimmed_start(s: Seq<char>, a: int)
    requires
        0 <= a <= s.len(),
        forall|k: int| 0 <= k < a ==> is_white_space(#[trigger] s[k]),
        a == s.len() || !is_white_space(s[a]),
    ensures
        trimmed_start(s) == s.subrange(a, s.len() as int),
    decreases a,
{
    if a == 0 {
        assert(s.subrange(0, s.len() as int) =~= s);
    } else {
        assert(is_white_space(s[0]));
        let t = s.drop_first();
        assert forall|k: int| 0 <= k < a - 1 implies is_white_space(#[trigger] t[k]) by {
            assert(t[k] == s[k + 1]);
        }
        if a < s.len() {
            assert(t[a - 1] == s[a]);
        }
        lemma_trimmed_start(t, a - 1);
        assert(t.subrange(a - 1, t.len() as int) =~= s.subrange(a, s.len() as int));
    }
}

proof fn lemma_trimmed_end(s: Seq<char>, b: int)
    requires
        0 <= b <= s.len(),
        forall|k: int| b <= k < s.len() ==> is_white_space(#[trigger] s[k]),
        b == 0 || !is_white_space(s[b - 1]),
    ensures
        trimmed_end(s) == s.subrange(0, b),
    decreases s.len() - b,
{
    if b == s.len() {
        assert(s.subrange(0, b) =~= s);
    } else {
        assert(is_white_space(s.last()));
        let t = s.drop_last();
        assert forall|k: int| b <= k < t.len() implies is_white_space(#[trigger] t[k]) by {
            assert(t[k] == s[k]);
        }
        if b > 0 {
            assert(t[b - 1] == s[b - 1]);
        }
        lemma_trimmed_end(t, b);
        assert(t.subrange(0, b) =~= s.subrange(0, b));
    }
}

/// The character is whitespace.
fn white_space(c: char) -> (r: bool)
    ensures
        r == is_white_space(c),
{
    let v = c as u32;
    (0x9 <= v && v <= 0xd) || v == 0x20 || v == 0x85 || v == 0xa0 || v == 0x1680 || (0x2000 <= v
        && v <= 0x200a) || v == 0x2028 || v == 0x2029 || v == 0x202f || v == 0x205f || v == 0x3000
}

/// `s` without leading and trailing whitespace, as `str::trim` gives it.
pub(crate) fn trim_text(s: &str) -> (r: String)
    ensures
        r@ == trimmed(s@),
{
    let n = s.unicode_len();
    let mut a: usize = 0;
    while a < n && white_space(s.get_char(a))
        invariant
            n == s@.len(),
            a <= n,
            forall|k: int| 0 <= k < a ==> is_white_space(#[trigger] s@[k]),
        decreases n - a,
    {
        a = a + 1;
    }
    let mut b: usize = n;
    while b > a && white_space(s.get_char(b - 1))
        invariant
            n == s@.len(),
            a <= b <= n,
            forall|k: int| b <= k < n ==> is_white_space(#[trigger] s@[k]),
        decreases b - a,
    {
        b = b - 1;
    }
    let ghost t = s@.subrange(a as int, n as int);
    proof {
        lemma_trimmed_start(s@, a as int);
        assert forall|k: int| b - a <= k < t.len() implies is_white_space(#[trigger] t[k]) by {
            assert(t[k] == s@[k + a]);
        }
        if b > a {
            assert(t[b - a - 1] == s@[b - 1]);
        }
        lemma_trimmed_end(t, b - a);
        assert(t.subrange(0, b - a) =~= s@.subrange(a as int, b as int));
    }
    let mut r = String::new();
    let mut i: usize = a;
    while i < b
        invariant
            n == s@.len(),
            a <= i <= b <= n,
            r@ =~= s@.subrange(a as int, i as int),
        decreases b - i,
    {
        let c = s.get_char(i);
        push_char(&mut r, c);
        assert(s@.subrange(a as int, i + 1) =~= s@.subrange(a as int, i as int).push(c));
        i = i + 1;
    }
    r
}

/// The lowercase form of `s`, as `str::to_lowercase` gives it.
pub uninterp spec fn lowercased(s: Seq<char>) -> Seq<char>;

/// `s` in lowercase.
///
/// Calls `str::to_lowercase`; the contract names its result as a function of
/// `s` and states nothing more of it.
#[verifier::external_body]
pub(crate) fn to_lowercase_text(s: &str) -> (r: String)
    ensures
        r@ == lowercased(s@),
{
    s.to_lowercase()
}

/// `a` and `b` hold the same characters.
pub fn str_eq(a: &str, b: &str) -> (r: bool)
    ensures
        r == (a@ == b@),
{
    let n = a.unicode_len();
    let m = b.unicode_len();
    if n != m {
        return false;
    }
    let mut i: usize = 0;
    while i < n
        invariant
            i <= n,
            n == a@.len(),
            m == b@.len(),
            n == m,
            forall|k: int| 0 <= k < i ==> a@[k] == b@[k],
        decreases n - i,
    {
        if a.get_char(i) != b.get_char(i) {
            return false;
        }
        i = i + 1;
    }
    assert(a@ =~= b@);
    true
}

/// A path written with `/` separators: every `\\` becomes `/`.
pub open spec fn posix_path(s: Seq<char>) -> Seq<char> {
    s.map_values(|c: char| if c == '\\' { '/' } else { c })
}

/// The `/` form of a path has the same length; each `\\` becomes `/`, and
/// every other character stays.
pub proof fn lemma_posix_path_chars(s: Seq<char>)
    ensures
        posix_path(s).len() == s.len(),
        forall|i: int|
            0 <= i < s.len() ==> (#[trigger] posix_path(s)[i] == '/' <==> (s[i] == '\\' || s[i]
                == '/')),
        forall|i: int| 0 <= i < s.len() && s[i] != '\\' ==> #[trigger] posix_path(s)[i] == s[i],
{
}

/// Convert a path to `/` separators.
pub fn normalize_to_posix(path: &str) -> (r: String)
    ensures
        r@ == posix_path(path@),
{
    let n = path.unicode_len();
    let mut r = String::new();
    let mut i: usize = 0;
    while i < n
        invariant
            i <= n,
            n == path@.len(),
            r@ =~= posix_path(path@.take(i as int)),
        decreases n - i,
    {
        let c = path.get_char(i);
        if c == '\\' {
            push_char(&mut r, '/');
        } else {
            push_char(&mut r, c);
        }
        assert(path@.take(i + 1) =~= path@.take(i as int).push(c));
        i = i + 1;
    }
    assert(path@.take(n as int) =~= path@);
    r
}

/// `needle` occurs in `s` starting at position `i`.
pub open spec fn occurs_at(s: Seq<char>, needle: Seq<char>, i: int) -> bool {
    0 <= i && i + needle.len() <= s.len() && s.subrange(i, i + needle.len()) == needle
}

/// `needle` occurs somewhere in `s`.
pub open spec fn contains_text(s: Seq<char>, needle: Seq<char>) -> bool {
    exists|i: int| occurs_at(s, needle, i)
}

/// `needle` occurs somewhere in `s` (`str::contains`).
pub fn str_contains(s: &str, needle: &str) -> (r: bool)
    ensures
        r == contains_text(s@, needle@),
{
    let n = s.unicode_len();
    let m = needle.unicode_len();
    if m > n {
        assert forall|i: int| !occurs_at(s@, needle@, i) by {
        }
        return false;
    }
    let mut i: usize = 0;
    while i <= n - m
        invariant
            n == s@.len(),
            m == needle@.len(),
            m <= n,
            i <= n - m + 1,
            forall|j: int| 0 <= j < i ==> !occurs_at(s@, needle@, j),
        decreases n - m + 1 - i,
    {
        let mut k: usize = 0;
        let mut same = true;
        while k < m
            invariant
                n == s@.len(),
                m == needle@.len(),
                i + m <= n,
                k <= m,
                same == (forall|q: int| 0 <= q < k ==> s@[i + q] == needle@[q]),
            decreases m - k,
        {
            if s.get_char(i + k) != needle.get_char(k) {
                same = false;
            }
            k = k + 1;
        }
        if same {
            assert(s@.subrange(i as int, i + m) =~= needle@);
            assert(occurs_at(s@, needle@, i as int));
            return true;
        }
        assert(!occurs_at(s@, needle@, i as int)) by {
            if occurs_at(s@, needle@, i as int) {
                assert forall|q: int| 0 <= q < m implies s@[i + q] == needle@[q] by {
                    assert(s@.subrange(i as int, i + m)[q] == needle@[q]);
                }
            }
        }
        i = i + 1;
    }
    assert forall|j: int| !occurs_at(s@, needle@, j) by {
        if occurs_at(s@, needle@, j) {
            assert(j < i);
        }
    }
    false
}

/// The items one after the other with `sep` between them.
pub open spec fn joined(items: Seq<Seq<char>>, sep: Seq<char>) -> Seq<char>
    decreases items.len(),
{
    if items.len() == 0 {
        Seq::empty()
    } else if items.len() == 1 {
        items[0]
    } else {
        joined(items.drop_last(), sep) + sep + items.last()
    }
}

/// The characters of each string.
pub open spec fn strings_view(items: Seq<String>) -> Seq<Seq<char>> {
    items.map_values(|s: String| s@)
}

/// Join strings with a separator (`[String]::join`).
pub fn join_strings(items: &Vec<String>, sep: &str) -> (r: String)
    ensures
        r@ == joined(strings_view(items@), sep@),
{
    let mut r = String::new();
    let mut i: usize = 0;
    while i < items.len()
        invariant
            i <= items.len(),
            r@ == joined(strings_view(items@.take(i as int)), sep@),
        decreases items.len() - i,
    {
        let ghost prev = strings_view(items@.take(i as int));
        let ghost next = strings_view(items@.take(i + 1));
        assert(next.drop_last() =~= prev);
        assert(next.last() == items@[i as int]@);
        if i > 0 {
            r.append(sep);
        } else {
            assert(prev =~= Seq::<Seq<char>>::empty());
        }
        r.append(items[i].as_str());
        i = i + 1;
    }
    assert(items@.take(i as int) =~= items@);
    r
}

/// `first`, then `::`, then `second`.
pub fn join_double_colon(first: &String, second: &String) -> (r: String)
    ensures
        r@ == first@ + seq![':', ':'] + second@,
{
    let mut r = first.clone();
    r.append("::");
    r.append(second.as_str());
    proof {
        reveal_strlit("::");
    }
    assert(r@ =~= first@ + seq![':', ':'] + second@);
    r
}

/// The character of a decimal digit.
pub open spec fn digit_char(d: int) -> char {
    if d == 0 {
        '0'
    } else if d == 1 {
        '1'
    } else if d == 2 {
        '2'
    } else if d == 3 {
        '3'
    } else if d == 4 {
        '4'
    } else if d == 5 {
        '5'
    } else if d == 6 {
        '6'
    } else if d == 7 {
        '7'
    } else if d == 8 {
        '8'
    } else {
        '9'
    }
}

/// The decimal digits of `n`, most significant first, without leading
/// zeros (`0` for zero).
pub open spec fn decimal(n: nat) -> Seq<char>
    decreases n,
{
    if n < 10 {
        seq![digit_char(n as int)]
    } else {
        decimal(n / 10).push(digit_char((n % 10) as int))
    }
}

/// The number that a string of decimal digits spells, most significant
/// digit first.
pub open spec fn digits_value(s: Seq<char>) -> int
    decreases s.len(),
{
    if s.len() == 0 {
        0
    } else {
        digits_value(s.drop_last()) * 10 + (s.last() as int - '0' as int)
    }
}

proof fn lemma_digit_char_value(d: int)
    requires
        0 <= d < 10,
    ensures
        digit_char(d) as int - '0' as int == d,
        '0' <= digit_char(d) <= '9',
{
}

/// The decimal text of a number is made of digits, has no leading zero
/// (except the number zero itself, written `0`), and spells the number.
pub proof fn lemma_decimal_spells(n: nat)
    ensures
        decimal(n).len() > 0,
        forall|i: int| 0 <= i < decimal(n).len() ==> '0' <= #[trigger] decimal(n)[i] <= '9',
        decimal(n)[0] == '0' ==> n == 0 && decimal(n).len() == 1,
        digits_value(decimal(n)) == n,
    decreases n,
{
    lemma_digit_char_value((n % 10) as int);
    if n < 10 {
        assert(n % 10 == n);
        assert(decimal(n).drop_last() =~= Seq::<char>::empty());
        assert(digits_value(decimal(n)) == digits_value(decimal(n).drop_last()) * 10 + (
        decimal(n).last() as int - '0' as int));
    } else {
        lemma_decimal_spells(n / 10);
        let d = decimal(n);
        let h = decimal(n / 10);
        assert(d.drop_last() =~= h);
        assert(d[0] == h[0]);
        assert forall|i: int| 0 <= i < d.len() implies '0' <= #[trigger] d[i] <= '9' by {
            if i < h.len() {
                assert(d[i] == h[i]);
            }
        }
        assert(d.last() == digit_char((n % 10) as int));
        assert(digits_value(d) == digits_value(h) * 10 + (d.last() as int - '0' as int));
        assert((n / 10) * 10 + n % 10 == n) by (nonlinear_arith);
    }
}

fn digit(d: u32) -> (c: char)
    requires
        d < 10,
    ensures
        c == digit_char(d as int),
{
    if d == 0 {
        '0'
    } else if d == 1 {
        '1'
    } else if d == 2 {
        '2'
    } else if d == 3 {
        '3'
    } else if d == 4 {
        '4'
    } else if d == 5 {
        '5'
    } else if d == 6 {
        '6'
    } else if d == 7 {
        '7'
    } else if d == 8 {
        '8'
    } else {
        '9'
    }
}

/// `n` written in decimal.
pub fn decimal_string(n: u32) -> (r: String)
    ensures
        r@ == decimal(n as nat),
    decreases n,
{
    if n < 10 {
        let mut r = String::new();
        push_char(&mut r, digit(n));
        assert(r@ =~= seq![digit_char(n as int)]);
        r
    } else {
        let mut r = decimal_string(n / 10);
        push_char(&mut r, digit(n % 10));
        r
    }
}

} // verus!
