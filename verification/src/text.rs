//! Character-level text model: the pieces of `str` behaviour that the
//! detectors rely on (whitespace, trimming, splitting), stated over `Seq<char>`.
use vstd::prelude::*;

verus! {

/// Unicode `White_Space`, the class that `char::is_whitespace`, `str::trim`
/// and `str::split_whitespace` use.
pub open spec fn is_space(c: char) -> bool {
    ||| c == ' '
    ||| ('\t' <= c && c <= '\r')
    ||| c == '\u{85}'
    ||| c == '\u{A0}'
    ||| c == '\u{1680}'
    ||| ('\u{2000}' <= c && c <= '\u{200A}')
    ||| c == '\u{2028}'
    ||| c == '\u{2029}'
    ||| c == '\u{202F}'
    ||| c == '\u{205F}'
    ||| c == '\u{3000}'
}

/// The character classes that the detectors trim or split on.
#[derive(Clone, Copy)]
pub enum CharClass {
    /// Unicode whitespace.
    Space,
    /// The quote characters `"` and `'`.
    Quote,
    /// The end of a URL authority: `/` or `?`.
    PathOrQuery,
    /// The path separator of Unix: `/`.
    Slash,
    /// The path separators of Windows: `/` and `\\`.
    SlashOrBackslash,
}

/// Whether `c` belongs to `cls`.
pub open spec fn in_class(cls: CharClass, c: char) -> bool {
    match cls {
        CharClass::Space => is_space(c),
        CharClass::Quote => c == '"' || c == '\'',
        CharClass::PathOrQuery => c == '/' || c == '?',
        CharClass::Slash => c == '/',
        CharClass::SlashOrBackslash => c == '/' || c == '\\',
    }
}

/// Whether `c` belongs to `cls`.
pub fn class_has(cls: CharClass, c: char) -> (r: bool)
    ensures
        r == in_class(cls, c),
{
    match cls {
        CharClass::Space => {
            c == ' ' || ('\t' <= c && c <= '\r') || c == '\u{85}' || c == '\u{A0}'
                || c == '\u{1680}' || ('\u{2000}' <= c && c <= '\u{200A}') || c == '\u{2028}'
                || c == '\u{2029}' || c == '\u{202F}' || c == '\u{205F}' || c == '\u{3000}'
        },
        CharClass::Quote => c == '"' || c == '\'',
        CharClass::PathOrQuery => c == '/' || c == '?',
        CharClass::Slash => c == '/',
        CharClass::SlashOrBackslash => c == '/' || c == '\\',
    }
}

/// `s` without its leading characters of class `cls`.
pub open spec fn trim_start(cls: CharClass, s: Seq<char>) -> Seq<char>
    decreases s.len(),
{
    if s.len() > 0 && in_class(cls, s[0]) {
        trim_start(cls, s.drop_first())
    } else {
        s
    }
}

/// `s` without its trailing characters of class `cls`.
pub open spec fn trim_end(cls: CharClass, s: Seq<char>) -> Seq<char>
    decreases s.len(),
{
    if s.len() > 0 && in_class(cls, s.last()) {
        trim_end(cls, s.drop_last())
    } else {
        s
    }
}

/// `s` without leading and trailing characters of class `cls`
/// (`str::trim` for whitespace, `str::trim_matches` for a set of characters).
pub open spec fn trim(cls: CharClass, s: Seq<char>) -> Seq<char> {
    trim_end(cls, trim_start(cls, s))
}

/// Where the first `i` characters of `s` are of class `cls` and the next is not, `trim_start` drops exactly them.
pub proof fn lemma_trim_start(cls: CharClass, s: Seq<char>, i: int)
    requires
        0 <= i <= s.len(),
        forall|j: int| 0 <= j < i ==> in_class(cls, #[trigger] s[j]),
        i == s.len() || !in_class(cls, s[i]),
    ensures
        trim_start(cls, s) == s.skip(i),
    decreases i,
{
    if i > 0 {
        let t = s.drop_first();
        assert forall|j: int| 0 <= j < i - 1 implies in_class(cls, #[trigger] t[j]) by {
            assert(t[j] == s[j + 1]);
        }
        lemma_trim_start(cls, t, i - 1);
        assert(t.skip(i - 1) =~= s.skip(i));
    } else {
        assert(s.skip(0) =~= s);
    }
}

/// Where the characters of `s` from `i` on are of class `cls` and the one before is not, `trim_end` keeps exactly `s[..i]`.
pub proof fn lemma_trim_end(cls: CharClass, s: Seq<char>, i: int)
    requires
        0 <= i <= s.len(),
        forall|j: int| i <= j < s.len() ==> in_class(cls, #[trigger] s[j]),
        i == 0 || !in_class(cls, s[i - 1]),
    ensures
        trim_end(cls, s) == s.take(i),
    decreases s.len() - i,
{
    if i < s.len() {
        let t = s.drop_last();
        lemma_trim_end(cls, t, i);
        assert(t.take(i) =~= s.take(i));
    } else {
        assert(s.take(i) =~= s);
    }
}

/// A text with no character of class `cls` is its own trimmed text.
pub proof fn lemma_trim_clean(cls: CharClass, s: Seq<char>)
    requires
        forall|j: int| 0 <= j < s.len() ==> !in_class(cls, #[trigger] s[j]),
    ensures
        trim(cls, s) == s,
{
    lemma_trim_start(cls, s, 0);
    assert(s.skip(0) =~= s);
    lemma_trim_end(cls, s, s.len() as int);
    assert(s.take(s.len() as int) =~= s);
}

/// Dropping a trailing character of class `cls` does not change the trimmed text.
pub proof fn lemma_trim_drop_last(cls: CharClass, s: Seq<char>)
    requires
        s.len() > 0,
        in_class(cls, s.last()),
    ensures
        trim(cls, s.drop_last()) == trim(cls, s),
    decreases s.len(),
{
    if in_class(cls, s[0]) {
        if s.len() == 1 {
            assert(s.drop_last() =~= Seq::<char>::empty());
            assert(s.drop_first() =~= Seq::<char>::empty());
        } else {
            let t = s.drop_first();
            lemma_trim_drop_last(cls, t);
            assert(s.drop_last().drop_first() =~= t.drop_last());
            assert(s.drop_last()[0] == s[0]);
        }
    } else {
        assert(s.drop_last()[0] == s[0]);
    }
}

/// The bounds of `trim(cls, v[lo..hi])` inside `v`.
pub fn trim_range(cls: CharClass, v: &Vec<char>, lo: usize, hi: usize) -> (r: (usize, usize))
    requires
        lo <= hi <= v@.len(),
    ensures
        lo <= r.0 <= r.1 <= hi,
        v@.subrange(r.0 as int, r.1 as int) == trim(cls, v@.subrange(lo as int, hi as int)),
{
    let mut a = lo;
    while a < hi && class_has(cls, v[a])
        invariant
            lo <= a <= hi <= v@.len(),
            forall|j: int| lo <= j < a ==> in_class(cls, #[trigger] v@[j]),
        decreases hi - a,
    {
        a = a + 1;
    }
    let ghost s = v@.subrange(lo as int, hi as int);
    proof {
        lemma_trim_start(cls, s, a - lo);
        assert(s.skip(a - lo) =~= v@.subrange(a as int, hi as int));
    }
    let mut b = hi;
    while b > a && class_has(cls, v[b - 1])
        invariant
            lo <= a <= b <= hi <= v@.len(),
            forall|j: int| b <= j < hi ==> in_class(cls, #[trigger] v@[j]),
        decreases b - a,
    {
        b = b - 1;
    }
    proof {
        let t = v@.subrange(a as int, hi as int);
        assert forall|j: int| b - a <= j < t.len() implies in_class(cls, #[trigger] t[j]) by {
            assert(t[j] == v@[a + j]);
        }
        lemma_trim_end(cls, t, b - a);
        assert(t.take(b - a) =~= v@.subrange(a as int, b as int));
    }
    (a, b)
}

/// Position of the first `c` in `s`, or `s.len()` when `s` holds no `c`.
pub open spec fn find_char(s: Seq<char>, c: char) -> int
    decreases s.len(),
{
    if s.len() == 0 || s[0] == c {
        0
    } else {
        1 + find_char(s.drop_first(), c)
    }
}

/// Position of the first character of class `cls` in `s`, or `s.len()` when there is none.
pub open spec fn find_class(cls: CharClass, s: Seq<char>) -> int
    decreases s.len(),
{
    if s.len() == 0 || in_class(cls, s[0]) {
        0
    } else {
        1 + find_class(cls, s.drop_first())
    }
}

/// Position of the last `c` in `s`, or `-1` when `s` holds no `c`.
pub open spec fn rfind_char(s: Seq<char>, c: char) -> int
    decreases s.len(),
{
    if s.len() == 0 {
        -1
    } else if s.last() == c {
        s.len() - 1
    } else {
        rfind_char(s.drop_last(), c)
    }
}

/// Position of the last character of class `cls` in `s`, or `-1` when there is none.
pub open spec fn rfind_class(cls: CharClass, s: Seq<char>) -> int
    decreases s.len(),
{
    if s.len() == 0 {
        -1
    } else if in_class(cls, s.last()) {
        s.len() - 1
    } else {
        rfind_class(cls, s.drop_last())
    }
}

/// Whether `s` begins with `p`.
pub open spec fn starts_with(s: Seq<char>, p: Seq<char>) -> bool {
    p.len() <= s.len() && s.take(p.len() as int) == p
}

/// Whether `s` ends with `p`.
pub open spec fn ends_with(s: Seq<char>, p: Seq<char>) -> bool {
    p.len() <= s.len() && s.skip(s.len() - p.len()) == p
}

/// Whether `p` occurs in `s` at position `i`.
pub open spec fn occurs_at(s: Seq<char>, p: Seq<char>, i: int) -> bool {
    0 <= i && i + p.len() <= s.len() && s.subrange(i, i + p.len()) == p
}

/// Whether `p` occurs anywhere in `s` (`str::contains`).
pub open spec fn contains_seq(s: Seq<char>, p: Seq<char>) -> bool {
    exists|i: int| occurs_at(s, p, i)
}

/// Position of the first occurrence of `p` in `s`, or `-1` when there is none.
pub open spec fn find_seq(s: Seq<char>, p: Seq<char>) -> int
    decreases s.len(),
{
    if s.len() < p.len() {
        -1
    } else if s.take(p.len() as int) == p {
        0
    } else if s.len() == 0 {
        -1
    } else {
        let r = find_seq(s.drop_first(), p);
        if r < 0 {
            -1
        } else {
            r + 1
        }
    }
}

/// `find_char` is the first position of `c`.
pub proof fn lemma_find_char(s: Seq<char>, c: char, i: int)
    requires
        0 <= i <= s.len(),
        forall|j: int| 0 <= j < i ==> #[trigger] s[j] != c,
        i == s.len() || s[i] == c,
    ensures
        find_char(s, c) == i,
    decreases i,
{
    if i > 0 {
        let t = s.drop_first();
        assert forall|j: int| 0 <= j < i - 1 implies #[trigger] t[j] != c by {
            assert(t[j] == s[j + 1]);
        }
        lemma_find_char(t, c, i - 1);
    }
}

/// `find_char` lies within `s`, and no `c` comes before it.
pub proof fn lemma_find_char_bounds(s: Seq<char>, c: char)
    ensures
        0 <= find_char(s, c) <= s.len(),
        find_char(s, c) < s.len() ==> s[find_char(s, c)] == c,
        forall|j: int| 0 <= j < find_char(s, c) ==> #[trigger] s[j] != c,
    decreases s.len(),
{
    if s.len() > 0 && s[0] != c {
        let t = s.drop_first();
        lemma_find_char_bounds(t, c);
        assert forall|j: int| 0 <= j < find_char(s, c) implies #[trigger] s[j] != c by {
            if j > 0 {
                assert(s[j] == t[j - 1]);
            }
        }
    }
}

/// `find_class` is the first position of a character of class `cls`.
pub proof fn lemma_find_class(cls: CharClass, s: Seq<char>, i: int)
    requires
        0 <= i <= s.len(),
        forall|j: int| 0 <= j < i ==> !in_class(cls, #[trigger] s[j]),
        i == s.len() || in_class(cls, s[i]),
    ensures
        find_class(cls, s) == i,
    decreases i,
{
    if i > 0 {
        let t = s.drop_first();
        assert forall|j: int| 0 <= j < i - 1 implies !in_class(cls, #[trigger] t[j]) by {
            assert(t[j] == s[j + 1]);
        }
        lemma_find_class(cls, t, i - 1);
    }
}

/// `find_class` lies within `s`, and no character of class `cls` comes before it.
pub proof fn lemma_find_class_bounds(cls: CharClass, s: Seq<char>)
    ensures
        0 <= find_class(cls, s) <= s.len(),
        find_class(cls, s) < s.len() ==> in_class(cls, s[find_class(cls, s)]),
        forall|j: int| 0 <= j < find_class(cls, s) ==> !in_class(cls, #[trigger] s[j]),
    decreases s.len(),
{
    if s.len() > 0 && !in_class(cls, s[0]) {
        let t = s.drop_first();
        lemma_find_class_bounds(cls, t);
        assert forall|j: int| 0 <= j < find_class(cls, s) implies !in_class(cls, #[trigger] s[j]) by {
            if j > 0 {
                assert(s[j] == t[j - 1]);
            }
        }
    }
}

/// `rfind_char` is the last position of `c`.
pub proof fn lemma_rfind_char(s: Seq<char>, c: char, i: int)
    requires
        -1 <= i < s.len(),
        forall|j: int| i < j < s.len() ==> #[trigger] s[j] != c,
        i == -1 || s[i] == c,
    ensures
        rfind_char(s, c) == i,
    decreases s.len(),
{
    if s.len() > 0 && i < s.len() - 1 {
        let t = s.drop_last();
        assert forall|j: int| i < j < t.len() implies #[trigger] t[j] != c by {
            assert(t[j] == s[j]);
        }
        lemma_rfind_char(t, c, i);
    }
}

/// `rfind_class` is the last position of a character of class `cls`.
pub proof fn lemma_rfind_class(cls: CharClass, s: Seq<char>, i: int)
    requires
        -1 <= i < s.len(),
        forall|j: int| i < j < s.len() ==> !in_class(cls, #[trigger] s[j]),
        i == -1 || in_class(cls, s[i]),
    ensures
        rfind_class(cls, s) == i,
    decreases s.len(),
{
    if s.len() > 0 && i < s.len() - 1 {
        let t = s.drop_last();
        assert forall|j: int| i < j < t.len() implies !in_class(cls, #[trigger] t[j]) by {
            assert(t[j] == s[j]);
        }
        lemma_rfind_class(cls, t, i);
    }
}

/// `rfind_class` lies within `s` (or is `-1`), and no character of class `cls` comes after it.
pub proof fn lemma_rfind_class_bounds(cls: CharClass, s: Seq<char>)
    ensures
        -1 <= rfind_class(cls, s) < s.len(),
        rfind_class(cls, s) >= 0 ==> in_class(cls, s[rfind_class(cls, s)]),
        forall|j: int| rfind_class(cls, s) < j < s.len() ==> !in_class(cls, #[trigger] s[j]),
    decreases s.len(),
{
    if s.len() > 0 && !in_class(cls, s.last()) {
        let t = s.drop_last();
        lemma_rfind_class_bounds(cls, t);
        assert forall|j: int| rfind_class(cls, s) < j < s.len() implies !in_class(
            cls,
            #[trigger] s[j],
        ) by {
            if j < t.len() {
                assert(s[j] == t[j]);
            }
        }
    }
}

/// Where `p` occurs nowhere in `s`, `find_seq` finds nothing.
pub proof fn lemma_find_seq_none(s: Seq<char>, p: Seq<char>)
    requires
        forall|j: int| !occurs_at(s, p, j),
    ensures
        find_seq(s, p) == -1,
{
    lemma_find_seq(s, p, -1);
}

/// `find_seq` is the first position at which `p` occurs, or `-1` when it occurs nowhere.
pub proof fn lemma_find_seq(s: Seq<char>, p: Seq<char>, i: int)
    requires
        i == -1 || occurs_at(s, p, i),
        forall|j: int| 0 <= j && (i == -1 || j < i) ==> !occurs_at(s, p, j),
    ensures
        find_seq(s, p) == i,
    decreases s.len(),
{
    if s.len() < p.len() {
        if i != -1 {
            assert(false);
        }
    } else if s.take(p.len() as int) == p {
        assert(s.subrange(0, p.len() as int) =~= s.take(p.len() as int));
        assert(occurs_at(s, p, 0));
    } else if s.len() == 0 {
        assert(s.take(0) =~= p);
    } else {
        if p.len() == 0 {
            assert(s.take(0) =~= p);
        }
        let t = s.drop_first();
        assert(s.subrange(0, p.len() as int) =~= s.take(p.len() as int));
        assert(i != 0);
        assert forall|j: int| 0 <= j && (i == -1 || j < i - 1) implies !occurs_at(t, p, j) by {
            if occurs_at(t, p, j) {
                assert(t.subrange(j, j + p.len()) =~= s.subrange(j + 1, j + 1 + p.len()));
                assert(occurs_at(s, p, j + 1));
            }
        }
        if i != -1 {
            assert(t.subrange(i - 1, i - 1 + p.len()) =~= s.subrange(i, i + p.len()));
            lemma_find_seq(t, p, i - 1);
        } else {
            lemma_find_seq(t, p, -1);
        }
    }
}

/// The position, relative to `lo`, of the first `c` in `v[lo..hi]`, or `hi - lo`.
pub fn find_char_in(v: &Vec<char>, lo: usize, hi: usize, c: char) -> (r: usize)
    requires
        lo <= hi <= v@.len(),
    ensures
        lo <= r <= hi,
        r - lo == find_char(v@.subrange(lo as int, hi as int), c),
{
    let mut k = lo;
    while k < hi && v[k] != c
        invariant
            lo <= k <= hi <= v@.len(),
            forall|j: int| lo <= j < k ==> #[trigger] v@[j] != c,
        decreases hi - k,
    {
        k = k + 1;
    }
    proof {
        let s = v@.subrange(lo as int, hi as int);
        assert forall|j: int| 0 <= j < k - lo implies #[trigger] s[j] != c by {
            assert(s[j] == v@[lo + j]);
        }
        lemma_find_char(s, c, k - lo);
    }
    k
}

/// The position of the first character of class `cls` in `v[lo..hi]`, or `hi`.
pub fn find_class_in(cls: CharClass, v: &Vec<char>, lo: usize, hi: usize) -> (r: usize)
    requires
        lo <= hi <= v@.len(),
    ensures
        lo <= r <= hi,
        r - lo == find_class(cls, v@.subrange(lo as int, hi as int)),
{
    let mut k = lo;
    while k < hi && !class_has(cls, v[k])
        invariant
            lo <= k <= hi <= v@.len(),
            forall|j: int| lo <= j < k ==> !in_class(cls, #[trigger] v@[j]),
        decreases hi - k,
    {
        k = k + 1;
    }
    proof {
        let s = v@.subrange(lo as int, hi as int);
        assert forall|j: int| 0 <= j < k - lo implies !in_class(cls, #[trigger] s[j]) by {
            assert(s[j] == v@[lo + j]);
        }
        lemma_find_class(cls, s, k - lo);
    }
    k
}

/// The position of the last `c` in `v[lo..hi]`, if there is one.
pub fn rfind_char_in(v: &Vec<char>, lo: usize, hi: usize, c: char) -> (r: Option<usize>)
    requires
        lo <= hi <= v@.len(),
    ensures
        match r {
            None => rfind_char(v@.subrange(lo as int, hi as int), c) == -1,
            Some(k) => lo <= k < hi && k - lo == rfind_char(v@.subrange(lo as int, hi as int), c),
        },
{
    let mut k = hi;
    while k > lo && v[k - 1] != c
        invariant
            lo <= k <= hi <= v@.len(),
            forall|j: int| k <= j < hi ==> #[trigger] v@[j] != c,
        decreases k - lo,
    {
        k = k - 1;
    }
    let ghost s = v@.subrange(lo as int, hi as int);
    proof {
        assert forall|j: int| k - lo <= j < s.len() implies #[trigger] s[j] != c by {
            assert(s[j] == v@[lo + j]);
        }
    }
    if k == lo {
        proof {
            lemma_rfind_char(s, c, -1);
        }
        None
    } else {
        proof {
            lemma_rfind_char(s, c, k - 1 - lo);
        }
        Some(k - 1)
    }
}

/// The position of the last character of class `cls` in `v[lo..hi]`, if there is one.
pub fn rfind_class_in(cls: CharClass, v: &Vec<char>, lo: usize, hi: usize) -> (r: Option<usize>)
    requires
        lo <= hi <= v@.len(),
    ensures
        match r {
            None => rfind_class(cls, v@.subrange(lo as int, hi as int)) == -1,
            Some(k) => lo <= k < hi && k - lo == rfind_class(cls, v@.subrange(lo as int, hi as int)),
        },
{
    let mut k = hi;
    while k > lo && !class_has(cls, v[k - 1])
        invariant
            lo <= k <= hi <= v@.len(),
            forall|j: int| k <= j < hi ==> !in_class(cls, #[trigger] v@[j]),
        decreases k - lo,
    {
        k = k - 1;
    }
    let ghost s = v@.subrange(lo as int, hi as int);
    proof {
        assert forall|j: int| k - lo <= j < s.len() implies !in_class(cls, #[trigger] s[j]) by {
            assert(s[j] == v@[lo + j]);
        }
    }
    if k == lo {
        proof {
            lemma_rfind_class(cls, s, -1);
        }
        None
    } else {
        proof {
            lemma_rfind_class(cls, s, k - 1 - lo);
        }
        Some(k - 1)
    }
}

/// Whether `v[lo..hi]` equals `p`.
pub fn range_eq(v: &Vec<char>, lo: usize, hi: usize, p: &Vec<char>) -> (r: bool)
    requires
        lo <= hi <= v@.len(),
    ensures
        r == (v@.subrange(lo as int, hi as int) == p@),
{
    if hi - lo != p.len() {
        return false;
    }
    let mut j: usize = 0;
    while j < p.len()
        invariant
            lo <= hi <= v@.len(),
            hi - lo == p@.len(),
            j <= p@.len(),
            forall|i: int| 0 <= i < j ==> v@[lo + i] == #[trigger] p@[i],
        decreases p@.len() - j,
    {
        if v[lo + j] != p[j] {
            assert(v@.subrange(lo as int, hi as int)[j as int] != p@[j as int]);
            return false;
        }
        j = j + 1;
    }
    assert(v@.subrange(lo as int, hi as int) =~= p@);
    true
}

/// Whether `p` occurs in `v[lo..hi]` at absolute position `at`.
fn occurs_in(v: &Vec<char>, lo: usize, hi: usize, p: &Vec<char>, at: usize) -> (r: bool)
    requires
        lo <= at <= hi <= v@.len(),
    ensures
        r == occurs_at(v@.subrange(lo as int, hi as int), p@, at - lo),
{
    if p.len() > hi - at {
        return false;
    }
    let r = range_eq(v, at, at + p.len(), p);
    assert(v@.subrange(lo as int, hi as int).subrange(at - lo, at - lo + p@.len())
        =~= v@.subrange(at as int, at + p@.len()));
    r
}

/// Whether `v[lo..hi]` begins with `p`.
pub fn starts_with_in(v: &Vec<char>, lo: usize, hi: usize, p: &Vec<char>) -> (r: bool)
    requires
        lo <= hi <= v@.len(),
    ensures
        r == starts_with(v@.subrange(lo as int, hi as int), p@),
{
    let r = occurs_in(v, lo, hi, p, lo);
    assert(v@.subrange(lo as int, hi as int).take(p@.len() as int)
        =~= v@.subrange(lo as int, hi as int).subrange(0, p@.len() as int));
    r
}

/// Whether `v[lo..hi]` ends with `p`.
pub fn ends_with_in(v: &Vec<char>, lo: usize, hi: usize, p: &Vec<char>) -> (r: bool)
    requires
        lo <= hi <= v@.len(),
    ensures
        r == ends_with(v@.subrange(lo as int, hi as int), p@),
{
    if p.len() > hi - lo {
        return false;
    }
    let r = occurs_in(v, lo, hi, p, hi - p.len());
    assert(v@.subrange(lo as int, hi as int).skip(hi - lo - p@.len())
        =~= v@.subrange(lo as int, hi as int).subrange(hi - lo - p@.len(), hi - lo));
    r
}

/// The position of the first occurrence of `p` in `v[lo..hi]`, if any.
pub fn find_seq_in(v: &Vec<char>, lo: usize, hi: usize, p: &Vec<char>) -> (r: Option<usize>)
    requires
        lo <= hi <= v@.len(),
    ensures
        match r {
            None => find_seq(v@.subrange(lo as int, hi as int), p@) == -1,
            Some(k) => lo <= k && k + p@.len() <= hi && k - lo == find_seq(
                v@.subrange(lo as int, hi as int),
                p@,
            ),
        },
{
    let ghost s = v@.subrange(lo as int, hi as int);
    if p.len() > hi - lo {
        proof {
            lemma_find_seq_none(s, p@);
        }
        return None;
    }
    let last = hi - p.len();
    let mut k = lo;
    loop
        invariant_except_break
            lo <= k <= last,
            last + p@.len() == hi,
            hi <= v@.len(),
            s == v@.subrange(lo as int, hi as int),
            forall|j: int| 0 <= j < k - lo ==> !occurs_at(s, p@, j),
        ensures
            forall|j: int| 0 <= j <= last - lo ==> !occurs_at(s, p@, j),
        decreases last - k,
    {
        if occurs_in(v, lo, hi, p, k) {
            proof {
                lemma_find_seq(s, p@, k - lo);
            }
            return Some(k);
        }
        if k == last {
            break;
        }
        k = k + 1;
    }
    proof {
        assert forall|j: int| !occurs_at(s, p@, j) by {
            if j > last - lo {
                assert(j + p@.len() > s.len());
            }
        }
        lemma_find_seq_none(s, p@);
    }
    None
}

/// `char::to_ascii_uppercase`.
pub open spec fn ascii_upper(c: char) -> char {
    if 'a' <= c && c <= 'z' {
        ((c as int) - 32) as char
    } else {
        c
    }
}

/// `char::to_ascii_lowercase`.
pub open spec fn ascii_lower(c: char) -> char {
    if 'A' <= c && c <= 'Z' {
        ((c as int) + 32) as char
    } else {
        c
    }
}

/// `str::to_ascii_uppercase`.
pub open spec fn to_upper(s: Seq<char>) -> Seq<char> {
    s.map_values(|c: char| ascii_upper(c))
}

/// `str::to_ascii_lowercase`.
pub open spec fn to_lower(s: Seq<char>) -> Seq<char> {
    s.map_values(|c: char| ascii_lower(c))
}

/// `str::eq_ignore_ascii_case`.
pub open spec fn eq_ignore_case(a: Seq<char>, b: Seq<char>) -> bool {
    to_lower(a) == to_lower(b)
}

/// `char::to_ascii_uppercase`.
pub fn upper_char(c: char) -> (r: char)
    ensures
        r == ascii_upper(c),
{
    if 'a' <= c && c <= 'z' {
        let b = c as u8;
        assert(b == c as int);
        ((b - 32) as char)
    } else {
        c
    }
}

/// `char::to_ascii_lowercase`.
pub fn lower_char(c: char) -> (r: char)
    ensures
        r == ascii_lower(c),
{
    if 'A' <= c && c <= 'Z' {
        let b = c as u8;
        assert(b == c as int);
        ((b + 32) as char)
    } else {
        c
    }
}

/// Whether `p` occurs in the upper-cased `v[lo..hi]`.
pub fn contains_upper_in(v: &Vec<char>, lo: usize, hi: usize, p: &Vec<char>) -> (r: bool)
    requires
        lo <= hi <= v@.len(),
    ensures
        r == contains_seq(to_upper(v@.subrange(lo as int, hi as int)), p@),
{
    let ghost u = to_upper(v@.subrange(lo as int, hi as int));
    let m = p.len();
    if m > hi - lo {
        assert forall|i: int| !occurs_at(u, p@, i) by {}
        return false;
    }
    let last = hi - m;
    let mut k = lo;
    loop
        invariant_except_break
            lo <= k <= last,
            last + m == hi,
            m == p@.len(),
            hi <= v@.len(),
            u == to_upper(v@.subrange(lo as int, hi as int)),
            forall|i: int| 0 <= i < k - lo ==> !occurs_at(u, p@, i),
        ensures
            forall|i: int| 0 <= i <= last - lo ==> !occurs_at(u, p@, i),
        decreases last - k,
    {
        let mut j: usize = 0;
        while j < m && upper_char(v[k + j]) == p[j]
            invariant
                lo <= k <= last,
                last + m == hi,
                m == p@.len(),
                hi <= v@.len(),
                j <= m,
                forall|i: int| 0 <= i < j ==> ascii_upper(v@[k + i]) == #[trigger] p@[i],
            decreases m - j,
        {
            j = j + 1;
        }
        if j == m {
            assert(u.subrange(k - lo, k - lo + m) =~= p@) by {
                assert forall|i: int| 0 <= i < m implies #[trigger] u.subrange(k - lo, k - lo + m)[i]
                    == p@[i] by {
                    assert(u[k - lo + i] == ascii_upper(v@[k + i]));
                }
            }
            assert(occurs_at(u, p@, k - lo));
            return true;
        }
        assert(!occurs_at(u, p@, k - lo)) by {
            assert(u.subrange(k - lo, k - lo + m)[j as int] == ascii_upper(v@[k + j]));
        }
        if k == last {
            break;
        }
        k = k + 1;
    }
    assert forall|i: int| !occurs_at(u, p@, i) by {
        if 0 <= i && i > last - lo {
            assert(i + p@.len() > u.len());
        }
    }
    false
}

/// A line without its trailing carriage return, as `str::lines` yields it.
pub open spec fn strip_cr(l: Seq<char>) -> Seq<char> {
    if l.len() > 0 && l.last() == '\r' {
        l.drop_last()
    } else {
        l
    }
}

/// `str::lines`: the pieces of `s` between line feeds, each without a trailing
/// carriage return; a final line feed ends the last line and starts no new one.
pub open spec fn lines(s: Seq<char>) -> Seq<Seq<char>>
    decreases s.len(),
{
    if s.len() == 0 {
        seq![]
    } else {
        let k = find_char(s, '\n');
        if k >= s.len() {
            seq![s]
        } else {
            proof {
                lemma_find_char_bounds(s, '\n');
            }
            seq![strip_cr(s.take(k))] + lines(s.skip(k + 1))
        }
    }
}

/// The first line of `v[p..]`: it spans `v[p..r.0]`, and the rest of the text starts at `r.1`.
pub fn next_line(v: &Vec<char>, p: usize) -> (r: (usize, usize))
    requires
        p < v@.len(),
    ensures
        p <= r.0 <= r.1 <= v@.len(),
        p < r.1,
        lines(v@.skip(p as int)) == seq![v@.subrange(p as int, r.0 as int)] + lines(
            v@.skip(r.1 as int),
        ),
{
    let n = v.len();
    let k = find_char_in(v, p, n, '\n');
    let ghost s = v@.skip(p as int);
    assert(v@.subrange(p as int, n as int) =~= s);
    if k == n {
        assert(v@.skip(n as int) =~= Seq::<char>::empty());
        assert(s =~= v@.subrange(p as int, n as int));
        (n, n)
    } else {
        assert(s.take(k - p) =~= v@.subrange(p as int, k as int));
        assert(s.skip(k - p + 1) =~= v@.skip(k + 1));
        if k > p && v[k - 1] == '\r' {
            assert(strip_cr(s.take(k - p)) =~= v@.subrange(p as int, k - 1));
            (k - 1, k + 1)
        } else {
            (k, k + 1)
        }
    }
}

/// `str::split_whitespace`: the maximal runs of non-whitespace characters of `s`, in order.
pub open spec fn words(s: Seq<char>) -> Seq<Seq<char>>
    decreases s.len(),
{
    if s.len() == 0 {
        seq![]
    } else if is_space(s[0]) {
        words(s.drop_first())
    } else {
        let k = find_class(CharClass::Space, s);
        proof {
            lemma_find_class_bounds(CharClass::Space, s);
        }
        seq![s.take(k)] + words(s.skip(k))
    }
}

/// Leading whitespace does not change the words of `s`.
pub proof fn lemma_words_skip_space(s: Seq<char>, i: int)
    requires
        0 <= i <= s.len(),
        forall|j: int| 0 <= j < i ==> is_space(#[trigger] s[j]),
    ensures
        words(s) == words(s.skip(i)),
    decreases i,
{
    if i > 0 {
        let t = s.drop_first();
        assert forall|j: int| 0 <= j < i - 1 implies is_space(#[trigger] t[j]) by {
            assert(t[j] == s[j + 1]);
        }
        lemma_words_skip_space(t, i - 1);
        assert(t.skip(i - 1) =~= s.skip(i));
    } else {
        assert(s.skip(0) =~= s);
    }
}

/// The first word of `v[p..hi]`, if any: it spans `v[r.0..r.1]`.
pub fn next_word(v: &Vec<char>, p: usize, hi: usize) -> (r: Option<(usize, usize)>)
    requires
        p <= hi <= v@.len(),
    ensures
        match r {
            None => words(v@.subrange(p as int, hi as int)) == Seq::<Seq<char>>::empty(),
            Some((a, b)) => p <= a < b <= hi && words(v@.subrange(p as int, hi as int)) == seq![
                v@.subrange(a as int, b as int),
            ] + words(v@.subrange(b as int, hi as int)),
        },
{
    let mut a = p;
    while a < hi && class_has(CharClass::Space, v[a])
        invariant
            p <= a <= hi <= v@.len(),
            forall|j: int| p <= j < a ==> is_space(#[trigger] v@[j]),
        decreases hi - a,
    {
        a = a + 1;
    }
    let ghost s = v@.subrange(p as int, hi as int);
    proof {
        assert forall|j: int| 0 <= j < a - p implies is_space(#[trigger] s[j]) by {
            assert(s[j] == v@[p + j]);
        }
        lemma_words_skip_space(s, a - p);
        assert(s.skip(a - p) =~= v@.subrange(a as int, hi as int));
    }
    if a == hi {
        return None;
    }
    let b = find_class_in(CharClass::Space, v, a, hi);
    proof {
        let t = v@.subrange(a as int, hi as int);
        lemma_find_class_bounds(CharClass::Space, t);
        assert(t.take(b - a) =~= v@.subrange(a as int, b as int));
        assert(t.skip(b - a) =~= v@.subrange(b as int, hi as int));
    }
    Some((a, b))
}

/// The first word of `s` (`s.split_whitespace().next()`), or nothing when `s` is blank.
pub open spec fn first_word(s: Seq<char>) -> Seq<char> {
    let w = words(s);
    if w.len() > 0 {
        w[0]
    } else {
        seq![]
    }
}

/// A non-empty text without whitespace is a single word.
pub proof fn lemma_single_word(s: Seq<char>)
    requires
        s.len() > 0,
        forall|j: int| 0 <= j < s.len() ==> !is_space(#[trigger] s[j]),
    ensures
        words(s) == seq![s],
        first_word(s) == s,
{
    assert forall|j: int| 0 <= j < s.len() implies !in_class(CharClass::Space, #[trigger] s[j]) by {}
    lemma_find_class(CharClass::Space, s, s.len() as int);
    assert(s.take(s.len() as int) =~= s);
    assert(s.skip(s.len() as int) =~= Seq::<char>::empty());
    assert(words(s.skip(s.len() as int)) =~= Seq::<Seq<char>>::empty());
}

/// Whether `c` is an ASCII decimal digit.
pub open spec fn is_digit(c: char) -> bool {
    '0' <= c && c <= '9'
}

/// Whether every character of `s` is an ASCII decimal digit.
pub open spec fn all_digits(s: Seq<char>) -> bool {
    forall|i: int| 0 <= i < s.len() ==> is_digit(#[trigger] s[i])
}

/// The value of a string of decimal digits.
pub open spec fn decimal(s: Seq<char>) -> int
    decreases s.len(),
{
    if s.len() == 0 {
        0
    } else {
        decimal(s.drop_last()) * 10 + (s.last() as int - '0' as int)
    }
}

/// `str::parse::<u16>`: an optional `+`, then one or more ASCII digits whose
/// value fits in 16 bits; anything else is refused.
pub open spec fn parse_u16(s: Seq<char>) -> Option<u16> {
    let d = if s.len() > 0 && s[0] == '+' {
        s.drop_first()
    } else {
        s
    };
    if d.len() > 0 && all_digits(d) && decimal(d) <= 65535 {
        Some(decimal(d) as u16)
    } else {
        None
    }
}

/// The value of a prefix of a digit string is at most the value of the whole.
pub proof fn lemma_decimal_prefix(d: Seq<char>, j: int)
    requires
        0 <= j <= d.len(),
        forall|i: int| 0 <= i < d.len() ==> is_digit(#[trigger] d[i]),
    ensures
        0 <= decimal(d.take(j)) <= decimal(d),
    decreases d.len(),
{
    if j == d.len() {
        assert(d.take(j) =~= d);
        if d.len() > 0 {
            lemma_decimal_prefix(d.drop_last(), d.len() - 1);
            assert(d.drop_last().take(d.len() - 1) =~= d.drop_last());
        }
    } else {
        let t = d.drop_last();
        lemma_decimal_prefix(t, j);
        lemma_decimal_prefix(t, t.len() as int);
        assert(t.take(j) =~= d.take(j));
        assert(t.take(t.len() as int) =~= t);
    }
}

/// `v[lo..hi].parse::<u16>()`.
pub fn parse_u16_in(v: &Vec<char>, lo: usize, hi: usize) -> (r: Option<u16>)
    requires
        lo <= hi <= v@.len(),
    ensures
        r == parse_u16(v@.subrange(lo as int, hi as int)),
{
    let ghost s = v@.subrange(lo as int, hi as int);
    let start = if lo < hi && v[lo] == '+' {
        lo + 1
    } else {
        lo
    };
    let ghost d = v@.subrange(start as int, hi as int);
    assert(d =~= (if s.len() > 0 && s[0] == '+' {
        s.drop_first()
    } else {
        s
    }));
    if start == hi {
        return None;
    }
    let mut acc: u32 = 0;
    let mut i = start;
    while i < hi
        invariant
            lo <= start <= i <= hi <= v@.len(),
            start < hi,
            s == v@.subrange(lo as int, hi as int),
            d == v@.subrange(start as int, hi as int),
            d == (if s.len() > 0 && s[0] == '+' {
                s.drop_first()
            } else {
                s
            }),
            forall|j: int| start <= j < i ==> is_digit(#[trigger] v@[j]),
            acc == decimal(d.take(i - start)),
            acc <= 65535,
        decreases hi - i,
    {
        let c = v[i];
        if !('0' <= c && c <= '9') {
            assert(!is_digit(d[i - start]));
            assert(!all_digits(d));
            return None;
        }
        let ghost prev = d.take(i - start);
        assert(d.take(i - start + 1).drop_last() =~= prev);
        let dv = (c as u32) - ('0' as u32);
        acc = acc * 10 + dv;
        i = i + 1;
        if acc > 65535 {
            proof {
                if all_digits(d) {
                    lemma_decimal_prefix(d, i - start);
                }
            }
            return None;
        }
    }
    assert(d.take(i - start) =~= d);
    assert forall|j: int| 0 <= j < d.len() implies is_digit(#[trigger] d[j]) by {
        assert(d[j] == v@[start + j]);
    }
    assert(all_digits(d));
    Some(acc as u16)
}

/// `String::push`: appends `c` to the end of `s`.
#[verifier::external_body]
pub(crate) fn push_char(s: &mut String, c: char)
    ensures
        final(s)@ == old(s)@.push(c),
{
    s.push(c);
}

/// The decimal digit `d` (`0 <= d < 10`) as a character.
pub open spec fn digit_char(d: nat) -> char {
    (('0' as int) + d) as char
}

/// The decimal text of `n`, as `Display` prints an unsigned integer.
pub open spec fn decimal_text(n: nat) -> Seq<char>
    decreases n,
{
    if n < 10 {
        seq![digit_char(n)]
    } else {
        decimal_text(n / 10) + seq![digit_char(n % 10)]
    }
}

/// Appends the decimal text of `n` to `out`.
pub fn push_decimal(out: &mut String, n: u32)
    ensures
        final(out)@ == old(out)@ + decimal_text(n as nat),
    decreases n,
{
    if n >= 10 {
        push_decimal(out, n / 10);
    }
    let d = (n % 10) as u8;
    push_char(out, (d + 48) as char);
    assert(((d + 48) as char) == digit_char((n % 10) as nat));
    assert(decimal_text(n as nat) == (if n < 10 {
        seq![digit_char(n as nat)]
    } else {
        decimal_text((n / 10) as nat) + seq![digit_char((n % 10) as nat)]
    }));
    if n < 10 {
        assert(old(out)@.push(digit_char((n % 10) as nat)) =~= old(out)@ + decimal_text(n as nat));
    } else {
        assert(old(out)@ + decimal_text((n / 10) as nat) + seq![digit_char((n % 10) as nat)]
            =~= old(out)@ + decimal_text(n as nat));
    }
}

/// The decimal text of `n` is a non-empty string of digits whose value is `n`.
pub proof fn lemma_decimal_text(n: nat)
    ensures
        decimal_text(n).len() > 0,
        all_digits(decimal_text(n)),
        decimal(decimal_text(n)) == n,
    decreases n,
{
    let s = decimal_text(n);
    let d = n % 10;
    assert(digit_char(d) as int == '0' as int + d);
    if n < 10 {
        assert(s.drop_last() =~= Seq::<char>::empty());
        assert(decimal(s) == decimal(s.drop_last()) * 10 + (s.last() as int - '0' as int));
    } else {
        lemma_decimal_text(n / 10);
        let t = decimal_text(n / 10);
        assert(s.drop_last() =~= t);
        assert forall|i: int| 0 <= i < s.len() implies is_digit(#[trigger] s[i]) by {
            if i < t.len() {
                assert(s[i] == t[i]);
            }
        }
        assert(decimal(s) == decimal(t) * 10 + (s.last() as int - '0' as int));
    }
}

/// A new `String` holding `v[lo..hi]`.
pub fn string_of(v: &Vec<char>, lo: usize, hi: usize) -> (r: String)
    requires
        lo <= hi <= v@.len(),
    ensures
        r@ == v@.subrange(lo as int, hi as int),
{
    let mut r = String::new();
    let mut i = lo;
    while i < hi
        invariant
            lo <= i <= hi <= v@.len(),
            r@ == v@.subrange(lo as int, i as int),
        decreases hi - i,
    {
        push_char(&mut r, v[i]);
        assert(v@.subrange(lo as int, i + 1) =~= v@.subrange(lo as int, i as int).push(v@[i as int]));
        i = i + 1;
    }
    r
}

/// The characters of a string, in order.
pub fn chars_of(s: &str) -> (r: Vec<char>)
    ensures
        r@ == s@,
        r@.subrange(0, r@.len() as int) == s@,
{
    let mut r: Vec<char> = Vec::new();
    for c in it: s.chars()
        invariant
            r@ == it.seq().take(it.index()),
    {
        r.push(c);
    }
    assert(r@.subrange(0, r@.len() as int) =~= r@);
    r
}

} // verus!
