//! The backup-name grammar.
//!
//! A name is a backup name when it ends in the marker `.bak` followed by
//! any number of dots and then any number of decimal digits (so `x.bak`,
//! `x.bak.7`, and degenerate shapes such as `x.bak..12` all qualify, while
//! `x.bak.txt` does not). The suffix is found from the right: the maximal
//! trailing digit run, then the maximal dot run before it, must be preceded
//! by the marker. Removing marker, dots and digits gives the original name
//! back.

use vstd::prelude::*;

use crate::digits::is_ascii_digit;

verus! {

/// Length of the maximal run of decimal digits at the end of `s`.
pub open spec fn trailing_digits(s: Seq<char>) -> nat
    decreases s.len(),
{
    if s.len() > 0 && is_ascii_digit(s.last()) {
        1 + trailing_digits(s.drop_last())
    } else {
        0
    }
}

/// Length of the maximal run of dots at the end of `s`.
pub open spec fn trailing_dots(s: Seq<char>) -> nat
    decreases s.len(),
{
    if s.len() > 0 && s.last() == '.' {
        1 + trailing_dots(s.drop_last())
    } else {
        0
    }
}

/// Index where the trailing digit run of `s` begins.
pub open spec fn digits_start(s: Seq<char>) -> int {
    s.len() - trailing_digits(s)
}

/// Index just past where the marker would have to end: the trailing digit
/// run and then the trailing dot run before it are stripped.
pub open spec fn marker_end(s: Seq<char>) -> int {
    digits_start(s) - trailing_dots(s.subrange(0, digits_start(s)))
}

/// The literal backup marker, `.bak`.
pub open spec fn bak_marker() -> Seq<char> {
    seq!['.', 'b', 'a', 'k']
}

/// True when `s` is a backup name: the four characters before the trailing
/// dot-and-digit runs are exactly `.bak`.
pub open spec fn is_backup_name(s: Seq<char>) -> bool {
    marker_end(s) >= 4 && s.subrange(marker_end(s) - 4, marker_end(s)) == bak_marker()
}

/// The name a backup name was formed from: everything before its `.bak`
/// suffix. A name that is not a backup name is left unchanged.
pub open spec fn original_of(s: Seq<char>) -> Seq<char> {
    if is_backup_name(s) {
        s.subrange(0, marker_end(s) - 4)
    } else {
        s
    }
}

/// The trailing digit run consists of digits and cannot be extended left.
pub proof fn lemma_trailing_digits_props(s: Seq<char>)
    ensures
        trailing_digits(s) <= s.len(),
        forall|k: int| s.len() - trailing_digits(s) <= k < s.len() ==> is_ascii_digit(s[k]),
        trailing_digits(s) < s.len() ==> !is_ascii_digit(s[s.len() - trailing_digits(s) - 1]),
    decreases s.len(),
{
    if s.len() > 0 && is_ascii_digit(s.last()) {
        lemma_trailing_digits_props(s.drop_last());
        assert forall|k: int| s.len() - trailing_digits(s) <= k < s.len() implies is_ascii_digit(
            s[k],
        ) by {
            if k < s.len() - 1 {
                assert(s.drop_last()[k] == s[k]);
            }
        }
    }
}

/// A position `j` with digits from `j` to the end and a non-digit just
/// before it pins the trailing digit run down exactly.
pub proof fn lemma_trailing_digits_exact(s: Seq<char>, j: int)
    requires
        0 <= j <= s.len(),
        forall|k: int| j <= k < s.len() ==> is_ascii_digit(s[k]),
        j > 0 ==> !is_ascii_digit(s[j - 1]),
    ensures
        trailing_digits(s) == s.len() - j,
    decreases s.len(),
{
    if j < s.len() {
        lemma_trailing_digits_exact(s.drop_last(), j);
    }
}

/// The trailing dot run consists of dots and cannot be extended left.
pub proof fn lemma_trailing_dots_props(s: Seq<char>)
    ensures
        trailing_dots(s) <= s.len(),
        forall|k: int| s.len() - trailing_dots(s) <= k < s.len() ==> s[k] == '.',
        trailing_dots(s) < s.len() ==> s[s.len() - trailing_dots(s) - 1] != '.',
    decreases s.len(),
{
    if s.len() > 0 && s.last() == '.' {
        lemma_trailing_dots_props(s.drop_last());
        assert forall|k: int| s.len() - trailing_dots(s) <= k < s.len() implies s[k] == '.' by {
            if k < s.len() - 1 {
                assert(s.drop_last()[k] == s[k]);
            }
        }
    }
}

/// A position `j` with dots from `j` to the end and no dot just before it
/// pins the trailing dot run down exactly.
pub proof fn lemma_trailing_dots_exact(s: Seq<char>, j: int)
    requires
        0 <= j <= s.len(),
        forall|k: int| j <= k < s.len() ==> s[k] == '.',
        j > 0 ==> s[j - 1] != '.',
    ensures
        trailing_dots(s) == s.len() - j,
    decreases s.len(),
{
    if j < s.len() {
        lemma_trailing_dots_exact(s.drop_last(), j);
    }
}

/// The backup pattern, spelled out: a marker `.bak` ending at `m`, dots
/// from `m` to `d`, digits from `d` to the end.
pub open spec fn backup_pattern_at(s: Seq<char>, m: int, d: int) -> bool {
    &&& 4 <= m <= d <= s.len()
    &&& s.subrange(m - 4, m) == bak_marker()
    &&& (forall|k: int| m <= k < d ==> s[k] == '.')
    &&& (forall|k: int| d <= k < s.len() ==> is_ascii_digit(s[k]))
}

/// True when some split of a suffix of `s` into marker, dots and digits
/// exists.
pub open spec fn matches_backup_pattern(s: Seq<char>) -> bool {
    exists|m: int, d: int| backup_pattern_at(s, m, d)
}

/// A split into marker, dots and digits is unique: its positions are the
/// ones found from the right.
pub proof fn lemma_pattern_split_unique(s: Seq<char>, m: int, d: int)
    requires
        backup_pattern_at(s, m, d),
    ensures
        digits_start(s) == d,
        marker_end(s) == m,
        is_backup_name(s),
{
    assert(s.subrange(m - 4, m)[3] == s[m - 1]);
    assert(bak_marker()[3] == 'k');
    assert(s[m - 1] == 'k');
    if m < d {
        assert(s[d - 1] == '.');
    }
    lemma_trailing_digits_exact(s, d);
    let p = s.subrange(0, d);
    assert forall|k: int| m <= k < p.len() implies p[k] == '.' by {
        assert(p[k] == s[k]);
    }
    assert(p[m - 1] == s[m - 1]);
    lemma_trailing_dots_exact(p, m);
    assert(s.subrange(marker_end(s) - 4, marker_end(s)) == bak_marker());
}

/// A name is a backup name exactly when the pattern matches somewhere.
pub proof fn lemma_backup_name_iff_pattern(s: Seq<char>)
    ensures
        is_backup_name(s) <==> matches_backup_pattern(s),
{
    if is_backup_name(s) {
        let d = digits_start(s);
        let m = marker_end(s);
        lemma_trailing_digits_props(s);
        lemma_trailing_dots_props(s.subrange(0, d));
        assert(0 <= d <= s.len());
        assert forall|k: int| m <= k < d implies s[k] == '.' by {
            assert(s.subrange(0, d)[k] == s[k]);
        }
        assert(backup_pattern_at(s, m, d));
    }
    if matches_backup_pattern(s) {
        let (m, d) = choose|m: int, d: int| backup_pattern_at(s, m, d);
        lemma_pattern_split_unique(s, m, d);
    }
}

/// Finds the split of `path` from the right: returns `(m, d)` where the
/// digits of the trailing digit run start at `d` and the dot run before
/// them starts at `m`.
pub(crate) fn split_points(path: &str) -> (r: (usize, usize))
    ensures
        r.0 as int == marker_end(path@),
        r.1 as int == digits_start(path@),
        r.0 <= r.1 <= path@.len(),
{
    let n = path.unicode_len();
    let mut d: usize = n;
    while d > 0 && ascii_digit_at(path, d - 1)
        invariant
            d <= n,
            n == path@.len(),
            forall|k: int| d <= k < n ==> is_ascii_digit(path@[k]),
        decreases d,
    {
        d = d - 1;
    }
    proof {
        lemma_trailing_digits_exact(path@, d as int);
    }
    let mut m: usize = d;
    while m > 0 && dot_at(path, m - 1)
        invariant
            m <= d <= n,
            n == path@.len(),
            forall|k: int| m <= k < d ==> path@[k] == '.',
        decreases m,
    {
        m = m - 1;
    }
    proof {
        let p = path@.subrange(0, d as int);
        assert forall|k: int| m <= k < p.len() implies p[k] == '.' by {
            assert(p[k] == path@[k]);
        }
        if m > 0 {
            assert(p[m - 1] == path@[m - 1]);
        }
        lemma_trailing_dots_exact(p, m as int);
    }
    (m, d)
}

/// True when the character of `path` at `i` is an ASCII digit.
fn ascii_digit_at(path: &str, i: usize) -> (r: bool)
    requires
        i < path@.len(),
    ensures
        r == is_ascii_digit(path@[i as int]),
{
    crate::digits::ascii_digit(path.get_char(i))
}

/// True when the character of `path` at `i` is a dot.
fn dot_at(path: &str, i: usize) -> (r: bool)
    requires
        i < path@.len(),
    ensures
        r == (path@[i as int] == '.'),
{
    path.get_char(i) == '.'
}

/// True when the four characters of `path` ending at `m` are `.bak`.
pub(crate) fn marker_at(path: &str, m: usize) -> (r: bool)
    requires
        4 <= m <= path@.len(),
    ensures
        r == (path@.subrange(m - 4, m as int) == bak_marker()),
{
    let r = path.get_char(m - 4) == '.' && path.get_char(m - 3) == 'b' && path.get_char(m - 2)
        == 'a' && path.get_char(m - 1) == 'k';
    proof {
        let sub = path@.subrange(m - 4, m as int);
        assert(sub[0] == path@[m - 4]);
        assert(sub[1] == path@[m - 3]);
        assert(sub[2] == path@[m - 2]);
        assert(sub[3] == path@[m - 1]);
        if r {
            assert(sub =~= bak_marker());
        }
    }
    r
}

/// Decides whether `path` is a backup name: it ends in `.bak` followed by
/// any number of dots and then any number of decimal digits.
pub fn is_backup(path: &str) -> (r: bool)
    ensures
        r == is_backup_name(path@),
{
    let (m, _d) = split_points(path);
    m >= 4 && marker_at(path, m)
}

/// Recovers the name a backup was taken from by removing the `.bak`
/// suffix, dots and digits included. A path that is not a backup name is
/// returned unchanged.
pub fn original_name(path: &str) -> (r: String)
    ensures
        r@ == original_of(path@),
{
    let (m, _d) = split_points(path);
    if m >= 4 && marker_at(path, m) {
        let stem = path.substring_char(0, m - 4);
        stem.to_owned()
    } else {
        path.to_owned()
    }
}

} // verus!
