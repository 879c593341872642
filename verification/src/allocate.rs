//! The version allocator: given a source name, the directory entries that
//! look like numbered backups of it, and whether the plain `.bak` backup
//! exists, it chooses the name of the next backup.
//!
//! Each well-formed entry contributes its version number plus one; the
//! next version is the largest contribution. A name whose extension holds
//! a space, or whose suffix is not `.bak` or `.bak.<digits>`, or whose
//! number would not fit in a `u64`, contributes nothing. When nothing
//! contributes, the first backup `source.bak` is chosen, or `source.bak.1`
//! when that plain name is already taken.

use vstd::prelude::*;

use crate::digits::{
    decimal_of, decimal_string, digits_value, is_ascii_digit, lemma_decimal_all_digits,
    lemma_decimal_value, parse_decimal,
};
use crate::paths::{
    bad_extension, extension_of, has_extension, last_index, lemma_last_index_exact,
    lemma_last_index_props, path_has_extension,
};
use crate::pattern::{
    bak_marker, digits_start, is_backup_name, lemma_trailing_digits_exact,
    lemma_trailing_digits_props, lemma_trailing_dots_exact, marker_at, marker_end, original_of,
    split_points,
};

verus! {

/// The first backup name of `s`: the marker alone.
pub open spec fn plain_backup_name(s: Seq<char>) -> Seq<char> {
    s + bak_marker()
}

/// The backup name of `s` with version `i`.
pub open spec fn numbered_backup_name(s: Seq<char>, i: nat) -> Seq<char> {
    s + bak_marker() + seq!['.'] + decimal_of(i)
}

/// What one directory entry contributes to version allocation: one more
/// than its version number when it is a well-formed backup name, nothing
/// otherwise. Well-formed means: an extension without a space, and a
/// suffix that is exactly `.bak` (version zero) or `.bak.<digits>` with a
/// value below `u64::MAX`.
pub open spec fn counted_index(c: Seq<char>) -> Option<nat> {
    if !has_extension(c) || extension_of(c).contains(' ') || !is_backup_name(c) {
        Option::None
    } else {
        let m = marker_end(c);
        let d = digits_start(c);
        if m == d && d == c.len() {
            Option::Some(1 as nat)
        } else if d == m + 1 && d < c.len() {
            let v = digits_value(c.subrange(d, c.len() as int));
            if v + 1 <= u64::MAX as nat {
                Option::Some((v + 1) as nat)
            } else {
                Option::None
            }
        } else {
            Option::None
        }
    }
}

/// The largest contribution among the entries, if any contributes.
pub open spec fn max_counted(cs: Seq<Seq<char>>) -> Option<nat>
    decreases cs.len(),
{
    if cs.len() == 0 {
        Option::None
    } else {
        let rest = max_counted(cs.drop_last());
        match counted_index(cs.last()) {
            Option::None => rest,
            Option::Some(i) => match rest {
                Option::None => Option::Some(i),
                Option::Some(j) => Option::Some(if i >= j {
                    i
                } else {
                    j
                }),
            },
        }
    }
}

/// The name the allocator chooses for the next backup of `s`, given the
/// candidate entries `cs` and whether the plain `s.bak` already exists.
pub open spec fn next_name_spec(s: Seq<char>, cs: Seq<Seq<char>>, bak_exists: bool) -> Seq<char> {
    match max_counted(cs) {
        Option::None => if bak_exists {
            numbered_backup_name(s, 1)
        } else {
            plain_backup_name(s)
        },
        Option::Some(i) => numbered_backup_name(s, i),
    }
}

/// The views of a list of owned candidate names.
pub open spec fn views_of(cands: Seq<String>) -> Seq<Seq<char>> {
    cands.map_values(|c: String| c@)
}

/// What one candidate contributes, executably.
fn candidate_index(c: &str) -> (r: Option<u64>)
    ensures
        match r {
            Some(v) => counted_index(c@) == Option::Some(v as nat),
            None => counted_index(c@) is None,
        },
{
    if !path_has_extension(c) {
        return None;
    }
    if bad_extension(c) {
        return None;
    }
    let (m, d) = split_points(c);
    if !(m >= 4 && marker_at(c, m)) {
        return None;
    }
    let n = c.unicode_len();
    if m == d && d == n {
        Some(1)
    } else if d == m + 1 && d < n {
        proof {
            lemma_trailing_digits_props(c@);
        }
        match parse_decimal(c, d, n) {
            Some(v) => Some(v + 1),
            None => None,
        }
    } else {
        None
    }
}

/// Chooses the next backup name for `source`. `candidates` are the
/// directory entries that may be numbered backups of it, and
/// `plain_bak_exists` says whether `source.bak` itself already exists.
pub fn next_backup_name(source: &str, candidates: &Vec<String>, plain_bak_exists: bool) -> (r:
    String)
    ensures
        r@ == next_name_spec(source@, views_of(candidates@), plain_bak_exists),
{
    let ghost cs = views_of(candidates@);
    let mut best: Option<u64> = None;
    let mut i: usize = 0;
    proof {
        assert(cs.take(0) =~= Seq::<Seq<char>>::empty());
    }
    while i < candidates.len()
        invariant
            i <= candidates.len(),
            cs == views_of(candidates@),
            cs.len() == candidates@.len(),
            match best {
                Some(b) => max_counted(cs.take(i as int)) == Option::Some(b as nat),
                None => max_counted(cs.take(i as int)) is None,
            },
        decreases candidates.len() - i,
    {
        let ci = candidate_index(candidates[i].as_str());
        proof {
            assert(cs.take(i + 1).drop_last() =~= cs.take(i as int));
            assert(cs.take(i + 1).last() == cs[i as int]);
            assert(cs[i as int] == candidates@[i as int]@);
        }
        best = match (best, ci) {
            (None, x) => x,
            (Some(b), None) => Some(b),
            (Some(b), Some(v)) => Some(
                if v >= b {
                    v
                } else {
                    b
                },
            ),
        };
        i = i + 1;
    }
    proof {
        assert(cs.take(candidates@.len() as int) =~= cs);
    }
    match best {
        None => {
            if plain_bak_exists {
                numbered_name(source, 1)
            } else {
                plain_name(source)
            }
        },
        Some(b) => numbered_name(source, b),
    }
}

/// Builds `source.bak`.
fn plain_name(source: &str) -> (r: String)
    ensures
        r@ == plain_backup_name(source@),
{
    proof {
        reveal_strlit(".bak");
        assert(".bak"@ =~= bak_marker());
    }
    let r = source.to_owned().concat(".bak");
    proof {
        assert(r@ =~= plain_backup_name(source@));
    }
    r
}

/// Builds `source.bak.<v>`.
fn numbered_name(source: &str, v: u64) -> (r: String)
    ensures
        r@ == numbered_backup_name(source@, v as nat),
{
    proof {
        reveal_strlit(".bak.");
        assert(".bak."@ =~= bak_marker() + seq!['.']);
    }
    let digits = decimal_string(v);
    let r = source.to_owned().concat(".bak.").concat(digits.as_str());
    proof {
        assert(r@ =~= numbered_backup_name(source@, v as nat));
    }
    r
}

/// `s.bak` splits with its marker at the very end: no trailing dots or
/// digits beyond it.
proof fn lemma_split_of_plain(s: Seq<char>)
    ensures
        digits_start(plain_backup_name(s)) == plain_backup_name(s).len(),
        marker_end(plain_backup_name(s)) == plain_backup_name(s).len(),
        is_backup_name(plain_backup_name(s)),
        original_of(plain_backup_name(s)) == s,
{
    let t = plain_backup_name(s);
    assert(t.len() == s.len() as int + 4);
    assert(t.last() == bak_marker()[3]);
    assert(t.last() == 'k');
    lemma_trailing_digits_exact(t, t.len() as int);
    let p = t.subrange(0, t.len() as int);
    assert(p =~= t);
    lemma_trailing_dots_exact(p, t.len() as int);
    assert(t.subrange(t.len() - 4, t.len() as int) =~= bak_marker());
    assert(t.subrange(0, t.len() - 4) =~= s);
}

/// `s.bak.<i>` splits into its marker, the one separating dot, and the
/// digits of `i`.
proof fn lemma_split_of_numbered(s: Seq<char>, i: nat)
    ensures
        digits_start(numbered_backup_name(s, i)) == s.len() as int + 5,
        marker_end(numbered_backup_name(s, i)) == s.len() as int + 4,
        is_backup_name(numbered_backup_name(s, i)),
        original_of(numbered_backup_name(s, i)) == s,
        numbered_backup_name(s, i).subrange(s.len() as int + 5, numbered_backup_name(s, i).len() as int)
            =~= decimal_of(i),
{
    let t = numbered_backup_name(s, i);
    let dec = decimal_of(i);
    lemma_decimal_all_digits(i);
    assert(t.len() == s.len() as int + 5 + dec.len());
    assert forall|k: int| s.len() as int + 5 <= k < t.len() implies is_ascii_digit(t[k]) by {
        assert(t[k] == dec[k - (s.len() as int + 5)]);
    }
    assert(t[s.len() as int + 4] == '.');
    assert(!is_ascii_digit('.'));
    lemma_trailing_digits_exact(t, s.len() as int + 5);
    let p = t.subrange(0, s.len() as int + 5);
    assert(p[s.len() as int + 4] == t[s.len() as int + 4]);
    assert(p[s.len() as int + 3] == t[s.len() as int + 3]);
    assert(t[s.len() as int + 3] == bak_marker()[3]);
    assert(t[s.len() as int + 3] == 'k');
    lemma_trailing_dots_exact(p, s.len() as int + 4);
    assert(t.subrange(s.len() as int, s.len() as int + 4) =~= bak_marker());
    assert(t.subrange(0, s.len() as int) =~= s);
    assert(t.subrange(s.len() as int + 5, t.len() as int) =~= dec);
}

/// A numbered backup name of `s` contributes its version plus one.
proof fn lemma_counted_of_numbered(s: Seq<char>, i: nat)
    requires
        i + 1 <= u64::MAX as nat,
    ensures
        counted_index(numbered_backup_name(s, i)) == Option::Some((i + 1) as nat),
{
    let t = numbered_backup_name(s, i);
    let dec = decimal_of(i);
    lemma_decimal_all_digits(i);
    lemma_split_of_numbered(s, i);
    // The last dot of the whole name is the separator before the digits.
    assert forall|k: int| s.len() as int + 4 < k < t.len() implies t[k] != '.' by {
        assert(t[k] == dec[k - (s.len() as int + 5)]);
        assert(is_ascii_digit(t[k]));
    }
    assert(t[s.len() as int + 4] == '.');
    lemma_last_index_exact(t, '.', s.len() as int + 4);
    // No separator occurs at or after the marker, so the last `/` lies in `s`.
    lemma_last_index_props(t, '/');
    let ls = last_index(t, '/');
    if ls >= s.len() {
        assert(t[ls] == '/');
        if ls >= s.len() as int + 5 {
            assert(t[ls] == dec[ls - (s.len() as int + 5)]);
            assert(is_ascii_digit(t[ls]));
        } else if ls == s.len() as int + 4 {
            assert(t[ls] == '.');
        } else {
            assert(t[ls] == bak_marker()[ls - s.len()]);
        }
        assert(false);
    }
    assert(has_extension(t));
    // The extension is the digit run, which holds no space.
    let ext = extension_of(t);
    assert(ext =~= dec);
    assert forall|k: int| 0 <= k < ext.len() implies ext[k] != ' ' by {
        assert(is_ascii_digit(ext[k]));
    }
    assert(!ext.contains(' '));
    lemma_decimal_value(i);
}

/// Any entry that contributes bounds the maximum from below.
proof fn lemma_max_counted_ge(cs: Seq<Seq<char>>, j: int)
    requires
        0 <= j < cs.len(),
        counted_index(cs[j]) is Some,
    ensures
        max_counted(cs) is Some,
        max_counted(cs)->0 >= counted_index(cs[j])->0,
    decreases cs.len(),
{
    if j < cs.len() - 1 {
        assert(cs.drop_last()[j] == cs[j]);
        lemma_max_counted_ge(cs.drop_last(), j);
    }
}

/// A bound on every contribution bounds the maximum.
proof fn lemma_max_counted_le(cs: Seq<Seq<char>>, b: nat)
    requires
        forall|j: int|
            0 <= j < cs.len() && counted_index(cs[j]) is Some ==> counted_index(cs[j])->0 <= b,
    ensures
        max_counted(cs) is Some ==> max_counted(cs)->0 <= b,
    decreases cs.len(),
{
    if cs.len() > 0 {
        assert forall|j: int|
            0 <= j < cs.drop_last().len() && counted_index(cs.drop_last()[j]) is Some implies
            counted_index(cs.drop_last()[j])->0 <= b by {
            assert(cs.drop_last()[j] == cs[j]);
        }
        lemma_max_counted_le(cs.drop_last(), b);
        assert(cs.last() == cs[cs.len() - 1]);
    }
}

/// With no existing backups the next backup of `s` is `s.bak`.
pub proof fn lemma_first_backup(s: Seq<char>)
    ensures
        next_name_spec(s, Seq::<Seq<char>>::empty(), false) == plain_backup_name(s),
{
}

/// With `s.bak` taken and no numbered backups the next backup is `s.bak.1`.
pub proof fn lemma_second_backup(s: Seq<char>)
    ensures
        next_name_spec(s, Seq::<Seq<char>>::empty(), true) == numbered_backup_name(s, 1),
{
}

/// With existing numbered backups of `s` whose largest version is `k`, the
/// next backup is `s.bak.<k+1>` — whatever the order of the entries,
/// whatever versions below `k` are present or missing, and whether or not
/// `s.bak` itself exists.
pub proof fn lemma_numbered_allocation(s: Seq<char>, idxs: Seq<nat>, k: nat, bak_exists: bool)
    requires
        idxs.len() > 0,
        forall|j: int| 0 <= j < idxs.len() ==> 1 <= #[trigger] idxs[j] <= k,
        exists|j: int| 0 <= j < idxs.len() && idxs[j] == k,
        k + 1 <= u64::MAX as nat,
    ensures
        next_name_spec(s, idxs.map_values(|i: nat| numbered_backup_name(s, i)), bak_exists)
            == numbered_backup_name(s, (k + 1) as nat),
{
    let cs = idxs.map_values(|i: nat| numbered_backup_name(s, i));
    assert forall|j: int|
        0 <= j < cs.len() && counted_index(cs[j]) is Some implies counted_index(cs[j])->0 <= (k
        + 1) as nat by {
        lemma_counted_of_numbered(s, idxs[j]);
    }
    lemma_max_counted_le(cs, (k + 1) as nat);
    let j0 = choose|j: int| 0 <= j < idxs.len() && idxs[j] == k;
    lemma_counted_of_numbered(s, idxs[j0]);
    assert(counted_index(cs[j0]) == Option::Some((k + 1) as nat));
    lemma_max_counted_ge(cs, j0);
    assert(max_counted(cs) == Option::Some((k + 1) as nat));
}

/// Round trip: whatever name the allocator chooses for `s`, that name is a
/// backup name, and resolving it gives `s` back.
pub proof fn lemma_round_trip(s: Seq<char>, cs: Seq<Seq<char>>, bak_exists: bool)
    ensures
        is_backup_name(next_name_spec(s, cs, bak_exists)),
        original_of(next_name_spec(s, cs, bak_exists)) == s,
{
    match max_counted(cs) {
        Option::None => {
            if bak_exists {
                lemma_split_of_numbered(s, 1);
            } else {
                lemma_split_of_plain(s);
            }
        },
        Option::Some(i) => {
            lemma_split_of_numbered(s, i);
        },
    }
}

} // verus!
