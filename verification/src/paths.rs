//! File names and extensions, read off a path string.
//!
//! The file name is everything after the last `/`. Its extension is
//! everything after the last dot, provided that dot is neither the first
//! character of the file name nor missing altogether.

use vstd::prelude::*;

verus! {

/// Index of the last occurrence of `c` in `s`, or -1 when there is none.
pub open spec fn last_index(s: Seq<char>, c: char) -> int
    decreases s.len(),
{
    if s.len() == 0 {
        -1
    } else if s.last() == c {
        s.len() - 1
    } else {
        last_index(s.drop_last(), c)
    }
}

/// `j` holds `c` and nothing after it does: then `j` is the last occurrence.
pub proof fn lemma_last_index_exact(s: Seq<char>, c: char, j: int)
    requires
        0 <= j < s.len(),
        s[j] == c,
        forall|k: int| j < k < s.len() ==> s[k] != c,
    ensures
        last_index(s, c) == j,
    decreases s.len(),
{
    if j < s.len() - 1 {
        lemma_last_index_exact(s.drop_last(), c, j);
    }
}

/// Without any occurrence of `c` the last index is -1.
pub proof fn lemma_last_index_none(s: Seq<char>, c: char)
    requires
        forall|k: int| 0 <= k < s.len() ==> s[k] != c,
    ensures
        last_index(s, c) == -1,
    decreases s.len(),
{
    if s.len() > 0 {
        lemma_last_index_none(s.drop_last(), c);
    }
}

/// The file name of a path: everything after the last `/`, or the whole
/// path when it has none.
pub open spec fn file_name_of(p: Seq<char>) -> Seq<char> {
    p.subrange(last_index(p, '/') + 1, p.len() as int)
}

/// True when the file name of `p` has an extension: a dot that is neither
/// its first character nor absent.
pub open spec fn has_extension(p: Seq<char>) -> bool {
    last_index(p, '.') >= last_index(p, '/') + 2
}

/// The extension of `p`: everything after the last dot.
pub open spec fn extension_of(p: Seq<char>) -> Seq<char> {
    p.subrange(last_index(p, '.') + 1, p.len() as int)
}

/// True when the character of `path` at `i` is `c`.
fn char_at_is(path: &str, i: usize, c: char) -> (r: bool)
    requires
        i < path@.len(),
    ensures
        r == (path@[i as int] == c),
{
    path.get_char(i) == c
}

/// The file name of `path`: its last component. The path must not be empty
/// and must not end in a separator.
pub fn basename(path: &str) -> (r: String)
    requires
        path@.len() > 0,
        path@.last() != '/',
    ensures
        r@ == file_name_of(path@),
{
    let n = path.unicode_len();
    let mut i: usize = n;
    while i > 0 && !char_at_is(path, i - 1, '/')
        invariant
            i <= n,
            n == path@.len(),
            forall|k: int| i <= k < n ==> path@[k] != '/',
        decreases i,
    {
        i = i - 1;
    }
    proof {
        if i > 0 {
            lemma_last_index_exact(path@, '/', i - 1);
        } else {
            lemma_last_index_none(path@, '/');
        }
    }
    let name = path.substring_char(i, n);
    name.to_owned()
}

/// True when the extension of `path` contains a space; such a name is not
/// counted as a backup by the version allocator. The path must have an
/// extension.
pub fn bad_extension(path: &str) -> (r: bool)
    requires
        has_extension(path@),
    ensures
        r == extension_of(path@).contains(' '),
{
    let n = path.unicode_len();
    let mut i: usize = n;
    proof {
        lemma_last_index_props(path@, '.');
        lemma_last_index_props(path@, '/');
    }
    while i > 0 && !char_at_is(path, i - 1, '.')
        invariant
            i <= n,
            n == path@.len(),
            forall|k: int| i <= k < n ==> path@[k] != '.',
        decreases i,
    {
        i = i - 1;
    }
    proof {
        if i == 0 {
            lemma_last_index_none(path@, '.');
            assert(false);
        }
        lemma_last_index_exact(path@, '.', i - 1);
    }
    let mut k: usize = i;
    while k < n
        invariant
            i <= k <= n,
            n == path@.len(),
            i - 1 == last_index(path@, '.'),
            forall|j: int| i <= j < k ==> path@[j] != ' ',
        decreases n - k,
    {
        if char_at_is(path, k, ' ') {
            proof {
                let ext = extension_of(path@);
                assert(ext[k - i] == path@[k as int]);
            }
            return true;
        }
        k = k + 1;
    }
    proof {
        let ext = extension_of(path@);
        assert forall|j: int| 0 <= j < ext.len() implies ext[j] != ' ' by {
            assert(ext[j] == path@[j + i]);
        }
        assert(!ext.contains(' '));
    }
    false
}

/// Decides whether the file name of `path` has an extension.
pub fn path_has_extension(path: &str) -> (r: bool)
    ensures
        r == has_extension(path@),
{
    let n = path.unicode_len();
    let mut i: usize = n;
    while i > 0 && !char_at_is(path, i - 1, '.')
        invariant
            i <= n,
            n == path@.len(),
            forall|k: int| i <= k < n ==> path@[k] != '.',
        decreases i,
    {
        i = i - 1;
    }
    let mut j: usize = n;
    while j > 0 && !char_at_is(path, j - 1, '/')
        invariant
            j <= n,
            n == path@.len(),
            forall|k: int| j <= k < n ==> path@[k] != '/',
        decreases j,
    {
        j = j - 1;
    }
    proof {
        if i > 0 {
            lemma_last_index_exact(path@, '.', i - 1);
        } else {
            lemma_last_index_none(path@, '.');
        }
        if j > 0 {
            lemma_last_index_exact(path@, '/', j - 1);
        } else {
            lemma_last_index_none(path@, '/');
        }
    }
    i >= 2 && i - 2 >= j
}

/// The last index is below the length, marks an occurrence when it is not
/// -1, and nothing after it is an occurrence.
pub proof fn lemma_last_index_props(s: Seq<char>, c: char)
    ensures
        -1 <= last_index(s, c) < s.len(),
        last_index(s, c) >= 0 ==> s[last_index(s, c)] == c,
        forall|k: int| last_index(s, c) < k < s.len() ==> s[k] != c,
    decreases s.len(),
{
    if s.len() > 0 && s.last() != c {
        lemma_last_index_props(s.drop_last(), c);
        assert forall|k: int| last_index(s, c) < k < s.len() implies s[k] != c by {
            if k < s.len() - 1 {
                assert(s.drop_last()[k] == s[k]);
            }
        }
        if last_index(s, c) >= 0 {
            assert(s.drop_last()[last_index(s, c)] == s[last_index(s, c)]);
        }
    }
}

} // verus!
