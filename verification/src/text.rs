//! Character-level string primitives shared by the pattern types: occurrence
//! of one string inside another, leftmost search, and locating the end of the
//! directory part of a path.

use vstd::prelude::*;
use vstd::string::StrSliceExecFns;

verus! {

/// `p` occurs in `s` at offset `i`.
pub open spec fn occurs_at(s: Seq<char>, p: Seq<char>, i: int) -> bool {
    0 <= i && i + p.len() <= s.len() && s.subrange(i, i + p.len()) == p
}

/// Offset of the leftmost occurrence of `p` in `s`, if `p` occurs at all.
/// The empty string occurs at offset 0 of every string.
pub open spec fn find_sub(s: Seq<char>, p: Seq<char>) -> Option<int>
    decreases s.len(),
{
    if p.len() > s.len() {
        None
    } else if s.subrange(0, p.len() as int) == p {
        Some(0)
    } else if s.len() == 0 {
        None
    } else {
        match find_sub(s.drop_first(), p) {
            Some(i) => Some(i + 1),
            None => None,
        }
    }
}

/// `find_sub` returns the offset of the leftmost occurrence, or `None` when
/// there is no occurrence.
pub proof fn lemma_find_sub(s: Seq<char>, p: Seq<char>)
    ensures
        match find_sub(s, p) {
            Some(i) => occurs_at(s, p, i) && (forall|j: int| 0 <= j < i ==> !occurs_at(s, p, j)),
            None => forall|j: int| !occurs_at(s, p, j),
        },
    decreases s.len(),
{
    if p.len() > s.len() {
        assert(forall|j: int| !occurs_at(s, p, j));
    } else if s.subrange(0, p.len() as int) == p {
        assert(occurs_at(s, p, 0));
    } else if s.len() == 0 {
        assert(p.len() == 0);
        assert(s.subrange(0, 0) =~= p);
        assert(false);
    } else {
        lemma_find_sub(s.drop_first(), p);
        assert forall|j: int| 0 <= j && j + p.len() <= s.len() - 1 implies
            (occurs_at(s.drop_first(), p, j) <==> occurs_at(s, p, j + 1)) by {
            assert(s.drop_first().subrange(j, j + p.len()) =~= s.subrange(j + 1, j + 1 + p.len()));
        }
        match find_sub(s.drop_first(), p) {
            Some(i) => {
                assert(occurs_at(s, p, i + 1));
                assert forall|j: int| 0 <= j < i + 1 implies !occurs_at(s, p, j) by {
                    if j == 0 {
                        assert(!occurs_at(s, p, 0));
                    } else {
                        assert(!occurs_at(s.drop_first(), p, j - 1));
                    }
                }
            },
            None => {
                assert forall|j: int| occurs_at(s, p, j) implies false by {
                    if j == 0 {
                        assert(s.subrange(0, p.len() as int) == p);
                    } else {
                        assert(occurs_at(s.drop_first(), p, j - 1));
                    }
                }
            },
        }
    }
}

/// An occurrence with no occurrence to its left is the one `find_sub` finds.
pub proof fn lemma_leftmost(s: Seq<char>, p: Seq<char>, i: int)
    requires
        occurs_at(s, p, i),
        forall|j: int| 0 <= j < i ==> !occurs_at(s, p, j),
    ensures
        find_sub(s, p) == Some(i),
{
    lemma_find_sub(s, p);
    match find_sub(s, p) {
        Some(fi) => {
            if fi < i {
                assert(!occurs_at(s, p, fi));
            }
            if fi > i {
                assert(!occurs_at(s, p, i));
            }
        },
        None => {
            assert(!occurs_at(s, p, i));
        },
    }
}

/// Whether `p` occurs in `s` at offset `at`, by character comparison.
pub fn matches_at(s: &str, p: &str, at: usize) -> (b: bool)
    requires
        at + p@.len() <= s@.len(),
    ensures
        b <==> occurs_at(s@, p@, at as int),
{
    let s_len = s.unicode_len();
    let p_len = p.unicode_len();
    let mut j: usize = 0;
    while j < p_len
        invariant
            0 <= j <= p_len,
            p_len == p@.len(),
            s_len == s@.len(),
            at + p_len <= s_len,
            forall|k: int| 0 <= k < j ==> s@[at + k] == p@[k],
        decreases p_len - j,
    {
        if s.get_char(at + j) != p.get_char(j) {
            assert(!occurs_at(s@, p@, at as int)) by {
                if occurs_at(s@, p@, at as int) {
                    assert(s@.subrange(at as int, at + p@.len())[j as int] == s@[at + j]);
                }
            }
            return false;
        }
        j += 1;
    }
    assert(s@.subrange(at as int, at + p@.len()) =~= p@);
    true
}

/// Offset of the leftmost occurrence of `p` in `s`, by scanning from the left.
pub fn find_first(s: &str, p: &str) -> (r: Option<usize>)
    ensures
        match r {
            Some(i) => find_sub(s@, p@) == Some(i as int),
            None => find_sub(s@, p@) is None,
        },
{
    let s_len = s.unicode_len();
    let p_len = p.unicode_len();
    if p_len > s_len {
        return None;
    }
    proof {
        lemma_find_sub(s@, p@);
    }
    let mut i: usize = 0;
    while i < s_len - p_len
        invariant
            0 <= i <= s_len - p_len,
            p_len <= s_len,
            s_len == s@.len(),
            p_len == p@.len(),
            forall|j: int| 0 <= j < i ==> !occurs_at(s@, p@, j),
        decreases s_len - p_len - i,
    {
        if matches_at(s, p, i) {
            proof {
                lemma_leftmost(s@, p@, i as int);
            }
            return Some(i);
        }
        i += 1;
    }
    if matches_at(s, p, i) {
        proof {
            lemma_leftmost(s@, p@, i as int);
        }
        return Some(i);
    }
    proof {
        lemma_find_sub(s@, p@);
        if find_sub(s@, p@) is Some {
            let fi = find_sub(s@, p@).unwrap();
            assert(occurs_at(s@, p@, fi));
            assert(!occurs_at(s@, p@, fi));
        }
    }
    None
}

/// Index just past the last `/` in `s`, or 0 when `s` holds no `/`.
/// Everything before this index is the directory part of a path.
pub open spec fn dir_cut(s: Seq<char>) -> int
    decreases s.len(),
{
    if s.len() == 0 {
        0
    } else if s[s.len() - 1] == '/' {
        s.len() as int
    } else {
        dir_cut(s.drop_last())
    }
}

/// The cut index stays within the string, and no `/` stands at or after it.
pub proof fn lemma_dir_cut(s: Seq<char>)
    ensures
        0 <= dir_cut(s) <= s.len(),
        forall|i: int| dir_cut(s) <= i < s.len() ==> s[i] != '/',
        dir_cut(s) > 0 ==> s[dir_cut(s) - 1] == '/',
    decreases s.len(),
{
    if s.len() == 0 {
    } else if s[s.len() - 1] == '/' {
    } else {
        lemma_dir_cut(s.drop_last());
        assert forall|i: int| dir_cut(s) <= i < s.len() implies s[i] != '/' by {
            if i < s.len() - 1 {
                assert(s.drop_last()[i] == s[i]);
            }
        }
    }
}

/// Index just past the last `/` of `s`, computed by scanning from the right.
pub fn dir_cut_index(s: &str) -> (i: usize)
    ensures
        i == dir_cut(s@),
        i <= s@.len(),
{
    let s_len = s.unicode_len();
    proof {
        assert(s@.subrange(0, s_len as int) =~= s@);
    }
    let mut i: usize = s_len;
    while i > 0
        invariant
            0 <= i <= s_len,
            s_len == s@.len(),
            dir_cut(s@) == dir_cut(s@.subrange(0, i as int)),
        decreases i,
    {
        if s.get_char(i - 1) == '/' {
            assert(s@.subrange(0, i as int)[i - 1] == s@[i - 1]);
            return i;
        }
        assert(s@.subrange(0, i as int).drop_last() =~= s@.subrange(0, i - 1));
        assert(s@.subrange(0, i as int)[i - 1] == s@[i - 1]);
        i -= 1;
    }
    assert(s@.subrange(0, 0) =~= Seq::<char>::empty());
    0
}

} // verus!
