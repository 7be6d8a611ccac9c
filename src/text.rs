//! Text helpers shared by the modules: case folding and path components.
use vstd::prelude::*;

verus! {

/// The lowercase form of a string, as `str::to_lowercase` produces it.
pub uninterp spec fn lower_of(s: Seq<char>) -> Seq<char>;

/// Relies on `str::to_lowercase`: its result depends on the characters alone.
#[verifier::external_body]
pub(crate) fn lowercase(s: &str) -> (r: String)
    ensures
        r@ == lower_of(s@),
{
    s.to_lowercase()
}

} // verus!

verus! {

/// Character-wise equality of two string slices.
pub fn str_eq(a: &str, b: &str) -> (r: bool)
    ensures
        r == (a@ == b@),
{
    let n = a.unicode_len();
    if n != b.unicode_len() {
        return false;
    }
    let mut i: usize = 0;
    while i < n
        invariant
            n == a@.len(),
            n == b@.len(),
            i <= n,
            forall|k: int| 0 <= k < i ==> a@[k] == b@[k],
        decreases n - i,
    {
        if a.get_char(i) != b.get_char(i) {
            return false;
        }
        i = i + 1;
    }
    assert(a@ =~= b@);
    true
}

/// The part of `p` after the last `c`; all of `p` when it holds no `c`.
pub open spec fn after_last(p: Seq<char>, c: char) -> Seq<char>
    decreases p.len(),
{
    if p.len() == 0 {
        p
    } else if p.last() == c {
        Seq::empty()
    } else {
        after_last(p.drop_last(), c).push(p.last())
    }
}

/// The position of the last `c` in `p`, if any.
pub open spec fn last_index_of(p: Seq<char>, c: char) -> Option<int>
    decreases p.len(),
{
    if p.len() == 0 {
        None
    } else if p.last() == c {
        Some(p.len() - 1)
    } else {
        last_index_of(p.drop_last(), c)
    }
}

/// The position of the first `c` in `p`, if any.
pub open spec fn first_index_of(p: Seq<char>, c: char) -> Option<int>
    decreases p.len(),
{
    if p.len() == 0 {
        None
    } else if p[0] == c {
        Some(0)
    } else {
        match first_index_of(p.drop_first(), c) {
            Some(i) => Some(i + 1),
            None => None,
        }
    }
}

pub(crate) proof fn lemma_last_index(p: Seq<char>, c: char)
    ensures
        last_index_of(p, c) matches Some(i) ==> 0 <= i < p.len() && p[i] == c
            && after_last(p, c) =~= p.subrange(i + 1, p.len() as int)
            && forall|k: int| i < k < p.len() ==> p[k] != c,
        last_index_of(p, c) is None ==> after_last(p, c) == p && forall|k: int| 0 <= k < p.len() ==> p[k] != c,
    decreases p.len(),
{
    if p.len() > 0 && p.last() != c {
        lemma_last_index(p.drop_last(), c);
        assert(p.drop_last().push(p.last()) =~= p);
        if last_index_of(p, c) is None {
            assert forall|k: int| 0 <= k < p.len() implies p[k] != c by {
                if k < p.len() - 1 {
                    assert(p[k] == p.drop_last()[k]);
                }
            }
        }
    }
}

pub(crate) proof fn lemma_first_index(p: Seq<char>, c: char)
    ensures
        first_index_of(p, c) matches Some(i) ==> 0 <= i < p.len() && p[i] == c
            && forall|k: int| 0 <= k < i ==> p[k] != c,
        first_index_of(p, c) is None ==> forall|k: int| 0 <= k < p.len() ==> p[k] != c,
    decreases p.len(),
{
    if p.len() > 0 && p[0] != c {
        lemma_first_index(p.drop_first(), c);
        assert forall|k: int| 1 <= k < p.len() implies p[k] == p.drop_first()[k - 1] by {}
    }
}

/// Finds the last occurrence of `c` in `s`.
pub fn rfind_char(s: &str, c: char) -> (r: Option<usize>)
    ensures
        r matches Some(i) ==> last_index_of(s@, c) == Some(i as int),
        r is None ==> last_index_of(s@, c) is None,
{
    proof {
        lemma_last_index(s@, c);
    }
    let n = s.unicode_len();
    let mut i: usize = n;
    while i > 0
        invariant
            n == s@.len(),
            i <= n,
            forall|k: int| i <= k < n ==> s@[k] != c,
        decreases i,
    {
        if s.get_char(i - 1) == c {
            proof {
                lemma_last_unique(s@, c, (i - 1) as int);
            }
            return Some(i - 1);
        }
        i = i - 1;
    }
    proof {
        lemma_none_last(s@, c);
    }
    None
}

proof fn lemma_last_unique(p: Seq<char>, c: char, i: int)
    requires
        0 <= i < p.len(),
        p[i] == c,
        forall|k: int| i < k < p.len() ==> p[k] != c,
    ensures
        last_index_of(p, c) == Some(i),
    decreases p.len(),
{
    if p.last() != c {
        assert forall|k: int| i < k < p.drop_last().len() implies p.drop_last()[k] != c by {
            assert(p.drop_last()[k] == p[k]);
        }
        lemma_last_unique(p.drop_last(), c, i);
    }
}

proof fn lemma_none_last(p: Seq<char>, c: char)
    requires
        forall|k: int| 0 <= k < p.len() ==> p[k] != c,
    ensures
        last_index_of(p, c) is None,
    decreases p.len(),
{
    if p.len() > 0 {
        assert forall|k: int| 0 <= k < p.drop_last().len() implies p.drop_last()[k] != c by {
            assert(p.drop_last()[k] == p[k]);
        }
        lemma_none_last(p.drop_last(), c);
    }
}

/// Finds the first occurrence of `c` in `s`.
pub fn find_char(s: &str, c: char) -> (r: Option<usize>)
    ensures
        r matches Some(i) ==> first_index_of(s@, c) == Some(i as int),
        r is None ==> first_index_of(s@, c) is None,
{
    proof {
        lemma_first_index(s@, c);
    }
    let n = s.unicode_len();
    let mut i: usize = 0;
    while i < n
        invariant
            n == s@.len(),
            i <= n,
            forall|k: int| 0 <= k < i ==> s@[k] != c,
        decreases n - i,
    {
        if s.get_char(i) == c {
            proof {
                lemma_first_unique(s@, c, i as int);
            }
            return Some(i);
        }
        i = i + 1;
    }
    proof {
        lemma_none_first(s@, c);
    }
    None
}

proof fn lemma_first_unique(p: Seq<char>, c: char, i: int)
    requires
        0 <= i < p.len(),
        p[i] == c,
        forall|k: int| 0 <= k < i ==> p[k] != c,
    ensures
        first_index_of(p, c) == Some(i),
    decreases p.len(),
{
    if p[0] != c {
        assert forall|k: int| 0 <= k < i - 1 implies p.drop_first()[k] != c by {
            assert(p.drop_first()[k] == p[k + 1]);
        }
        lemma_first_unique(p.drop_first(), c, i - 1);
    }
}

proof fn lemma_none_first(p: Seq<char>, c: char)
    requires
        forall|k: int| 0 <= k < p.len() ==> p[k] != c,
    ensures
        first_index_of(p, c) is None,
    decreases p.len(),
{
    if p.len() > 0 {
        assert forall|k: int| 0 <= k < p.drop_first().len() implies p.drop_first()[k] != c by {
            assert(p.drop_first()[k] == p[k + 1]);
        }
        lemma_none_first(p.drop_first(), c);
    }
}

/// The characters of `s` from `from` up to `to`, as an owned string.
pub fn substring(s: &str, from: usize, to: usize) -> (r: String)
    requires
        from <= to <= s@.len(),
    ensures
        r@ == s@.subrange(from as int, to as int),
{
    s.substring_char(from, to).to_owned()
}

/// The last component of a `/`-separated path.
pub fn file_name_of(p: &str) -> (r: String)
    ensures
        r@ == after_last(p@, '/'),
{
    proof {
        lemma_last_index(p@, '/');
    }
    let n = p.unicode_len();
    match rfind_char(p, '/') {
        Some(i) => substring(p, i + 1, n),
        None => p.to_owned(),
    }
}

} // verus!

verus! {

/// `t` occurs in `s` at position `i`.
pub open spec fn occurs_at(s: Seq<char>, t: Seq<char>, i: int) -> bool {
    0 <= i && i + t.len() <= s.len() && s.subrange(i, i + t.len()) == t
}

/// `t` occurs somewhere in `s`.
pub open spec fn has_sub(s: Seq<char>, t: Seq<char>) -> bool {
    exists|i: int| occurs_at(s, t, i)
}

/// Whether `t` occurs in `s`.
pub fn str_contains(s: &str, t: &str) -> (r: bool)
    ensures
        r == has_sub(s@, t@),
{
    let n = s.unicode_len();
    let m = t.unicode_len();
    if m > n {
        return false;
    }
    let mut i: usize = 0;
    while i <= n - m
        invariant
            n == s@.len(),
            m == t@.len(),
            m <= n,
            i <= n - m + 1,
            forall|k: int| 0 <= k < i ==> !occurs_at(s@, t@, k),
        decreases n - m + 1 - i,
    {
        let mut j: usize = 0;
        let mut same = true;
        while j < m
            invariant
                n == s@.len(),
                m == t@.len(),
                i + m <= n,
                j <= m,
                same == forall|k: int| 0 <= k < j ==> s@[i + k] == t@[k],
            decreases m - j,
        {
            if s.get_char(i + j) != t.get_char(j) {
                same = false;
            }
            j = j + 1;
        }
        if same {
            assert(s@.subrange(i as int, i + m) =~= t@);
            assert(occurs_at(s@, t@, i as int));
            return true;
        }
        assert(!occurs_at(s@, t@, i as int)) by {
            if s@.subrange(i as int, i + m) == t@ {
                assert forall|k: int| 0 <= k < m implies s@[i + k] == t@[k] by {
                    assert(s@.subrange(i as int, i + m)[k] == s@[i + k]);
                }
            }
        }
        i = i + 1;
    }
    assert forall|k: int| !occurs_at(s@, t@, k) by {
        if 0 <= k < i {
        }
    }
    false
}

} // verus!
