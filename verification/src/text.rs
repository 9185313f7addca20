//! Character-level text primitives: substring search and trimming,
//! with a functional model of "first occurrence at or after a position".
use vstd::prelude::*;

verus! {

/// Whitespace characters: captions are tokenized on these, and extracted
/// fragments are trimmed of them.
pub open spec fn is_space(c: char) -> bool {
    c == ' ' || c == '\t' || c == '\n' || c == '\r'
}

/// ASCII decimal digit.
pub open spec fn is_digit(c: char) -> bool {
    ('0' as u32) <= (c as u32) && (c as u32) <= ('9' as u32)
}

/// `pat` occurs in `s` starting at position `i`.
pub open spec fn matches_at(s: Seq<char>, i: int, pat: Seq<char>) -> bool {
    &&& 0 <= i
    &&& i + pat.len() <= s.len()
    &&& s.subrange(i, i + pat.len()) == pat
}

/// Position of the first occurrence of `pat` in `s` at or after `i`,
/// or -1 if there is none. An empty pattern never occurs.
pub open spec fn find_from(s: Seq<char>, i: int, pat: Seq<char>) -> int
    decreases s.len() - i,
{
    if pat.len() == 0 || i < 0 || i + pat.len() > s.len() {
        -1
    } else if matches_at(s, i, pat) {
        i
    } else {
        find_from(s, i + 1, pat)
    }
}

/// `find_from` returns exactly the first occurrence at or after `i`.
pub proof fn lemma_find_from(s: Seq<char>, i: int, pat: Seq<char>)
    requires
        pat.len() > 0,
        0 <= i,
    ensures
        find_from(s, i, pat) == -1 ==> forall|k: int| i <= k ==> !matches_at(s, k, pat),
        find_from(s, i, pat) != -1 ==> i <= find_from(s, i, pat) && matches_at(
            s,
            find_from(s, i, pat),
            pat,
        ),
        find_from(s, i, pat) != -1 ==> forall|k: int|
            i <= k < find_from(s, i, pat) ==> !matches_at(s, k, pat),
    decreases s.len() - i,
{
    if i + pat.len() > s.len() {
        assert forall|k: int| i <= k implies !matches_at(s, k, pat) by {
            assert(k + pat.len() > s.len());
        }
    } else if matches_at(s, i, pat) {
    } else {
        lemma_find_from(s, i + 1, pat);
        if find_from(s, i, pat) == -1 {
            assert forall|k: int| i <= k implies !matches_at(s, k, pat) by {
                if k > i {
                    assert(!matches_at(s, k, pat));
                }
            }
        }
    }
}

/// Whether `s[j..]` starts with `pat`.
pub fn match_at(s: &str, j: usize, pat: &str) -> (b: bool)
    ensures
        b == matches_at(s@, j as int, pat@),
{
    let n = s.unicode_len();
    let m = pat.unicode_len();
    if m == 0 || j > n || m > n - j {
        if m == 0 && j <= n {
            proof {
                assert(s@.subrange(j as int, j as int) =~= pat@);
            }
            return true;
        }
        return false;
    }
    let mut t: usize = 0;
    while t < m
        invariant
            t <= m,
            m <= n - j,
            j <= n,
            n == s@.len(),
            m == pat@.len(),
            forall|u: int| 0 <= u < t ==> s@[j + u] == pat@[u],
        decreases m - t,
    {
        if s.get_char(j + t) != pat.get_char(t) {
            proof {
                assert(s@.subrange(j as int, j + pat@.len()) != pat@) by {
                    assert(s@.subrange(j as int, j + pat@.len())[t as int] == s@[j + t]);
                }
            }
            return false;
        }
        t += 1;
    }
    proof {
        assert(s@.subrange(j as int, j + pat@.len()) =~= pat@);
    }
    true
}

/// Find the first occurrence of `pat` in `s` at or after `from`.
pub fn find_in(s: &str, from: usize, pat: &str) -> (r: Option<usize>)
    requires
        pat@.len() > 0,
    ensures
        match r {
            Some(j) => find_from(s@, from as int, pat@) == j as int,
            None => find_from(s@, from as int, pat@) == -1,
        },
{
    proof {
        lemma_find_from(s@, from as int, pat@);
    }
    let n = s.unicode_len();
    let m = pat.unicode_len();
    if m > n || from > n - m {
        proof {
            let r0 = find_from(s@, from as int, pat@);
            if r0 != -1 {
                assert(matches_at(s@, r0, pat@));
            }
        }
        return None;
    }
    let mut j: usize = from;
    while j <= n - m
        invariant
            from <= j,
            m <= n,
            from <= n - m,
            n == s@.len(),
            m == pat@.len(),
            pat@.len() > 0,
            forall|k: int| from <= k < j ==> !matches_at(s@, k, pat@),
        decreases n - j,
    {
        if match_at(s, j, pat) {
            proof {
                lemma_find_from(s@, from as int, pat@);
                let r0 = find_from(s@, from as int, pat@);
                if r0 == -1 {
                    assert(matches_at(s@, j as int, pat@));
                    assert(false);
                }
                if r0 < j {
                    assert(!matches_at(s@, r0, pat@));
                }
                if r0 > j {
                    assert(!matches_at(s@, j as int, pat@));
                }
            }
            return Some(j);
        }
        j += 1;
    }
    proof {
        let r0 = find_from(s@, from as int, pat@);
        if r0 != -1 {
            assert(matches_at(s@, r0, pat@));
            assert(r0 + pat@.len() <= s@.len());
        }
    }
    None
}

/// Leading whitespace removed.
pub open spec fn trim_front(s: Seq<char>) -> Seq<char>
    decreases s.len(),
{
    if s.len() > 0 && is_space(s[0]) {
        trim_front(s.subrange(1, s.len() as int))
    } else {
        s
    }
}

/// Trailing whitespace removed.
pub open spec fn trim_back(s: Seq<char>) -> Seq<char>
    decreases s.len(),
{
    if s.len() > 0 && is_space(s[s.len() - 1]) {
        trim_back(s.subrange(0, s.len() - 1))
    } else {
        s
    }
}

/// Leading and trailing whitespace removed.
pub open spec fn trim(s: Seq<char>) -> Seq<char> {
    trim_back(trim_front(s))
}

proof fn lemma_trim_front_skip(s: Seq<char>, k: int)
    requires
        0 <= k <= s.len(),
        forall|j: int| 0 <= j < k ==> is_space(s[j]),
        k < s.len() ==> !is_space(s[k]),
    ensures
        trim_front(s) == s.subrange(k, s.len() as int),
    decreases k,
{
    if k == 0 {
        assert(s.subrange(0, s.len() as int) =~= s);
    } else {
        let s1 = s.subrange(1, s.len() as int);
        assert(is_space(s[0]));
        lemma_trim_front_skip(s1, k - 1);
        assert(s1.subrange(k - 1, s1.len() as int) =~= s.subrange(k, s.len() as int));
    }
}

proof fn lemma_trim_back_keep(s: Seq<char>, k: int)
    requires
        0 <= k <= s.len(),
        forall|j: int| k <= j < s.len() ==> is_space(s[j]),
        k > 0 ==> !is_space(s[k - 1]),
    ensures
        trim_back(s) == s.subrange(0, k),
    decreases s.len() - k,
{
    if k == s.len() {
        assert(s.subrange(0, k) =~= s);
    } else {
        let s1 = s.subrange(0, s.len() - 1);
        assert(is_space(s[s.len() - 1]));
        lemma_trim_back_keep(s1, k);
        assert(s1.subrange(0, k) =~= s.subrange(0, k));
    }
}

/// Trimming a string whose last character is not whitespace keeps that
/// character, so the result is non-empty.
pub proof fn lemma_trim_front_keeps_tail(u: Seq<char>)
    requires
        u.len() > 0,
        !is_space(u.last()),
    ensures
        trim_front(u).len() > 0,
        trim_front(u).last() == u.last(),
    decreases u.len(),
{
    if is_space(u[0]) {
        let u1 = u.subrange(1, u.len() as int);
        assert(u1.last() == u.last());
        lemma_trim_front_keeps_tail(u1);
    }
}

/// A string whose last character is not whitespace trims to a non-empty one.
pub proof fn lemma_trim_nonempty(u: Seq<char>)
    requires
        u.len() > 0,
        !is_space(u.last()),
    ensures
        trim(u).len() > 0,
{
    lemma_trim_front_keeps_tail(u);
    let f = trim_front(u);
    assert(!is_space(f[f.len() - 1]));
}

/// Copy of `s` with leading and trailing whitespace removed.
pub fn trim_str(s: &str) -> (r: String)
    ensures
        r@ == trim(s@),
{
    let n = s.unicode_len();
    let mut a: usize = 0;
    loop
        invariant
            a <= n,
            n == s@.len(),
            forall|j: int| 0 <= j < a ==> is_space(s@[j]),
        ensures
            a <= n,
            forall|j: int| 0 <= j < a ==> is_space(s@[j]),
            a < n ==> !is_space(s@[a as int]),
        decreases n - a,
    {
        if a >= n {
            break ;
        }
        let c = s.get_char(a);
        if !(c == ' ' || c == '\t' || c == '\n' || c == '\r') {
            break ;
        }
        a += 1;
    }
    proof {
        lemma_trim_front_skip(s@, a as int);
    }
    let mut b: usize = n;
    loop
        invariant
            a <= b <= n,
            n == s@.len(),
            forall|j: int| b <= j < n ==> is_space(s@[j]),
        ensures
            a <= b <= n,
            forall|j: int| b <= j < n ==> is_space(s@[j]),
            b > a ==> !is_space(s@[b - 1]),
        decreases b,
    {
        if b <= a {
            break ;
        }
        let c = s.get_char(b - 1);
        if !(c == ' ' || c == '\t' || c == '\n' || c == '\r') {
            break ;
        }
        b -= 1;
    }
    proof {
        let f = s@.subrange(a as int, n as int);
        lemma_trim_back_keep(f, b - a);
        assert(f.subrange(0, b - a) =~= s@.subrange(a as int, b as int));
    }
    s.substring_char(a, b).to_owned()
}

} // verus!
