//! Character-level helpers on strings, each stated over the string's
//! view as a sequence of characters.
use vstd::prelude::*;

verus! {

/// Index of the first `c` at or after position `i`, or the length when
/// there is none.
pub open spec fn first_from(s: Seq<char>, c: char, i: nat) -> nat
    decreases s.len() - i,
{
    if i >= s.len() {
        s.len()
    } else if s[i as int] == c {
        i
    } else {
        first_from(s, c, i + 1)
    }
}

/// Index of the last `c` strictly before position `i`, or -1 when there is none.
pub open spec fn last_before(s: Seq<char>, c: char, i: int) -> int
    decreases i,
{
    if i <= 0 {
        -1
    } else if s[i - 1] == c {
        i - 1
    } else {
        last_before(s, c, i - 1)
    }
}

/// Number of occurrences of `c` in `s`.
pub open spec fn count_char(s: Seq<char>, c: char) -> nat
    decreases s.len(),
{
    if s.len() == 0 {
        0
    } else {
        count_char(s.drop_last(), c) + if s.last() == c {
            1nat
        } else {
            0nat
        }
    }
}

pub open spec fn has_prefix(s: Seq<char>, p: Seq<char>) -> bool {
    p.len() <= s.len() && s.subrange(0, p.len() as int) == p
}

pub proof fn lemma_last_before_bounds(s: Seq<char>, c: char, i: int)
    requires
        i <= s.len(),
    ensures
        -1 <= last_before(s, c, i) < if i < 0 { 0 } else { i },
        last_before(s, c, i) >= 0 ==> s[last_before(s, c, i)] == c,
    decreases i,
{
    if i > 0 && s[i - 1] != c {
        lemma_last_before_bounds(s, c, i - 1);
    }
}

/// Position of the first `c` in `s`, or its length when `c` does not occur.
pub fn find_char(s: &str, c: char) -> (r: usize)
    ensures
        r as nat == first_from(s@, c, 0),
        r <= s@.len(),
{
    let n = s.unicode_len();
    let mut i: usize = 0;
    while i < n
        invariant
            i <= n,
            n == s@.len(),
            first_from(s@, c, 0) == first_from(s@, c, i as nat),
        decreases n - i,
    {
        if s.get_char(i) == c {
            return i;
        }
        i += 1;
    }
    i
}

/// Position of the last `c` in `s` before `end`, if any.
pub fn rfind_char_before(s: &str, c: char, end: usize) -> (r: Option<usize>)
    requires
        end <= s@.len(),
    ensures
        match r {
            Some(j) => j as int == last_before(s@, c, end as int) && j < end,
            None => last_before(s@, c, end as int) == -1,
        },
{
    let mut i: usize = end;
    while i > 0
        invariant
            i <= end <= s@.len(),
            last_before(s@, c, end as int) == last_before(s@, c, i as int),
        decreases i,
    {
        if s.get_char(i - 1) == c {
            return Some(i - 1);
        }
        i -= 1;
    }
    None
}

/// Number of occurrences of `c` in `s`.
pub fn count_occurrences(s: &str, c: char) -> (r: usize)
    ensures
        r as nat == count_char(s@, c),
{
    let n = s.unicode_len();
    let mut i: usize = 0;
    let mut k: usize = 0;
    while i < n
        invariant
            i <= n,
            n == s@.len(),
            k <= i,
            k as nat == count_char(s@.subrange(0, i as int), c),
        decreases n - i,
    {
        assert(s@.subrange(0, i + 1).drop_last() =~= s@.subrange(0, i as int));
        if s.get_char(i) == c {
            k += 1;
        }
        i += 1;
    }
    assert(s@.subrange(0, n as int) =~= s@);
    k
}

/// Whether the characters of `s` from `start` on are exactly `p`.
pub fn tail_equals(s: &str, start: usize, p: &str) -> (r: bool)
    requires
        start <= s@.len(),
    ensures
        r == (s@.subrange(start as int, s@.len() as int) == p@),
{
    let n = s.unicode_len();
    let m = p.unicode_len();
    if n - start != m {
        proof {
            assert(s@.subrange(start as int, s@.len() as int).len() != p@.len());
        }
        return false;
    }
    let mut i: usize = 0;
    while i < m
        invariant
            i <= m,
            n == s@.len(),
            m == p@.len(),
            n - start == m,
            forall|j: int| 0 <= j < i ==> s@[start + j] == p@[j],
        decreases m - i,
    {
        if s.get_char(start + i) != p.get_char(i) {
            proof {
                assert(s@.subrange(start as int, s@.len() as int)[i as int] != p@[i as int]);
            }
            return false;
        }
        i += 1;
    }
    assert(s@.subrange(start as int, s@.len() as int) =~= p@);
    true
}

/// Whether `s` begins with `p`.
pub fn starts_with(s: &str, p: &str) -> (r: bool)
    ensures
        r == has_prefix(s@, p@),
{
    let n = s.unicode_len();
    let m = p.unicode_len();
    if m > n {
        return false;
    }
    let mut i: usize = 0;
    while i < m
        invariant
            i <= m <= n,
            n == s@.len(),
            m == p@.len(),
            forall|j: int| 0 <= j < i ==> s@[j] == p@[j],
        decreases m - i,
    {
        if s.get_char(i) != p.get_char(i) {
            proof {
                assert(s@.subrange(0, m as int)[i as int] != p@[i as int]);
            }
            return false;
        }
        i += 1;
    }
    assert(s@.subrange(0, m as int) =~= p@);
    true
}

/// Whether `a` and `b` hold the same characters.
pub fn same_text(a: &str, b: &str) -> (r: bool)
    ensures
        r == (a@ == b@),
{
    let r = tail_equals(a, 0, b);
    assert(a@.subrange(0, a@.len() as int) =~= a@);
    r
}

} // verus!
