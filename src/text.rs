use vstd::prelude::*;
use vstd::string::*;

verus! {

/// `needle` occurs in `hay` starting at position `i`.
pub open spec fn occurs_at(hay: Seq<char>, needle: Seq<char>, i: int) -> bool {
    0 <= i && i + needle.len() <= hay.len() && hay.subrange(i, i + needle.len()) == needle
}

/// `needle` occurs somewhere in `hay`.
pub open spec fn is_infix(needle: Seq<char>, hay: Seq<char>) -> bool {
    exists|i: int| occurs_at(hay, needle, i)
}

fn matches_at(hay: &str, needle: &str, i: usize) -> (r: bool)
    requires
        i + needle@.len() <= hay@.len(),
    ensures
        r == occurs_at(hay@, needle@, i as int),
{
    let n = needle.unicode_len();
    let h = hay.unicode_len();
    let mut k: usize = 0;
    while k < n
        invariant
            n == needle@.len(),
            h == hay@.len(),
            i + n <= hay@.len(),
            k <= n,
            forall|q: int| 0 <= q < k ==> hay@[i + q] == needle@[q],
        decreases n - k,
    {
        if hay.get_char(i + k) != needle.get_char(k) {
            assert(hay@.subrange(i as int, i + n)[k as int] != needle@[k as int]);
            return false;
        }
        k = k + 1;
    }
    assert(hay@.subrange(i as int, i + n) =~= needle@);
    true
}

/// Whether `needle` occurs in `hay`.
pub fn contains_text(hay: &str, needle: &str) -> (r: bool)
    ensures
        r == is_infix(needle@, hay@),
{
    let h = hay.unicode_len();
    let n = needle.unicode_len();
    if n > h {
        return false;
    }
    let last = h - n;
    let mut i: usize = 0;
    while i < last
        invariant
            h == hay@.len(),
            n == needle@.len(),
            last == h - n,
            i <= last,
            forall|s: int| 0 <= s < i ==> !occurs_at(hay@, needle@, s),
        decreases last - i,
    {
        if matches_at(hay, needle, i) {
            return true;
        }
        i = i + 1;
    }
    matches_at(hay, needle, last)
}

/// Whether two texts are equal.
pub fn same_text(a: &str, b: &str) -> (r: bool)
    ensures
        r == (a@ == b@),
{
    if a.unicode_len() != b.unicode_len() {
        return false;
    }
    let r = matches_at(a, b, 0);
    assert(a@.subrange(0, a@.len() as int) =~= a@);
    r
}

} // verus!
