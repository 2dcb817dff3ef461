//! Comparisons on strings and byte strings that the option and action
//! parsers share.
use vstd::prelude::*;
use vstd::string::StrSliceExecFns;

verus! {

/// Whether two strings hold the same characters.
pub fn str_eq(a: &str, b: &str) -> (same: bool)
    ensures
        same == (a@ == b@),
{
    let n = a.unicode_len();
    if n != b.unicode_len() {
        return false;
    }
    let mut i: usize = 0;
    while i < n
        invariant
            n == a@.len(),
            n == b@.len(),
            i <= n,
            forall|j: int| 0 <= j < i ==> a@[j] == b@[j],
        decreases n - i,
    {
        if a.get_char(i) != b.get_char(i) {
            return false;
        }
        i = i + 1;
    }
    proof {
        assert(a@ =~= b@);
    }
    true
}

/// The rest of `s` after `prefix`, when `s` starts with it.
pub fn strip_prefix<'a>(s: &'a str, prefix: &str) -> (rest: Option<&'a str>)
    ensures
        rest is Some <==> prefix@.is_prefix_of(s@),
        rest matches Some(r) ==> r@ == s@.skip(prefix@.len() as int),
{
    let n = s.unicode_len();
    let p = prefix.unicode_len();
    if p > n {
        return None;
    }
    let mut i: usize = 0;
    while i < p
        invariant
            n == s@.len(),
            p == prefix@.len(),
            p <= n,
            i <= p,
            forall|j: int| 0 <= j < i ==> prefix@[j] == s@[j],
        decreases p - i,
    {
        if s.get_char(i) != prefix.get_char(i) {
            return None;
        }
        i = i + 1;
    }
    let rest = s.substring_char(p, n);
    proof {
        assert(rest@ =~= s@.skip(p as int));
    }
    Some(rest)
}

/// Whether `pattern` occurs in `bytes` at position `at`.
pub open spec fn occurs_at(bytes: Seq<u8>, pattern: Seq<u8>, at: int) -> bool {
    0 <= at && at + pattern.len() <= bytes.len() && bytes.subrange(at, at + pattern.len()) == pattern
}

/// The first position of `pattern` in `bytes`, if it occurs.
pub fn find_bytes(bytes: &[u8], pattern: &[u8]) -> (at: Option<usize>)
    ensures
        at matches Some(i) ==> occurs_at(bytes@, pattern@, i as int) && forall|j: int|
            0 <= j < i ==> !occurs_at(bytes@, pattern@, j),
        at is None ==> forall|j: int| !occurs_at(bytes@, pattern@, j),
{
    let n = bytes.len();
    let p = pattern.len();
    if p > n {
        return None;
    }
    let mut i: usize = 0;
    while n - i >= p
        invariant
            n == bytes@.len(),
            p == pattern@.len(),
            p <= n,
            i <= n,
            forall|j: int| 0 <= j < i ==> !occurs_at(bytes@, pattern@, j),
        decreases n - i,
    {
        let mut k: usize = 0;
        let mut matched = true;
        while k < p
            invariant
                n == bytes@.len(),
                p == pattern@.len(),
                i + p <= n,
                k <= p,
                matched ==> forall|m: int| 0 <= m < k ==> bytes@[i + m] == pattern@[m],
                !matched ==> !occurs_at(bytes@, pattern@, i as int),
                !matched ==> 0 < p,
            decreases p - k,
        {
            if bytes[i + k] != pattern[k] {
                matched = false;
                proof {
                    assert(bytes@.subrange(i as int, i + p)[k as int] != pattern@[k as int]);
                }
            }
            k = k + 1;
        }
        if matched {
            proof {
                assert(bytes@.subrange(i as int, i + p) =~= pattern@);
            }
            return Some(i);
        }
        i = i + 1;
    }
    proof {
        assert forall|j: int| !occurs_at(bytes@, pattern@, j) by {
            if 0 <= j && j + p <= n {
                assert(j < i);
            }
        }
    }
    None
}

} // verus!
