//! Byte-string helpers shared by the whole crate.
//!
//! Config text, keys and paths are all byte strings. This module holds
//! the small executable operations on them (equality, prefix tests,
//! concatenation) together with their specifications.

use vstd::prelude::*;

verus! {

/// The bytes of an ASCII string literal, as a spec-level sequence.
pub open spec fn ascii(s: &str) -> Seq<u8> {
    Seq::new(s@.len(), |i: int| s@[i] as u8)
}

/// The views of a sequence of byte vectors.
pub open spec fn deep(s: Seq<Vec<u8>>) -> Seq<Seq<u8>> {
    s.map_values(|v: Vec<u8>| v@)
}

/// True when `a` equals `b` byte for byte.
pub fn bytes_eq(a: &[u8], b: &[u8]) -> (r: bool)
    ensures
        r == (a@ == b@),
{
    if a.len() != b.len() {
        assert(a@ != b@) by {
            assert(a@.len() != b@.len());
        }
        return false;
    }
    let mut i: usize = 0;
    while i < a.len()
        invariant
            i <= a.len(),
            a.len() == b.len(),
            forall|j: int| 0 <= j < i ==> a@[j] == b@[j],
        decreases a.len() - i,
    {
        if a[i] != b[i] {
            return false;
        }
        i += 1;
    }
    assert(a@ =~= b@);
    true
}

/// A copy of `v[lo..hi]`.
pub fn subvec(v: &Vec<u8>, lo: usize, hi: usize) -> (r: Vec<u8>)
    requires
        lo <= hi <= v@.len(),
    ensures
        r@ == v@.subrange(lo as int, hi as int),
{
    let mut r: Vec<u8> = Vec::new();
    let mut k: usize = lo;
    while k < hi
        invariant
            lo <= k <= hi <= v@.len(),
            r@ == v@.subrange(lo as int, k as int),
        decreases hi - k,
    {
        r.push(v[k]);
        proof {
            assert(r@ =~= v@.subrange(lo as int, k as int + 1));
        }
        k += 1;
    }
    r
}

/// A fresh copy of a byte vector.
pub fn copy_bytes(v: &Vec<u8>) -> (r: Vec<u8>)
    ensures
        r@ == v@,
{
    let r = subvec(v, 0, v.len());
    proof {
        assert(v@.subrange(0, v@.len() as int) =~= v@);
    }
    r
}

/// Concatenation of two byte vectors.
pub fn concat(a: &Vec<u8>, b: &Vec<u8>) -> (r: Vec<u8>)
    ensures
        r@ == a@ + b@,
{
    let mut r: Vec<u8> = Vec::new();
    let mut k: usize = 0;
    let alen = a.len();
    while k < alen
        invariant
            k <= alen == a@.len(),
            r@ == a@.subrange(0, k as int),
        decreases alen - k,
    {
        r.push(a[k]);
        proof {
            assert(r@ =~= a@.subrange(0, k as int + 1));
        }
        k += 1;
    }
    let blen = b.len();
    let mut j: usize = 0;
    while j < blen
        invariant
            j <= blen == b@.len(),
            r@ == a@.subrange(0, a@.len() as int) + b@.subrange(0, j as int),
        decreases blen - j,
    {
        r.push(b[j]);
        proof {
            assert(r@ =~= a@.subrange(0, a@.len() as int) + b@.subrange(0, j as int + 1));
        }
        j += 1;
    }
    proof {
        assert(a@.subrange(0, a@.len() as int) =~= a@);
        assert(b@.subrange(0, b@.len() as int) =~= b@);
        assert(r@ =~= a@ + b@);
    }
    r
}

/// Space, tab or carriage return: what trimming removes.
pub open spec fn is_space(b: u8) -> bool {
    b == (' ' as u8) || b == ('\t' as u8) || b == ('\r' as u8)
}

/// `s` without leading spaces.
pub open spec fn trim_front(s: Seq<u8>) -> Seq<u8>
    decreases s.len(),
{
    if s.len() > 0 && is_space(s[0]) {
        trim_front(s.drop_first())
    } else {
        s
    }
}

/// `s` without trailing spaces.
pub open spec fn trim_back(s: Seq<u8>) -> Seq<u8>
    decreases s.len(),
{
    if s.len() > 0 && is_space(s.last()) {
        trim_back(s.drop_last())
    } else {
        s
    }
}

/// `s` without leading and trailing spaces.
pub open spec fn trim(s: Seq<u8>) -> Seq<u8> {
    trim_back(trim_front(s))
}

/// `trim_front` drops exactly the leading run of spaces.
pub proof fn lemma_trim_front_is(s: Seq<u8>, k: int)
    requires
        0 <= k <= s.len(),
        forall|j: int| 0 <= j < k ==> is_space(#[trigger] s[j]),
        k < s.len() ==> !is_space(s[k]),
    ensures
        trim_front(s) == s.skip(k),
    decreases k,
{
    if k == 0 {
        assert(s.skip(0) =~= s);
    } else {
        let t = s.drop_first();
        assert(forall|j: int| 0 <= j < k - 1 ==> t[j] == s[j + 1]);
        if k - 1 < t.len() {
            assert(t[k - 1] == s[k]);
        }
        lemma_trim_front_is(t, k - 1);
        assert(t.skip(k - 1) =~= s.skip(k));
    }
}

/// `trim_back` drops exactly the trailing run of spaces.
pub proof fn lemma_trim_back_is(s: Seq<u8>, h: int)
    requires
        0 <= h <= s.len(),
        forall|j: int| h <= j < s.len() ==> is_space(#[trigger] s[j]),
        h > 0 ==> !is_space(s[h - 1]),
    ensures
        trim_back(s) == s.take(h),
    decreases s.len() - h,
{
    if h == s.len() {
        if s.len() > 0 && is_space(s.last()) {
            let t = s.drop_last();
            assert(forall|j: int| h - 1 <= j < t.len() ==> t[j] == s[j]);
            lemma_trim_back_is(t, h - 1);
            assert(t.take(h - 1) =~= s.take(h - 1));
            assert(false);
        }
        assert(s.take(h) =~= s);
    } else {
        let t = s.drop_last();
        assert(forall|j: int| h <= j < t.len() ==> t[j] == s[j]);
        assert(is_space(s.last()));
        lemma_trim_back_is(t, h);
        assert(t.take(h) =~= s.take(h));
    }
}

/// The trimmed window of `v`: `v[r.0 .. r.1]` is `trim(v)`.
pub fn trim_bounds(v: &Vec<u8>) -> (r: (usize, usize))
    ensures
        r.0 <= r.1 <= v@.len(),
        v@.subrange(r.0 as int, r.1 as int) == trim(v@),
{
    let n = v.len();
    let mut lo: usize = 0;
    loop
        invariant
            lo <= n == v@.len(),
            forall|j: int| 0 <= j < lo ==> is_space(#[trigger] v@[j]),
        ensures
            lo <= n,
            forall|j: int| 0 <= j < lo ==> is_space(#[trigger] v@[j]),
            lo < n ==> !is_space(v@[lo as int]),
        decreases n - lo,
    {
        if lo >= n {
            break ;
        }
        let b = v[lo];
        if !(b == ' ' as u8 || b == '\t' as u8 || b == '\r' as u8) {
            break ;
        }
        lo += 1;
    }
    proof {
        lemma_trim_front_is(v@, lo as int);
    }
    if lo >= n {
        proof {
            assert(v@.skip(lo as int) =~= Seq::<u8>::empty());
            assert(trim(v@) =~= v@.subrange(lo as int, lo as int));
        }
        return (lo, lo);
    }
    let mut hi: usize = n;
    loop
        invariant
            lo < hi <= n == v@.len(),
            !is_space(v@[lo as int]),
            forall|j: int| hi <= j < n ==> is_space(#[trigger] v@[j]),
        ensures
            lo < hi <= n,
            forall|j: int| hi <= j < n ==> is_space(#[trigger] v@[j]),
            !is_space(v@[hi - 1]),
        decreases hi,
    {
        let b = v[hi - 1];
        if !(b == ' ' as u8 || b == '\t' as u8 || b == '\r' as u8) {
            break ;
        }
        proof {
            assert(!is_space(v@[lo as int]));
        }
        hi -= 1;
    }
    proof {
        let f = v@.skip(lo as int);
        assert(forall|j: int| 0 <= j < f.len() ==> f[j] == v@[lo + j]);
        lemma_trim_back_is(f, hi - lo as int);
        assert(f.take(hi - lo as int) =~= v@.subrange(lo as int, hi as int));
    }
    (lo, hi)
}

/// First index of `b` in `s`, or `s.len()` when absent.
pub open spec fn find_byte(s: Seq<u8>, b: u8) -> int
    decreases s.len(),
{
    if s.len() == 0 {
        0
    } else if s[0] == b {
        0
    } else {
        1 + find_byte(s.drop_first(), b)
    }
}

/// `find_byte` finds the first occurrence.
pub proof fn lemma_find_byte(s: Seq<u8>, b: u8)
    ensures
        0 <= find_byte(s, b) <= s.len(),
        find_byte(s, b) < s.len() ==> s[find_byte(s, b)] == b,
        forall|j: int| 0 <= j < find_byte(s, b) ==> s[j] != b,
    decreases s.len(),
{
    if s.len() > 0 && s[0] != b {
        lemma_find_byte(s.drop_first(), b);
        let t = s.drop_first();
        assert forall|j: int| 0 <= j < find_byte(s, b) implies s[j] != b by {
            if j > 0 {
                assert(t[j - 1] == s[j]);
            }
        }
    }
}

/// The index with the first-occurrence properties is `find_byte`.
pub proof fn lemma_find_byte_is(s: Seq<u8>, b: u8, n: int)
    requires
        0 <= n <= s.len(),
        forall|j: int| 0 <= j < n ==> s[j] != b,
        n < s.len() ==> s[n] == b,
    ensures
        find_byte(s, b) == n,
    decreases n,
{
    if s.len() > 0 && n > 0 {
        let t = s.drop_first();
        assert(forall|j: int| 0 <= j < n - 1 ==> t[j] == s[j + 1]);
        if n - 1 < t.len() {
            assert(t[n - 1] == s[n]);
        }
        lemma_find_byte_is(t, b, n - 1);
    }
}

/// Finds the first occurrence of `b` in `v`, or `v.len()`.
pub fn find_byte_exec(v: &Vec<u8>, b: u8) -> (r: usize)
    ensures
        r as int == find_byte(v@, b),
        r <= v@.len(),
{
    let n = v.len();
    let mut i: usize = 0;
    loop
        invariant
            i <= n == v@.len(),
            forall|j: int| 0 <= j < i ==> v@[j] != b,
        ensures
            i <= n,
            forall|j: int| 0 <= j < i ==> v@[j] != b,
            i < n ==> v@[i as int] == b,
        decreases n - i,
    {
        if i >= n {
            break ;
        }
        if v[i] == b {
            break ;
        }
        i += 1;
    }
    proof {
        lemma_find_byte_is(v@, b, i as int);
    }
    i
}

} // verus!
