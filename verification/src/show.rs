//! One tracked series: a directory of episode files plus the pointer
//! to the next unplayed one.
//!
//! Navigation works against a fresh episode listing supplied by the
//! caller (the traversal of `dir`), sorted here into natural order.
//! Looking up the current episode is by exact path equality, so files
//! added or removed between calls are picked up every time.

use vstd::prelude::*;
use crate::text::{deep, bytes_eq, concat, subvec, copy_bytes};
use crate::natural::{sorted_natural, sort_natural};
use crate::document::no_newline;

verus! {

/// `dir` joined with a relative path, using the separator `sep`.
pub open spec fn path_join(dir: Seq<u8>, sep: u8, rel: Seq<u8>) -> Seq<u8> {
    if dir.len() > 0 && dir.last() == sep {
        dir + rel
    } else {
        dir + seq![sep] + rel
    }
}

/// The path `full` made relative to `dir`: the part behind `dir` and
/// the separator. A path that does not lie under `dir` (or equals it)
/// is returned whole.
pub open spec fn rel_to(dir: Seq<u8>, sep: u8, full: Seq<u8>) -> Seq<u8> {
    if dir.len() > 0 && dir.last() == sep {
        if full.len() > dir.len() && full.subrange(0, dir.len() as int) == dir {
            full.skip(dir.len() as int)
        } else {
            full
        }
    } else {
        if full.len() > dir.len() + 1 && full.subrange(0, dir.len() as int) == dir && full[
            dir.len() as int
        ] == sep {
            full.skip(dir.len() as int + 1)
        } else {
            full
        }
    }
}

/// Index of the first occurrence of `x` in `s`, or `s.len()`.
pub open spec fn first_index_of(s: Seq<Seq<u8>>, x: Seq<u8>) -> int
    decreases s.len(),
{
    if s.len() == 0 {
        0
    } else if s[0] == x {
        0
    } else {
        1 + first_index_of(s.drop_first(), x)
    }
}

/// `first_index_of` finds the first occurrence.
pub proof fn lemma_first_index_of(s: Seq<Seq<u8>>, x: Seq<u8>)
    ensures
        0 <= first_index_of(s, x) <= s.len(),
        first_index_of(s, x) < s.len() ==> s[first_index_of(s, x)] == x,
        forall|j: int| 0 <= j < first_index_of(s, x) ==> s[j] != x,
    decreases s.len(),
{
    if s.len() > 0 && s[0] != x {
        let t = s.drop_first();
        lemma_first_index_of(t, x);
        assert forall|j: int| 0 <= j < first_index_of(s, x) implies s[j] != x by {
            if j > 0 {
                assert(t[j - 1] == s[j]);
            }
        }
        if first_index_of(s, x) < s.len() {
            assert(t[first_index_of(s, x) - 1] == s[first_index_of(s, x)]);
        }
    }
}

/// The index with the first-occurrence properties is `first_index_of`.
pub proof fn lemma_first_index_of_is(s: Seq<Seq<u8>>, x: Seq<u8>, n: int)
    requires
        0 <= n <= s.len(),
        forall|j: int| 0 <= j < n ==> s[j] != x,
        n < s.len() ==> s[n] == x,
    ensures
        first_index_of(s, x) == n,
    decreases n,
{
    if s.len() > 0 && n > 0 {
        let t = s.drop_first();
        assert(forall|j: int| 0 <= j < n - 1 ==> t[j] == s[j + 1]);
        if n - 1 < t.len() {
            assert(t[n - 1] == s[n]);
        }
        lemma_first_index_of_is(t, x, n - 1);
    }
}

/// One tracked series.
#[derive(Debug)]
pub struct Show {
    /// Display name.
    pub name: Vec<u8>,
    /// Absolute directory of the episode files.
    pub dir: Vec<u8>,
    /// Path of the next unplayed episode, relative to `dir`.
    pub next: Vec<u8>,
    /// The platform's path separator byte.
    pub sep: u8,
}

impl Show {
    /// Well-formed: every field fits on one config line, and the
    /// separator is a path separator.
    pub open spec fn wf(&self) -> bool {
        &&& no_newline(self.name@)
        &&& no_newline(self.dir@)
        &&& no_newline(self.next@)
        &&& (self.sep == ('/' as u8) || self.sep == ('\\' as u8))
    }

    /// The absolute path of the episode to play next: `dir` joined
    /// with `next`. Pure computation; validity is the caller's affair.
    pub fn current_episode(&self) -> (r: Vec<u8>)
        ensures
            r@ == path_join(self.dir@, self.sep, self.next@),
    {
        let dlen = self.dir.len();
        if dlen > 0 && self.dir[dlen - 1] == self.sep {
            let r = concat(&self.dir, &self.next);
            proof {
                assert(self.dir@.last() == self.dir@[dlen - 1]);
            }
            r
        } else {
            let mut d = copy_bytes(&self.dir);
            d.push(self.sep);
            let r = concat(&d, &self.next);
            proof {
                assert(d@ =~= self.dir@ + seq![self.sep]);
                assert((self.dir@ + seq![self.sep]) + self.next@ =~= self.dir@ + seq![self.sep]
                    + self.next@);
            }
            r
        }
    }

    /// The episode listing: the caller's traversal of `dir`, put into
    /// natural order. The result is a permutation of the input.
    pub fn episodes(&self, paths: Vec<Vec<u8>>) -> (r: Vec<Vec<u8>>)
        ensures
            sorted_natural(deep(r@)),
            deep(r@).to_multiset() == deep(paths@).to_multiset(),
    {
        sort_natural(paths)
    }

    /// Moves `next` to the episode right after the current one in
    /// `eps` (the fresh episode listing of `dir`, absolute paths).
    /// When the current episode is not in the listing, or is the last
    /// entry, `next` stays as it is: a deliberate no-op, so a transient
    /// mismatch with the filesystem never corrupts the pointer.
    pub fn advance_to_next_episode(&mut self, eps: &Vec<Vec<u8>>)
        requires
            old(self).wf(),
            forall|i: int| 0 <= i < eps@.len() ==> no_newline(#[trigger] deep(eps@)[i]),
        ensures
            final(self).wf(),
            final(self).name == old(self).name,
            final(self).dir == old(self).dir,
            final(self).sep == old(self).sep,
            ({
                let cur = path_join(old(self).dir@, old(self).sep, old(self).next@);
                let fi = first_index_of(deep(eps@), cur);
                if fi < deep(eps@).len() - 1 {
                    final(self).next@ == rel_to(old(self).dir@, old(self).sep, deep(eps@)[fi + 1])
                } else {
                    final(self).next@ == old(self).next@
                }
            }),
    {
        let ghost epsv = deep(eps@);
        let cur = self.current_episode();
        let n = eps.len();
        let mut i: usize = 0;
        loop
            invariant
                i <= n == eps@.len(),
                epsv == deep(eps@),
                cur@ == path_join(self.dir@, self.sep, self.next@),
                self == old(self),
                forall|j: int| 0 <= j < i ==> epsv[j] != cur@,
            ensures
                i <= n,
                self == old(self),
                forall|j: int| 0 <= j < i ==> epsv[j] != cur@,
                i < n ==> epsv[i as int] == cur@,
            decreases n - i,
        {
            if i >= n {
                break ;
            }
            if bytes_eq(eps[i].as_slice(), cur.as_slice()) {
                proof {
                    assert(epsv[i as int] == eps@[i as int]@);
                }
                break ;
            }
            proof {
                assert(epsv[i as int] == eps@[i as int]@);
            }
            i += 1;
        }
        proof {
            lemma_first_index_of_is(epsv, cur@, i as int);
        }
        if i < n && i + 1 < n {
            let next_full = &eps[i + 1];
            proof {
                assert(epsv[i as int + 1] == eps@[i as int + 1]@);
            }
            let rel = rel_to_exec(&self.dir, self.sep, next_full);
            proof {
                assert(no_newline(epsv[i as int + 1]));
                let full = epsv[i as int + 1];
                let r = rel_to(self.dir@, self.sep, full);
                assert(no_newline(r)) by {
                    if r != full {
                        assert forall|k: int| 0 <= k < r.len() implies r[k] != crate::document::nl()
                        by {
                            assert(r[k] == full[k + (full.len() - r.len())]);
                        }
                    }
                }
            }
            self.next = rel;
        }
    }

    /// The episode right before the current one in `eps`, as an
    /// absolute path; `None` when the current episode is first in the
    /// listing or not in it. Read-only: `next` never moves.
    pub fn previous_episode(&self, eps: &Vec<Vec<u8>>) -> (r: Option<Vec<u8>>)
        ensures
            ({
                let cur = path_join(self.dir@, self.sep, self.next@);
                let fi = first_index_of(deep(eps@), cur);
                match r {
                    Some(p) => 0 < fi < deep(eps@).len() && p@ == deep(eps@)[fi - 1],
                    None => fi == 0 || fi == deep(eps@).len(),
                }
            }),
    {
        let ghost epsv = deep(eps@);
        let cur = self.current_episode();
        let n = eps.len();
        let mut i: usize = 0;
        loop
            invariant
                i <= n == eps@.len(),
                epsv == deep(eps@),
                cur@ == path_join(self.dir@, self.sep, self.next@),
                forall|j: int| 0 <= j < i ==> epsv[j] != cur@,
            ensures
                i <= n,
                forall|j: int| 0 <= j < i ==> epsv[j] != cur@,
                i < n ==> epsv[i as int] == cur@,
            decreases n - i,
        {
            if i >= n {
                break ;
            }
            if bytes_eq(eps[i].as_slice(), cur.as_slice()) {
                proof {
                    assert(epsv[i as int] == eps@[i as int]@);
                }
                break ;
            }
            proof {
                assert(epsv[i as int] == eps@[i as int]@);
            }
            i += 1;
        }
        proof {
            lemma_first_index_of_is(epsv, cur@, i as int);
        }
        if i > 0 && i < n {
            let p = copy_bytes(&eps[i - 1]);
            proof {
                assert(epsv[i as int - 1] == eps@[i as int - 1]@);
            }
            Some(p)
        } else {
            None
        }
    }
}

/// Strips `dir` and the separator from the front of `full`, as
/// `rel_to` describes; hands `full` back unchanged when it does not
/// lie under `dir`.
pub fn rel_to_exec(dir: &Vec<u8>, sep: u8, full: &Vec<u8>) -> (r: Vec<u8>)
    ensures
        r@ == rel_to(dir@, sep, full@),
{
    let dlen = dir.len();
    let flen = full.len();
    if dlen > 0 && dir[dlen - 1] == sep {
        proof {
            assert(dir@.last() == dir@[dlen - 1]);
        }
        if flen > dlen {
            let pre = subvec(full, 0, dlen);
            if bytes_eq(pre.as_slice(), dir.as_slice()) {
                let r = subvec(full, dlen, flen);
                proof {
                    assert(full@.subrange(dlen as int, flen as int) =~= full@.skip(dlen as int));
                }
                return r;
            }
        }
        copy_bytes(full)
    } else {
        if flen > dlen && flen - dlen > 1 {
            let pre = subvec(full, 0, dlen);
            if bytes_eq(pre.as_slice(), dir.as_slice()) && full[dlen] == sep {
                let r = subvec(full, dlen + 1, flen);
                proof {
                    assert(full@.subrange(dlen as int + 1, flen as int) =~= full@.skip(
                        dlen as int + 1,
                    ));
                }
                return r;
            }
        }
        copy_bytes(full)
    }
}

} // verus!
