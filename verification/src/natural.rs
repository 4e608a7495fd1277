//! Natural ("humane") ordering of byte strings.
//!
//! A string is read as an alternating sequence of digit runs and
//! non-digit runs. Runs are compared positionally: two digit runs
//! compare by numeric value, two non-digit runs compare byte-wise,
//! a digit run sorts before a non-digit run, and a string that runs
//! out of tokens first sorts first. Hence `ep2` precedes `ep10`.
//!
//! This order defines which episode is "next" and "previous", so the
//! whole crate must use it consistently; `sort_natural` is the one
//! sorting routine for episode listings.

use vstd::prelude::*;
use crate::text::deep;

verus! {

/// An ASCII decimal digit.
pub open spec fn is_digit(b: u8) -> bool {
    ('0' as u8) <= b <= ('9' as u8)
}

/// The numeric value of one digit, 0 for non-digits.
pub open spec fn digit_val(b: u8) -> nat {
    if is_digit(b) {
        (b - ('0' as u8)) as nat
    } else {
        0
    }
}

/// The numeric value of a digit run.
pub open spec fn digits_value(s: Seq<u8>) -> nat
    decreases s.len(),
{
    if s.len() == 0 {
        0
    } else {
        digits_value(s.drop_last()) * 10 + digit_val(s.last())
    }
}

/// Length of the leading run of `s`: the longest prefix whose bytes all
/// agree with `s[0]` on being a digit.
pub open spec fn run_len(s: Seq<u8>) -> nat
    decreases s.len(),
{
    if s.len() == 0 {
        0
    } else if s.len() == 1 {
        1
    } else if is_digit(s[1]) == is_digit(s[0]) {
        (1 + run_len(s.drop_first())) as nat
    } else {
        1
    }
}

/// Basic bounds and shape of the leading run.
pub proof fn lemma_run_len(s: Seq<u8>)
    requires
        s.len() > 0,
    ensures
        1 <= run_len(s) <= s.len(),
        forall|k: int| 0 <= k < run_len(s) ==> is_digit(#[trigger] s[k]) == is_digit(s[0]),
        run_len(s) < s.len() ==> is_digit(s[run_len(s) as int]) != is_digit(s[0]),
    decreases s.len(),
{
    if s.len() > 1 && is_digit(s[1]) == is_digit(s[0]) {
        lemma_run_len(s.drop_first());
        assert forall|k: int| 0 <= k < run_len(s) implies is_digit(#[trigger] s[k]) == is_digit(s[0]) by {
            if k > 0 {
                assert(s.drop_first()[k - 1] == s[k]);
            }
        }
        if run_len(s) < s.len() {
            assert(s.drop_first()[run_len(s) - 1] == s[run_len(s) as int]);
        }
    }
}

/// The leading run is exactly the prefix with uniform digit-class that
/// either ends the string or is followed by the other class.
pub proof fn lemma_run_len_is(s: Seq<u8>, n: int)
    requires
        1 <= n <= s.len(),
        forall|k: int| 0 <= k < n ==> is_digit(#[trigger] s[k]) == is_digit(s[0]),
        n < s.len() ==> is_digit(s[n]) != is_digit(s[0]),
    ensures
        run_len(s) == n,
    decreases s.len(),
{
    if n == 1 {
        if s.len() > 1 && is_digit(s[1]) == is_digit(s[0]) {
            assert(false);
        }
    } else {
        assert(is_digit(s[1]) == is_digit(s[0]));
        let t = s.drop_first();
        assert forall|k: int| 0 <= k < n - 1 implies is_digit(#[trigger] t[k]) == is_digit(t[0]) by {
            assert(t[k] == s[k + 1]);
            assert(t[0] == s[1]);
        }
        if n - 1 < t.len() {
            assert(t[n - 1] == s[n]);
        }
        lemma_run_len_is(t, n - 1);
    }
}

/// The runs of `s`, in order: nonempty maximal stretches of digits or
/// of non-digits.
pub open spec fn runs(s: Seq<u8>) -> Seq<Seq<u8>>
    decreases s.len(),
    via runs_decreases
{
    if s.len() == 0 {
        Seq::empty()
    } else {
        seq![s.subrange(0, run_len(s) as int)] + runs(s.subrange(run_len(s) as int, s.len() as int))
    }
}

#[via_fn]
proof fn runs_decreases(s: Seq<u8>) {
    if s.len() > 0 {
        lemma_run_len(s);
    }
}

/// Every run is nonempty.
pub proof fn lemma_runs_nonempty(s: Seq<u8>)
    ensures
        forall|i: int| 0 <= i < runs(s).len() ==> #[trigger] runs(s)[i].len() > 0,
    decreases s.len(),
{
    if s.len() > 0 {
        lemma_run_len(s);
        let tail = s.subrange(run_len(s) as int, s.len() as int);
        lemma_runs_nonempty(tail);
        assert forall|i: int| 0 <= i < runs(s).len() implies #[trigger] runs(s)[i].len() > 0 by {
            if i == 0 {
                assert(runs(s)[0] == s.subrange(0, run_len(s) as int));
            } else {
                assert(runs(s)[i] == runs(tail)[i - 1]);
            }
        }
    }
}

/// Three-way byte-wise (lexicographic) comparison; -1, 0 or 1.
pub open spec fn bytes_cmp(a: Seq<u8>, b: Seq<u8>) -> int
    decreases a.len(),
{
    if a.len() == 0 && b.len() == 0 {
        0
    } else if a.len() == 0 {
        -1
    } else if b.len() == 0 {
        1
    } else if a[0] < b[0] {
        -1
    } else if a[0] > b[0] {
        1
    } else {
        bytes_cmp(a.drop_first(), b.drop_first())
    }
}

/// Three-way comparison of two runs: digit runs by numeric value, a
/// digit run before a non-digit run, non-digit runs byte-wise.
pub open spec fn run_cmp(a: Seq<u8>, b: Seq<u8>) -> int {
    let a_num = a.len() > 0 && is_digit(a[0]);
    let b_num = b.len() > 0 && is_digit(b[0]);
    if a_num && !b_num {
        -1
    } else if !a_num && b_num {
        1
    } else if a_num && b_num {
        if digits_value(a) < digits_value(b) {
            -1
        } else if digits_value(a) > digits_value(b) {
            1
        } else {
            0
        }
    } else {
        bytes_cmp(a, b)
    }
}

/// Lexicographic comparison of two run sequences; the one that runs out
/// first sorts first.
pub open spec fn runs_cmp(a: Seq<Seq<u8>>, b: Seq<Seq<u8>>) -> int
    decreases a.len(),
{
    if a.len() == 0 && b.len() == 0 {
        0
    } else if a.len() == 0 {
        -1
    } else if b.len() == 0 {
        1
    } else {
        let c = run_cmp(a[0], b[0]);
        if c != 0 {
            c
        } else {
            runs_cmp(a.drop_first(), b.drop_first())
        }
    }
}

/// The natural (humane) three-way comparison of two byte strings.
pub open spec fn natural_cmp(a: Seq<u8>, b: Seq<u8>) -> int {
    runs_cmp(runs(a), runs(b))
}

/// The natural order: `a` sorts no later than `b`.
pub open spec fn natural_le(a: Seq<u8>, b: Seq<u8>) -> bool {
    natural_cmp(a, b) <= 0
}

/// Powers of ten.
pub open spec fn pow10(n: nat) -> nat
    decreases n,
{
    if n == 0 {
        1
    } else {
        10 * pow10((n - 1) as nat)
    }
}

/// Every byte of `s` is a digit.
pub open spec fn all_digits(s: Seq<u8>) -> bool {
    forall|i: int| 0 <= i < s.len() ==> is_digit(#[trigger] s[i])
}

/// All bytes of a run agree on being digits.
pub open spec fn uniform_run(r: Seq<u8>) -> bool {
    forall|k: int| 0 <= k < r.len() ==> is_digit(#[trigger] r[k]) == is_digit(r[0])
}

pub proof fn lemma_pow10_monotone(m: nat, n: nat)
    requires
        m <= n,
    ensures
        pow10(m) <= pow10(n),
    decreases n,
{
    if m < n {
        lemma_pow10_monotone(m, (n - 1) as nat);
    }
}

/// A digit run of length `n` has value below `pow10(n)`.
pub proof fn lemma_digits_value_bound(s: Seq<u8>)
    ensures
        digits_value(s) < pow10(s.len()),
    decreases s.len(),
{
    if s.len() > 0 {
        lemma_digits_value_bound(s.drop_last());
    }
}

/// A digit run that does not start with `0` has value at least
/// `pow10(len - 1)`.
pub proof fn lemma_digits_value_lower(s: Seq<u8>)
    requires
        s.len() > 0,
        all_digits(s),
        s[0] != '0' as u8,
    ensures
        digits_value(s) >= pow10((s.len() - 1) as nat),
    decreases s.len(),
{
    if s.len() > 1 {
        assert(s.drop_last()[0] == s[0]);
        assert(all_digits(s.drop_last())) by {
            assert(forall|i: int| 0 <= i < s.len() - 1 ==> s.drop_last()[i] == s[i]);
        }
        lemma_digits_value_lower(s.drop_last());
    }
}

/// A leading `0` does not change a run's numeric value.
pub proof fn lemma_digits_value_drop_zero(s: Seq<u8>)
    requires
        s.len() > 0,
        s[0] == '0' as u8,
    ensures
        digits_value(s) == digits_value(s.drop_first()),
    decreases s.len(),
{
    if s.len() > 1 {
        assert(s.drop_last()[0] == s[0]);
        lemma_digits_value_drop_zero(s.drop_last());
        assert(s.drop_last().drop_first() =~= s.drop_first().drop_last());
        assert(s.drop_first().last() == s.last());
        let t = s.drop_first();
        assert(t.len() > 0);
        assert(digits_value(t) == digits_value(t.drop_last()) * 10 + digit_val(t.last()));
        assert(digits_value(s) == digits_value(s.drop_last()) * 10 + digit_val(s.last()));
    } else {
        assert(s.drop_last() =~= Seq::<u8>::empty());
        assert(s.drop_first() =~= Seq::<u8>::empty());
        assert(digits_value(s) == digits_value(s.drop_last()) * 10 + digit_val(s.last()));
        assert(digit_val(s.last()) == 0);
    }
}

/// Any number of leading `0`s does not change a run's numeric value.
pub proof fn lemma_digits_value_skip_zeros(s: Seq<u8>, k: int)
    requires
        0 <= k <= s.len(),
        forall|i: int| 0 <= i < k ==> s[i] == '0' as u8,
    ensures
        digits_value(s) == digits_value(s.skip(k)),
    decreases k,
{
    if k > 0 {
        lemma_digits_value_drop_zero(s);
        let t = s.drop_first();
        assert(forall|i: int| 0 <= i < k - 1 ==> t[i] == s[i + 1]);
        lemma_digits_value_skip_zeros(t, k - 1);
        assert(t.skip(k - 1) =~= s.skip(k));
    } else {
        assert(s.skip(0) =~= s);
    }
}

/// Peeling the first digit: `value(s) == s[0] * pow10(len-1) + value(tail)`.
pub proof fn lemma_digits_value_front(s: Seq<u8>)
    requires
        s.len() > 0,
    ensures
        digits_value(s) == digit_val(s[0]) * pow10((s.len() - 1) as nat) + digits_value(
            s.drop_first(),
        ),
    decreases s.len(),
{
    if s.len() == 1 {
        assert(s.drop_first() =~= Seq::<u8>::empty());
        assert(s.drop_last() =~= Seq::<u8>::empty());
        assert(pow10((s.len() - 1) as nat) == 1);
        assert(digits_value(s) == digits_value(s.drop_last()) * 10 + digit_val(s.last()));
        assert(s.last() == s[0]);
    } else {
        let dl = s.drop_last();
        assert(dl[0] == s[0]);
        lemma_digits_value_front(dl);
        let p = pow10((s.len() - 2) as nat);
        let d0 = digit_val(s[0]);
        assert(digits_value(s) == (d0 * p + digits_value(dl.drop_first())) * 10 + digit_val(
            s.last(),
        ));
        assert((d0 * p + digits_value(dl.drop_first())) * 10 == d0 * (p * 10) + digits_value(
            dl.drop_first(),
        ) * 10) by (nonlinear_arith);
        assert(p * 10 == pow10((s.len() - 1) as nat));
        assert(dl.drop_first() =~= s.drop_first().drop_last());
        assert(s.drop_first().last() == s.last());
        assert(digits_value(s.drop_first()) == digits_value(s.drop_first().drop_last()) * 10
            + digit_val(s.drop_first().last()));
        assert(digits_value(s.drop_first()) == digits_value(dl.drop_first()) * 10 + digit_val(
            s.last(),
        ));
        assert(digits_value(s) == d0 * (p * 10) + (digits_value(dl.drop_first()) * 10 + digit_val(
            s.last(),
        )));
    }
}

/// If two digit runs have the same length and the first differs at the
/// front, the front decides the numeric comparison.
proof fn lemma_digits_head_lt(a: Seq<u8>, b: Seq<u8>)
    requires
        a.len() == b.len(),
        a.len() > 0,
        all_digits(a),
        all_digits(b),
        a[0] < b[0],
    ensures
        digits_value(a) < digits_value(b),
{
    let p = pow10((a.len() - 1) as nat);
    lemma_digits_value_front(a);
    lemma_digits_value_front(b);
    lemma_digits_value_bound(a.drop_first());
    assert(a.drop_first().len() == a.len() - 1);
    let da = digit_val(a[0]);
    let db = digit_val(b[0]);
    assert(da < db);
    assert(p >= 1) by {
        lemma_pow10_monotone(0, (a.len() - 1) as nat);
    }
    assert(da * p + digits_value(a.drop_first()) < db * p + digits_value(b.drop_first()))
        by (nonlinear_arith)
        requires
            da < db,
            digits_value(a.drop_first()) < p,
            p >= 1,
    ;
}

/// For equal-length digit runs, byte-wise order is numeric order.
pub proof fn lemma_digits_value_cmp(a: Seq<u8>, b: Seq<u8>)
    requires
        a.len() == b.len(),
        all_digits(a),
        all_digits(b),
    ensures
        (bytes_cmp(a, b) < 0 <==> digits_value(a) < digits_value(b)),
        (bytes_cmp(a, b) == 0 <==> digits_value(a) == digits_value(b)),
    decreases a.len(),
{
    if a.len() == 0 {
    } else if a[0] < b[0] {
        lemma_digits_head_lt(a, b);
    } else if a[0] > b[0] {
        lemma_digits_head_lt(b, a);
        lemma_bytes_cmp_flip(a, b);
    } else {
        let ta = a.drop_first();
        let tb = b.drop_first();
        assert(all_digits(ta) && all_digits(tb)) by {
            assert(forall|i: int| 0 <= i < ta.len() ==> ta[i] == a[i + 1] && tb[i] == b[i + 1]);
        }
        lemma_digits_value_cmp(ta, tb);
        lemma_digits_value_front(a);
        lemma_digits_value_front(b);
    }
}

/// Swapping the arguments of `bytes_cmp` flips the sign.
pub proof fn lemma_bytes_cmp_flip(a: Seq<u8>, b: Seq<u8>)
    ensures
        bytes_cmp(a, b) == -bytes_cmp(b, a),
    decreases a.len(),
{
    if a.len() > 0 && b.len() > 0 && a[0] == b[0] {
        lemma_bytes_cmp_flip(a.drop_first(), b.drop_first());
    }
}

/// `bytes_cmp` is transitive, strictly so when one step is strict.
pub proof fn lemma_bytes_cmp_trans(a: Seq<u8>, b: Seq<u8>, c: Seq<u8>)
    requires
        bytes_cmp(a, b) <= 0,
        bytes_cmp(b, c) <= 0,
    ensures
        bytes_cmp(a, c) <= 0,
        bytes_cmp(a, b) < 0 || bytes_cmp(b, c) < 0 ==> bytes_cmp(a, c) < 0,
        bytes_cmp(a, b) == 0 && bytes_cmp(b, c) == 0 ==> bytes_cmp(a, c) == 0,
    decreases a.len(),
{
    if a.len() > 0 && b.len() > 0 && c.len() > 0 && a[0] == b[0] && b[0] == c[0] {
        lemma_bytes_cmp_trans(a.drop_first(), b.drop_first(), c.drop_first());
    }
}

/// Swapping the arguments of `run_cmp` flips the sign.
pub proof fn lemma_run_cmp_flip(a: Seq<u8>, b: Seq<u8>)
    ensures
        run_cmp(a, b) == -run_cmp(b, a),
{
    lemma_bytes_cmp_flip(a, b);
}

/// `run_cmp` is transitive, strictly so when one step is strict.
pub proof fn lemma_run_cmp_trans(a: Seq<u8>, b: Seq<u8>, c: Seq<u8>)
    requires
        run_cmp(a, b) <= 0,
        run_cmp(b, c) <= 0,
    ensures
        run_cmp(a, c) <= 0,
        run_cmp(a, b) < 0 || run_cmp(b, c) < 0 ==> run_cmp(a, c) < 0,
        run_cmp(a, b) == 0 && run_cmp(b, c) == 0 ==> run_cmp(a, c) == 0,
{
    let a_num = a.len() > 0 && is_digit(a[0]);
    let b_num = b.len() > 0 && is_digit(b[0]);
    let c_num = c.len() > 0 && is_digit(c[0]);
    if !a_num && !b_num && !c_num {
        lemma_bytes_cmp_trans(a, b, c);
    }
}

/// Swapping the arguments of `runs_cmp` flips the sign.
pub proof fn lemma_runs_cmp_flip(a: Seq<Seq<u8>>, b: Seq<Seq<u8>>)
    ensures
        runs_cmp(a, b) == -runs_cmp(b, a),
    decreases a.len(),
{
    if a.len() > 0 && b.len() > 0 {
        lemma_run_cmp_flip(a[0], b[0]);
        if run_cmp(a[0], b[0]) == 0 {
            lemma_runs_cmp_flip(a.drop_first(), b.drop_first());
        }
    }
}

/// `runs_cmp` is transitive, strictly so when one step is strict.
pub proof fn lemma_runs_cmp_trans(a: Seq<Seq<u8>>, b: Seq<Seq<u8>>, c: Seq<Seq<u8>>)
    requires
        runs_cmp(a, b) <= 0,
        runs_cmp(b, c) <= 0,
    ensures
        runs_cmp(a, c) <= 0,
        runs_cmp(a, b) < 0 || runs_cmp(b, c) < 0 ==> runs_cmp(a, c) < 0,
        runs_cmp(a, b) == 0 && runs_cmp(b, c) == 0 ==> runs_cmp(a, c) == 0,
    decreases a.len(),
{
    if a.len() == 0 {
        // b and c can only shrink further; immediate from the definition
    } else {
        // b and c are nonempty, else one hypothesis would be 1
        lemma_run_cmp_trans(a[0], b[0], c[0]);
        if run_cmp(a[0], b[0]) == 0 && run_cmp(b[0], c[0]) == 0 {
            lemma_runs_cmp_trans(a.drop_first(), b.drop_first(), c.drop_first());
        }
    }
}

/// The natural order is total: two strings always compare one way or
/// the other.
pub proof fn lemma_natural_total(a: Seq<u8>, b: Seq<u8>)
    ensures
        natural_le(a, b) || natural_le(b, a),
        natural_cmp(a, b) == -natural_cmp(b, a),
{
    lemma_runs_cmp_flip(runs(a), runs(b));
}

/// The natural order is transitive.
pub proof fn lemma_natural_trans(a: Seq<u8>, b: Seq<u8>, c: Seq<u8>)
    requires
        natural_le(a, b),
        natural_le(b, c),
    ensures
        natural_le(a, c),
{
    lemma_runs_cmp_trans(runs(a), runs(b), runs(c));
}

/// Each run produced by `runs` is uniform.
pub proof fn lemma_runs_uniform(s: Seq<u8>)
    ensures
        forall|i: int| 0 <= i < runs(s).len() ==> uniform_run(#[trigger] runs(s)[i]),
    decreases s.len(),
{
    if s.len() > 0 {
        lemma_run_len(s);
        let head = s.subrange(0, run_len(s) as int);
        let tail = s.subrange(run_len(s) as int, s.len() as int);
        lemma_runs_uniform(tail);
        assert forall|i: int| 0 <= i < runs(s).len() implies uniform_run(#[trigger] runs(s)[i]) by {
            if i == 0 {
                assert(runs(s)[0] == head);
                assert forall|k: int| 0 <= k < head.len() implies is_digit(#[trigger] head[k])
                    == is_digit(head[0]) by {
                    assert(head[k] == s[k]);
                    assert(head[0] == s[0]);
                }
            } else {
                assert(runs(s)[i] == runs(tail)[i - 1]);
            }
        }
    }
}

/// Executable digit test.
fn is_digit_exec(b: u8) -> (r: bool)
    ensures
        r == is_digit(b),
{
    ('0' as u8) <= b && b <= ('9' as u8)
}

/// Byte-wise comparison of the suffixes `a[ai..]` and `b[bi..]`.
fn cmp_suffix_bytes(a: &Vec<u8>, ai: usize, b: &Vec<u8>, bi: usize) -> (r: i32)
    requires
        ai <= a@.len(),
        bi <= b@.len(),
    ensures
        r as int == bytes_cmp(a@.skip(ai as int), b@.skip(bi as int)),
        -1 <= r <= 1,
{
    let alen = a.len();
    let blen = b.len();
    let mut i: usize = 0;
    loop
        invariant
            alen == a@.len(),
            blen == b@.len(),
            ai + i <= alen,
            bi + i <= blen,
            bytes_cmp(a@.skip(ai as int), b@.skip(bi as int)) == bytes_cmp(
                a@.skip(ai as int + i as int),
                b@.skip(bi as int + i as int),
            ),
        decreases a@.len() - ai - i,
    {
        let ghost xs = a@.skip(ai as int + i as int);
        let ghost ys = b@.skip(bi as int + i as int);
        if i >= alen - ai && i >= blen - bi {
            proof {
                assert(xs.len() == 0 && ys.len() == 0);
            }
            return 0;
        }
        if i >= alen - ai {
            proof {
                assert(xs.len() == 0 && ys.len() > 0);
            }
            return -1;
        }
        if i >= blen - bi {
            proof {
                assert(ys.len() == 0 && xs.len() > 0);
            }
            return 1;
        }
        let x = a[ai + i];
        let y = b[bi + i];
        proof {
            assert(xs[0] == x && ys[0] == y);
        }
        if x < y {
            return -1;
        }
        if x > y {
            return 1;
        }
        proof {
            assert(xs.drop_first() =~= a@.skip(ai as int + i as int + 1));
            assert(ys.drop_first() =~= b@.skip(bi as int + i as int + 1));
        }
        i += 1;
    }
}

/// Index just past the leading run of `0` bytes.
fn skip_zeros(v: &Vec<u8>) -> (z: usize)
    ensures
        z <= v@.len(),
        forall|k: int| 0 <= k < z ==> v@[k] == '0' as u8,
        z < v@.len() ==> v@[z as int] != '0' as u8,
{
    let mut z: usize = 0;
    loop
        invariant
            z <= v@.len(),
            forall|k: int| 0 <= k < z ==> v@[k] == '0' as u8,
        ensures
            z <= v@.len(),
            forall|k: int| 0 <= k < z ==> v@[k] == '0' as u8,
            z < v@.len() ==> v@[z as int] != '0' as u8,
        decreases v@.len() - z,
    {
        if z >= v.len() {
            break ;
        }
        if v[z] != '0' as u8 {
            break ;
        }
        z += 1;
    }
    z
}

/// Compares two runs the way `run_cmp` does.
fn cmp_runs_exec(a: &Vec<u8>, b: &Vec<u8>) -> (r: i32)
    requires
        a@.len() > 0,
        b@.len() > 0,
        uniform_run(a@),
        uniform_run(b@),
    ensures
        r as int == run_cmp(a@, b@),
        -1 <= r <= 1,
{
    let a_num = is_digit_exec(a[0]);
    let b_num = is_digit_exec(b[0]);
    if a_num && !b_num {
        return -1;
    }
    if !a_num && b_num {
        return 1;
    }
    if !a_num {
        let r = cmp_suffix_bytes(a, 0, b, 0);
        proof {
            assert(a@.skip(0) =~= a@);
            assert(b@.skip(0) =~= b@);
        }
        return r;
    }
    // two digit runs: compare by numeric value, stripping leading zeros
    proof {
        assert(all_digits(a@));
        assert(all_digits(b@));
    }
    let za = skip_zeros(a);
    let zb = skip_zeros(b);
    let ghost sa = a@.skip(za as int);
    let ghost sb = b@.skip(zb as int);
    proof {
        lemma_digits_value_skip_zeros(a@, za as int);
        lemma_digits_value_skip_zeros(b@, zb as int);
        assert(all_digits(sa)) by {
            assert(forall|k: int| 0 <= k < sa.len() ==> sa[k] == a@[za + k]);
        }
        assert(all_digits(sb)) by {
            assert(forall|k: int| 0 <= k < sb.len() ==> sb[k] == b@[zb + k]);
        }
    }
    let la = a.len() - za;
    let lb = b.len() - zb;
    if la < lb {
        proof {
            lemma_digits_value_bound(sa);
            lemma_digits_value_lower(sb);
            lemma_pow10_monotone(sa.len(), (sb.len() - 1) as nat);
        }
        return -1;
    }
    if la > lb {
        proof {
            lemma_digits_value_bound(sb);
            lemma_digits_value_lower(sa);
            lemma_pow10_monotone(sb.len(), (sa.len() - 1) as nat);
        }
        return 1;
    }
    proof {
        lemma_digits_value_cmp(sa, sb);
    }
    cmp_suffix_bytes(a, za, b, zb)
}

/// Index just past the run that starts at `i`.
fn run_end(s: &Vec<u8>, i: usize) -> (j: usize)
    requires
        i < s@.len(),
    ensures
        i < j <= s@.len(),
        forall|k: int| i <= k < j ==> is_digit(#[trigger] s@[k]) == is_digit(s@[i as int]),
        j < s@.len() ==> is_digit(s@[j as int]) != is_digit(s@[i as int]),
{
    let n = s.len();
    let first_digit = is_digit_exec(s[i]);
    let mut j: usize = i + 1;
    loop
        invariant
            n == s@.len(),
            i < j <= s@.len(),
            first_digit == is_digit(s@[i as int]),
            forall|k: int| i <= k < j ==> is_digit(#[trigger] s@[k]) == is_digit(s@[i as int]),
        ensures
            i < j <= s@.len(),
            forall|k: int| i <= k < j ==> is_digit(#[trigger] s@[k]) == is_digit(s@[i as int]),
            j < s@.len() ==> is_digit(s@[j as int]) != is_digit(s@[i as int]),
        decreases s@.len() - j,
    {
        if j >= n {
            break ;
        }
        if is_digit_exec(s[j]) != first_digit {
            break ;
        }
        j += 1;
    }
    j
}

/// Splits a byte string into its runs.
fn tokenize(s: &Vec<u8>) -> (r: Vec<Vec<u8>>)
    ensures
        deep(r@) == runs(s@),
{
    let mut r: Vec<Vec<u8>> = Vec::new();
    let mut i: usize = 0;
    proof {
        assert(deep(r@) =~= Seq::<Seq<u8>>::empty());
        assert(s@.skip(0) =~= s@);
        assert(deep(r@) + runs(s@.skip(0)) =~= runs(s@));
    }
    while i < s.len()
        invariant
            i <= s@.len(),
            runs(s@) == deep(r@) + runs(s@.skip(i as int)),
        decreases s@.len() - i,
    {
        let j = run_end(s, i);
        let mut run: Vec<u8> = Vec::new();
        let mut k: usize = i;
        while k < j
            invariant
                i <= k <= j,
                j <= s@.len(),
                run@ == s@.subrange(i as int, k as int),
            decreases j - k,
        {
            let ghost prev = run@;
            run.push(s[k]);
            proof {
                assert(run@ =~= s@.subrange(i as int, k as int + 1));
            }
            k += 1;
        }
        proof {
            let t = s@.skip(i as int);
            assert forall|k: int| 0 <= k < j - i implies is_digit(#[trigger] t[k]) == is_digit(
                t[0],
            ) by {
                assert(t[k] == s@[i + k]);
                assert(t[0] == s@[i as int]);
            }
            if (j as int) < s@.len() {
                assert(t[j - i] == s@[j as int]);
            }
            lemma_run_len_is(t, j - i);
            assert(runs(t) == seq![t.subrange(0, (j - i) as int)] + runs(
                t.subrange((j - i) as int, t.len() as int),
            ));
            assert(t.subrange(0, (j - i) as int) =~= s@.subrange(i as int, j as int));
            assert(t.subrange((j - i) as int, t.len() as int) =~= s@.skip(j as int));
        }
        let ghost r_prev = r@;
        r.push(run);
        proof {
            assert(deep(r@) =~= deep(r_prev) + seq![run@]);
            assert((deep(r_prev) + seq![run@]) + runs(s@.skip(j as int)) =~= deep(r_prev) + (seq![
                run@,
            ] + runs(s@.skip(j as int))));
        }
        i = j;
    }
    proof {
        assert(s@.skip(i as int) =~= Seq::<u8>::empty());
        assert(runs(Seq::<u8>::empty()) == Seq::<Seq<u8>>::empty());
        assert(deep(r@) + Seq::<Seq<u8>>::empty() =~= deep(r@));
    }
    r
}

/// Three-way natural comparison of two byte strings: negative, zero or
/// positive as `a` sorts before, with, or after `b`.
pub fn compare_natural(a: &Vec<u8>, b: &Vec<u8>) -> (r: i32)
    ensures
        r as int == natural_cmp(a@, b@),
        -1 <= r <= 1,
{
    let ra = tokenize(a);
    let rb = tokenize(b);
    let mut k: usize = 0;
    proof {
        assert(deep(ra@).skip(0) =~= deep(ra@));
        assert(deep(rb@).skip(0) =~= deep(rb@));
    }
    loop
        invariant
            k <= ra@.len(),
            k <= rb@.len(),
            deep(ra@) == runs(a@),
            deep(rb@) == runs(b@),
            runs_cmp(runs(a@), runs(b@)) == runs_cmp(
                deep(ra@).skip(k as int),
                deep(rb@).skip(k as int),
            ),
        decreases ra@.len() - k,
    {
        let ghost xs = deep(ra@).skip(k as int);
        let ghost ys = deep(rb@).skip(k as int);
        if k >= ra.len() && k >= rb.len() {
            proof {
                assert(xs.len() == 0 && ys.len() == 0);
            }
            return 0;
        }
        if k >= ra.len() {
            proof {
                assert(xs.len() == 0 && ys.len() > 0);
            }
            return -1;
        }
        if k >= rb.len() {
            proof {
                assert(ys.len() == 0 && xs.len() > 0);
            }
            return 1;
        }
        proof {
            lemma_runs_nonempty(a@);
            lemma_runs_nonempty(b@);
            lemma_runs_uniform(a@);
            lemma_runs_uniform(b@);
            assert(xs[0] == ra@[k as int]@);
            assert(ys[0] == rb@[k as int]@);
            assert(runs(a@)[k as int] == deep(ra@)[k as int]);
            assert(runs(b@)[k as int] == deep(rb@)[k as int]);
        }
        let c = cmp_runs_exec(&ra[k], &rb[k]);
        if c != 0 {
            return c;
        }
        proof {
            assert(xs.drop_first() =~= deep(ra@).skip(k as int + 1));
            assert(ys.drop_first() =~= deep(rb@).skip(k as int + 1));
        }
        k += 1;
    }
}

/// `s` is sorted by the natural order.
pub open spec fn sorted_natural(s: Seq<Seq<u8>>) -> bool {
    forall|i: int, j: int| 0 <= i < j < s.len() ==> natural_le(#[trigger] s[i], #[trigger] s[j])
}

/// `s` is sorted byte-wise (plain lexicographic order).
pub open spec fn sorted_lex(s: Seq<Seq<u8>>) -> bool {
    forall|i: int, j: int| 0 <= i < j < s.len() ==> bytes_cmp(#[trigger] s[i], #[trigger] s[j])
        <= 0
}

/// Three-way byte-wise comparison of two byte strings.
pub fn compare_lex(a: &Vec<u8>, b: &Vec<u8>) -> (r: i32)
    ensures
        r as int == bytes_cmp(a@, b@),
        -1 <= r <= 1,
{
    let r = cmp_suffix_bytes(a, 0, b, 0);
    proof {
        assert(a@.skip(0) =~= a@);
        assert(b@.skip(0) =~= b@);
    }
    r
}

/// Inserting into a sequence inserts into its multiset.
proof fn lemma_insert_to_multiset(s: Seq<Seq<u8>>, pos: int, x: Seq<u8>)
    requires
        0 <= pos <= s.len(),
    ensures
        s.insert(pos, x).to_multiset() == s.to_multiset().insert(x),
{
    broadcast use vstd::seq_lib::group_to_multiset_ensures;
    broadcast use vstd::multiset::group_multiset_axioms;

    let a = s.subrange(0, pos);
    let b = s.subrange(pos, s.len() as int);
    assert(s.insert(pos, x) == a.push(x) + b);
    vstd::seq_lib::lemma_multiset_commutative(a.push(x), b);
    vstd::seq_lib::lemma_multiset_commutative(a, b);
    assert(s =~= a + b);
    assert(s.insert(pos, x).to_multiset() =~= s.to_multiset().insert(x));
}

/// Inserts `x` into a vector sorted by the natural order, keeping it
/// sorted.
fn insert_natural(out: &mut Vec<Vec<u8>>, x: Vec<u8>)
    requires
        sorted_natural(deep(old(out)@)),
    ensures
        sorted_natural(deep(final(out)@)),
        deep(final(out)@).to_multiset() == deep(old(out)@).to_multiset().insert(x@),
{
    let n = out.len();
    let mut pos: usize = 0;
    loop
        invariant
            n == out@.len(),
            out@ == old(out)@,
            pos <= n,
            forall|k: int| 0 <= k < pos ==> natural_cmp(deep(out@)[k], x@) <= 0,
        ensures
            out@ == old(out)@,
            pos <= out@.len(),
            forall|k: int| 0 <= k < pos ==> natural_cmp(deep(out@)[k], x@) <= 0,
            pos < out@.len() ==> natural_cmp(deep(out@)[pos as int], x@) > 0,
        decreases n - pos,
    {
        if pos >= n {
            break ;
        }
        let c = compare_natural(&out[pos], &x);
        proof {
            assert(deep(out@)[pos as int] == out@[pos as int]@);
        }
        if c > 0 {
            break ;
        }
        pos += 1;
    }
    let ghost prev = deep(out@);
    out.insert(pos, x);
    proof {
        assert(deep(out@) =~= prev.insert(pos as int, x@));
        lemma_insert_to_multiset(prev, pos as int, x@);
        prev.insert_ensures(pos as int, x@);
        let d = deep(out@);
        assert forall|i: int, j: int| 0 <= i < j < d.len() implies natural_le(d[i], d[j]) by {
            if j < pos {
                assert(d[i] == prev[i] && d[j] == prev[j]);
            } else if i > pos {
                assert(d[i] == prev[i - 1] && d[j] == prev[j - 1]);
            } else if i < pos && j == pos {
                assert(d[i] == prev[i] && d[j] == x@);
            } else if i == pos && j > pos {
                assert(d[i] == x@ && d[j] == prev[j - 1]);
                lemma_natural_total(prev[pos as int], x@);
                if j - 1 > pos {
                    lemma_natural_trans(x@, prev[pos as int], prev[j - 1]);
                }
            } else {
                // i < pos < j
                assert(d[i] == prev[i] && d[j] == prev[j - 1]);
                if i < j - 1 {
                } else {
                    assert(i == pos - 1 && j == pos + 1 && j - 1 == pos);
                    assert(natural_le(prev[i], prev[j - 1]));
                }
            }
        }
    }
}

/// Sorts byte strings into the natural order. This is the ordering of
/// every episode listing: the result is a permutation of the input,
/// arranged so `ep2` comes before `ep10`.
pub fn sort_natural(v: Vec<Vec<u8>>) -> (r: Vec<Vec<u8>>)
    ensures
        sorted_natural(deep(r@)),
        deep(r@).to_multiset() == deep(v@).to_multiset(),
{
    broadcast use vstd::seq_lib::group_to_multiset_ensures;
    broadcast use vstd::multiset::group_multiset_axioms;

    let mut rest = v;
    let mut out: Vec<Vec<u8>> = Vec::new();
    proof {
        assert(deep(out@) =~= Seq::<Seq<u8>>::empty());
        assert(deep(out@).to_multiset().add(deep(rest@).to_multiset()) =~= deep(
            v@,
        ).to_multiset());
    }
    while rest.len() > 0
        invariant
            sorted_natural(deep(out@)),
            deep(out@).to_multiset().add(deep(rest@).to_multiset()) == deep(v@).to_multiset(),
        decreases rest@.len(),
    {
        let ghost dr = deep(rest@);
        let ghost dout = deep(out@);
        let x = rest.pop().unwrap();
        proof {
            broadcast use vstd::multiset::group_multiset_axioms;

            dr.to_multiset_ensures();
            assert(deep(rest@) =~= dr.drop_last());
            assert(dr.drop_last() =~= dr.remove(dr.len() - 1));
            assert(x@ == dr[dr.len() - 1]);
            assert(dr.remove(dr.len() - 1).to_multiset() =~= dr.to_multiset().remove(
                dr[dr.len() - 1],
            ));
            assert(dr.contains(dr[dr.len() - 1]));
            assert(dr.to_multiset().count(x@) > 0);
            assert(deep(rest@).to_multiset() =~= dr.to_multiset().remove(x@));
        }
        insert_natural(&mut out, x);
        proof {
            broadcast use vstd::multiset::group_multiset_axioms;

            assert(deep(out@).to_multiset().add(deep(rest@).to_multiset()) =~= dout.to_multiset().add(
                dr.to_multiset(),
            ));
        }
    }
    proof {
        assert(deep(rest@) =~= Seq::<Seq<u8>>::empty());
        assert(deep(out@).to_multiset().add(deep(rest@).to_multiset()) =~= deep(
            out@,
        ).to_multiset());
    }
    out
}

/// Inserts `x` into a vector sorted byte-wise, keeping it sorted.
fn insert_lex(out: &mut Vec<Vec<u8>>, x: Vec<u8>)
    requires
        sorted_lex(deep(old(out)@)),
    ensures
        sorted_lex(deep(final(out)@)),
        deep(final(out)@).to_multiset() == deep(old(out)@).to_multiset().insert(x@),
{
    let n = out.len();
    let mut pos: usize = 0;
    loop
        invariant
            n == out@.len(),
            out@ == old(out)@,
            pos <= n,
            forall|k: int| 0 <= k < pos ==> bytes_cmp(deep(out@)[k], x@) <= 0,
        ensures
            out@ == old(out)@,
            pos <= out@.len(),
            forall|k: int| 0 <= k < pos ==> bytes_cmp(deep(out@)[k], x@) <= 0,
            pos < out@.len() ==> bytes_cmp(deep(out@)[pos as int], x@) > 0,
        decreases n - pos,
    {
        if pos >= n {
            break ;
        }
        let c = compare_lex(&out[pos], &x);
        proof {
            assert(deep(out@)[pos as int] == out@[pos as int]@);
        }
        if c > 0 {
            break ;
        }
        pos += 1;
    }
    let ghost prev = deep(out@);
    out.insert(pos, x);
    proof {
        assert(deep(out@) =~= prev.insert(pos as int, x@));
        lemma_insert_to_multiset(prev, pos as int, x@);
        prev.insert_ensures(pos as int, x@);
        let d = deep(out@);
        assert forall|i: int, j: int| 0 <= i < j < d.len() implies bytes_cmp(d[i], d[j]) <= 0 by {
            if j < pos {
                assert(d[i] == prev[i] && d[j] == prev[j]);
            } else if i > pos {
                assert(d[i] == prev[i - 1] && d[j] == prev[j - 1]);
            } else if i < pos && j == pos {
                assert(d[i] == prev[i] && d[j] == x@);
            } else if i == pos && j > pos {
                assert(d[i] == x@ && d[j] == prev[j - 1]);
                lemma_bytes_cmp_flip(prev[pos as int], x@);
                if j - 1 > pos {
                    lemma_bytes_cmp_trans(x@, prev[pos as int], prev[j - 1]);
                }
            } else {
                assert(d[i] == prev[i] && d[j] == prev[j - 1]);
                if i < j - 1 {
                } else {
                    assert(bytes_cmp(prev[i], prev[j - 1]) <= 0);
                }
            }
        }
    }
}

/// Sorts byte strings byte-wise: the plain alphabetical order used for
/// show keys that the declared ordering does not mention.
pub fn sort_lex(v: Vec<Vec<u8>>) -> (r: Vec<Vec<u8>>)
    ensures
        sorted_lex(deep(r@)),
        deep(r@).to_multiset() == deep(v@).to_multiset(),
{
    broadcast use vstd::seq_lib::group_to_multiset_ensures;
    broadcast use vstd::multiset::group_multiset_axioms;

    let mut rest = v;
    let mut out: Vec<Vec<u8>> = Vec::new();
    proof {
        assert(deep(out@) =~= Seq::<Seq<u8>>::empty());
        assert(deep(out@).to_multiset().add(deep(rest@).to_multiset()) =~= deep(
            v@,
        ).to_multiset());
    }
    while rest.len() > 0
        invariant
            sorted_lex(deep(out@)),
            deep(out@).to_multiset().add(deep(rest@).to_multiset()) == deep(v@).to_multiset(),
        decreases rest@.len(),
    {
        let ghost dr = deep(rest@);
        let ghost dout = deep(out@);
        let x = rest.pop().unwrap();
        proof {
            broadcast use vstd::multiset::group_multiset_axioms;

            dr.to_multiset_ensures();
            assert(deep(rest@) =~= dr.drop_last());
            assert(dr.drop_last() =~= dr.remove(dr.len() - 1));
            assert(x@ == dr[dr.len() - 1]);
            assert(dr.remove(dr.len() - 1).to_multiset() =~= dr.to_multiset().remove(
                dr[dr.len() - 1],
            ));
            assert(dr.contains(dr[dr.len() - 1]));
            assert(dr.to_multiset().count(x@) > 0);
            assert(deep(rest@).to_multiset() =~= dr.to_multiset().remove(x@));
        }
        insert_lex(&mut out, x);
        proof {
            broadcast use vstd::multiset::group_multiset_axioms;

            assert(deep(out@).to_multiset().add(deep(rest@).to_multiset()) =~= dout.to_multiset().add(
                dr.to_multiset(),
            ));
        }
    }
    proof {
        assert(deep(rest@) =~= Seq::<Seq<u8>>::empty());
        assert(deep(out@).to_multiset().add(deep(rest@).to_multiset()) =~= deep(
            out@,
        ).to_multiset());
    }
    out
}

} // verus!
