//! Decimal concatenation of non-negative integers.

use vstd::arithmetic::power::{
    lemma_pow0, lemma_pow_adds, lemma_pow_increases, lemma_pow_positive,
    lemma_pow_strictly_increases, pow,
};
use vstd::prelude::*;

verus! {

/// Number of decimal digits of a non-negative integer; `0` is written with one digit.
pub open spec fn digit_count(v: int) -> nat
    decreases v,
{
    if v < 10 {
        1
    } else {
        1 + digit_count(v / 10)
    }
}

/// The number written as the digits of `acc` followed by the digits of `v`.
pub open spec fn append_digits(acc: int, v: int) -> int {
    acc * pow(10, digit_count(v)) + v
}

/// The number written by the digit strings of `s` one after the other, left to right.
/// The empty sequence gives `0`, and leading zeros do not count.
pub open spec fn concat_digits(s: Seq<i64>) -> int
    decreases s.len(),
{
    if s.len() == 0 {
        0
    } else {
        append_digits(concat_digits(s.drop_last()), s.last() as int)
    }
}

/// No element of `s` is negative, so each one has a digit string.
pub open spec fn all_non_negative(s: Seq<i64>) -> bool {
    forall|i: int| 0 <= i < s.len() ==> s[i] >= 0
}

/// The concatenation of `s` is defined and can be held in an `i64`.
pub open spec fn concat_fits(s: Seq<i64>) -> bool {
    all_non_negative(s) && concat_digits(s) <= i64::MAX
}

/// A number between two consecutive powers of ten has as many digits as the upper exponent.
pub proof fn lemma_digit_count_between(v: int, k: nat)
    requires
        k >= 1,
        0 <= v < pow(10, k),
        k == 1 || pow(10, (k - 1) as nat) <= v,
    ensures
        digit_count(v) == k,
    decreases k,
{
    reveal(pow);
    if k == 1 {
        assert(pow(10, 1) == 10 * pow(10, 0));
        lemma_pow0(10);
    } else {
        let j = (k - 1) as nat;
        assert(pow(10, k) == 10 * pow(10, j));
        assert(pow(10, j) >= 10) by {
            assert(pow(10, j) == 10 * pow(10, (j - 1) as nat));
            lemma_pow_positive(10, (j - 1) as nat);
        }
        assert(v >= 10);
        assert(v / 10 < pow(10, j));
        if j > 1 {
            assert(pow(10, j) == 10 * pow(10, (j - 1) as nat));
            assert(pow(10, (j - 1) as nat) <= v / 10);
        }
        lemma_digit_count_between(v / 10, j);
    }
}

/// Appending digits to a non-negative number never makes it smaller.
pub proof fn lemma_append_grows(acc: int, v: int)
    requires
        acc >= 0,
        v >= 0,
    ensures
        append_digits(acc, v) >= acc,
        append_digits(acc, v) >= v,
{
    let p = pow(10, digit_count(v));
    lemma_pow_positive(10, digit_count(v));
    assert(acc * p >= acc) by (nonlinear_arith)
        requires
            acc >= 0,
            p >= 1,
    ;
}

/// The concatenation of non-negative numbers is non-negative.
pub proof fn lemma_concat_non_negative(s: Seq<i64>)
    requires
        all_non_negative(s),
    ensures
        concat_digits(s) >= 0,
    decreases s.len(),
{
    if s.len() > 0 {
        lemma_concat_non_negative(s.drop_last());
        lemma_append_grows(concat_digits(s.drop_last()), s.last() as int);
    }
}

/// Every prefix of a sequence of non-negative numbers concatenates to at most
/// what the whole sequence does.
pub proof fn lemma_concat_prefix_le(s: Seq<i64>, k: int)
    requires
        all_non_negative(s),
        0 <= k <= s.len(),
    ensures
        0 <= concat_digits(s.take(k)) <= concat_digits(s),
    decreases s.len() - k,
{
    lemma_concat_non_negative(s.take(k));
    if k == s.len() {
        assert(s.take(k) =~= s);
    } else {
        lemma_concat_prefix_le(s, k + 1);
        let t = s.take(k + 1);
        assert(t.drop_last() =~= s.take(k));
        lemma_append_grows(concat_digits(s.take(k)), t.last() as int);
    }
}

/// The number of decimal digits of all the numbers of `s` together.
pub open spec fn total_digits(s: Seq<i64>) -> nat
    decreases s.len(),
{
    if s.len() == 0 {
        0
    } else {
        total_digits(s.drop_last()) + digit_count(s.last() as int)
    }
}

/// A non-negative number is less than ten to the number of its digits.
pub proof fn lemma_below_digit_power(v: int)
    requires
        v >= 0,
    ensures
        v < pow(10, digit_count(v)),
    decreases v,
{
    reveal(pow);
    if v < 10 {
        assert(pow(10, 1) == 10 * pow(10, 0));
    } else {
        lemma_below_digit_power(v / 10);
        assert(pow(10, digit_count(v)) == 10 * pow(10, digit_count(v / 10)));
    }
}

/// The concatenation of non-negative numbers is less than ten to the number of their
/// digits.
pub proof fn lemma_concat_below_power(s: Seq<i64>)
    requires
        all_non_negative(s),
    ensures
        0 <= concat_digits(s) < pow(10, total_digits(s)),
    decreases s.len(),
{
    reveal(pow);
    if s.len() > 0 {
        let front = s.drop_last();
        let v = s.last() as int;
        lemma_concat_below_power(front);
        lemma_below_digit_power(v);
        let acc = concat_digits(front);
        let high = pow(10, total_digits(front));
        let low = pow(10, digit_count(v));
        lemma_pow_adds(10, total_digits(front), digit_count(v));
        assert(0 <= acc * low + v < high * low) by (nonlinear_arith)
            requires
                0 <= acc < high,
                0 <= v < low,
        ;
    }
}

/// Numbers of at most 18 digits together can always be concatenated: whatever the
/// numbers, the result fits in an `i64`.
pub proof fn lemma_eighteen_digits_fit(s: Seq<i64>)
    requires
        all_non_negative(s),
        total_digits(s) <= 18,
    ensures
        concat_fits(s),
{
    lemma_concat_below_power(s);
    lemma_pow_increases(10, total_digits(s), 18);
    assert(pow(10, 18) == 1_000_000_000_000_000_000) by {
        reveal_with_fuel(pow, 19);
    }
}

/// Ten to the number of digits of `v`, for `v >= 0`.
fn digit_shift(v: i64) -> (p: i128)
    requires
        v >= 0,
    ensures
        p == pow(10, digit_count(v as int)),
        10 <= p <= 10_000_000_000_000_000_000,
{
    let mut p: i128 = 10;
    let ghost mut k: nat = 1;
    proof {
        reveal(pow);
        assert(pow(10, 1) == 10 * pow(10, 0));
    }
    while p <= v as i128
        invariant
            v >= 0,
            k >= 1,
            p == pow(10, k),
            k == 1 || pow(10, (k - 1) as nat) <= v,
            10 <= p,
            p <= 10 * (v as int) || p == 10,
        decreases 10 * (v as int) + 10 - p,
    {
        proof {
            reveal(pow);
            assert(pow(10, k + 1) == 10 * pow(10, k));
        }
        p = p * 10;
        proof {
            k = k + 1;
        }
    }
    proof {
        lemma_digit_count_between(v as int, k);
        lemma_pow19();
        if k > 19 {
            lemma_pow_increases(10, 19, (k - 1) as nat);
        } else if k < 19 {
            lemma_pow_strictly_increases(10, k, 19);
        }
    }
    p
}

/// Appends the digits of `v` to `acc`, or gives `None` where the result is too large for an `i64`.
fn checked_append(acc: i64, v: i64) -> (r: Option<i64>)
    requires
        acc >= 0,
        v >= 0,
    ensures
        match r {
            Some(w) => w == append_digits(acc as int, v as int),
            None => append_digits(acc as int, v as int) > i64::MAX,
        },
{
    let p = digit_shift(v);
    if acc == 0 {
        assert(0 * p == 0) by (nonlinear_arith);
        return Some(v);
    }
    if p > i64::MAX as i128 {
        assert(acc * p > i64::MAX) by (nonlinear_arith)
            requires
                acc >= 1,
                p > i64::MAX,
        ;
        return None;
    }
    assert(0 <= acc * p <= i64::MAX * i64::MAX) by (nonlinear_arith)
        requires
            0 <= acc <= i64::MAX,
            0 <= p <= i64::MAX,
    ;
    let w: i128 = acc as i128 * p + v as i128;
    if w > i64::MAX as i128 {
        None
    } else {
        Some(w as i64)
    }
}

/// Concatenates the decimal digit strings of the numbers in `s`, left to right, into one
/// number. Gives `None` where a number is negative or the result does not fit in an `i64`.
pub fn checked_fold_concat(s: &[i64]) -> (r: Option<i64>)
    ensures
        r is Some <==> concat_fits(s@),
        r is Some ==> r.unwrap() == concat_digits(s@),
{
    let mut acc: i64 = 0;
    let mut i: usize = 0;
    assert(s@.take(0) =~= Seq::<i64>::empty());
    while i < s.len()
        invariant
            0 <= i <= s.len(),
            0 <= acc,
            acc == concat_digits(s@.take(i as int)),
            all_non_negative(s@.take(i as int)),
        decreases s.len() - i,
    {
        let v = s[i];
        if v < 0 {
            return None;
        }
        proof {
            let t = s@.take(i + 1);
            assert(t.drop_last() =~= s@.take(i as int));
            assert(t.last() == v);
            assert(all_non_negative(t)) by {
                assert forall|j: int| 0 <= j < t.len() implies t[j] >= 0 by {
                    if j < i {
                        assert(s@.take(i as int)[j] == t[j]);
                    }
                }
            }
        }
        match checked_append(acc, v) {
            Some(w) => {
                proof {
                    lemma_append_grows(acc as int, v as int);
                }
                acc = w;
            },
            None => {
                proof {
                    if all_non_negative(s@) {
                        lemma_concat_prefix_le(s@, i + 1);
                    }
                }
                return None;
            },
        }
        i += 1;
    }
    assert(s@.take(i as int) =~= s@);
    Some(acc)
}

/// Concatenates the decimal digit strings of the numbers in `s`, left to right, into one
/// number: `[12, 7]` gives `127`. No number may be negative, and the result must fit in
/// an `i64`, which it does whenever the numbers have at most 18 digits together.
pub fn fold_concat(s: &[i64]) -> (r: i64)
    requires
        concat_fits(s@),
    ensures
        r == concat_digits(s@),
{
    checked_fold_concat(s).unwrap()
}

proof fn lemma_pow19()
    ensures
        pow(10, 19) == 10_000_000_000_000_000_000,
{
    reveal_with_fuel(pow, 20);
}

} // verus!
