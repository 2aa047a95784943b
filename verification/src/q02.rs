//! Engraving: a number of two parts is squared, divided and added to over and over, and
//! the points of a grid are counted for which the numbers stay small.

use crate::text::{find_byte, first_index, parse_token, token_value};
use vstd::prelude::*;
use vstd::string::StringSliceAdditionalSpecFns;

verus! {

/// A number with a real and an imaginary part.
#[derive(Clone, Copy, Debug, PartialEq, Eq, Structural)]
pub struct Complex {
    /// The real part.
    pub re: i64,
    /// The imaginary part.
    pub im: i64,
}

/// The divisor of the first question.
pub const P1_DIV: i64 = 10;

/// The divisor of the grid questions.
pub const P2_DIV: i64 = 100_000;

/// The side of the grid: the last point lies this far from the first.
pub const P2_OFF: i64 = 1_000;

/// The distance between the points of the coarse grid.
pub const P2_STEP: usize = 10;

/// The distance between the points of the fine grid.
pub const P3_STEP: usize = 1;

/// The number of cycles that a point of the grid must last.
pub const P2_CYCLES: usize = 100;

/// The part lies within the limit: from -1000000 to 1000000.
pub open spec fn in_limit(v: int) -> bool {
    -1_000_000 <= v <= 1_000_000
}

/// The quotient rounded towards zero, as division of machine integers gives it.
pub open spec fn truncated_div(a: int, d: int) -> int {
    if d > 0 {
        if a >= 0 {
            a / d
        } else {
            -((-a) / d)
        }
    } else {
        if a >= 0 {
            -(a / (-d))
        } else {
            (-a) / (-d)
        }
    }
}

/// The real part of one cycle: of `x * x / div + i`.
pub open spec fn cycle_re(x: Complex, i: Complex, div: int) -> int {
    truncated_div(x.re * x.re - x.im * x.im, div) + i.re
}

/// The imaginary part of one cycle: of `x * x / div + i`.
pub open spec fn cycle_im(x: Complex, i: Complex, div: int) -> int {
    truncated_div(x.re * x.im + x.im * x.re, div) + i.im
}

/// The number after `cycles` cycles from zero, each cycle taking `x` to `x * x / div + i`.
/// `None` as soon as a part of the number leaves the limit.
pub open spec fn spec_p1(i: Complex, cycles: nat, div: int) -> Option<Complex>
    decreases cycles,
{
    if cycles == 0 {
        Some(Complex { re: 0, im: 0 })
    } else {
        match spec_p1(i, (cycles - 1) as nat, div) {
            Some(x) => if in_limit(cycle_re(x, i, div)) && in_limit(cycle_im(x, i, div)) {
                Some(Complex { re: cycle_re(x, i, div) as i64, im: cycle_im(x, i, div) as i64 })
            } else {
                None
            },
            None => None,
        }
    }
}

/// The point can be engraved: it lasts the cycles of the grid.
pub open spec fn engraved(re: int, im: int) -> bool {
    spec_p1(Complex { re: re as i64, im: im as i64 }, P2_CYCLES as nat, P2_DIV as int) is Some
}

/// The number of points of a row of the grid, from the offset `from` on, that can be
/// engraved. The points of a row lie `step` apart, the last at most 1000 from the first.
pub open spec fn row_count(start: Complex, step: int, im: int, from: int) -> int
    decreases 1_001 - from,
{
    if from > 1_000 || from < 0 || step <= 0 {
        0
    } else {
        (if engraved(start.re + from, im) {
            1int
        } else {
            0int
        }) + if from + step <= 1_000 {
            row_count(start, step, im, from + step)
        } else {
            0
        }
    }
}

/// The number of points of the grid, from the row at offset `from` on, that can be
/// engraved.
pub open spec fn grid_count(start: Complex, step: int, from: int) -> int
    decreases 1_001 - from,
{
    if from > 1_000 || from < 0 || step <= 0 {
        0
    } else {
        row_count(start, step, start.im + from, 0) + if from + step <= 1_000 {
            grid_count(start, step, from + step)
        } else {
            0
        }
    }
}

/// The token is a number without a plus sign: an optional `-` and decimal digits.
pub open spec fn plain_value(t: Seq<u8>) -> Option<i64> {
    if t.len() > 0 && t[0] == 0x2b {
        None
    } else {
        token_value(t)
    }
}

/// The number of opening brackets at the start of `s`.
pub open spec fn leading_brackets(s: Seq<u8>) -> int
    decreases s.len(),
{
    if s.len() == 0 || s[0] != 0x5b {
        0
    } else {
        1 + leading_brackets(s.drop_first())
    }
}

/// The number that the text stands for: `A=`, any number of opening brackets, the real
/// part, a comma, the imaginary part and one closing bracket, as in `A=[25,9]`. `None`
/// for any other text.
pub open spec fn spec_parse(inp: Seq<u8>) -> Option<Complex> {
    if inp.len() >= 3 && inp[0] == 0x41 && inp[1] == 0x3d && inp.last() == 0x5d {
        let open = leading_brackets(inp.skip(2));
        let body = inp.subrange(2 + open, inp.len() - 1);
        let comma = first_index(body, 0x2c);
        if 2 + open <= inp.len() - 1 && comma < body.len() && plain_value(body.take(comma)) is Some
            && plain_value(body.skip(comma + 1)) is Some {
            Some(
                Complex {
                    re: plain_value(body.take(comma)).unwrap(),
                    im: plain_value(body.skip(comma + 1)).unwrap(),
                },
            )
        } else {
            None
        }
    } else {
        None
    }
}

/// Once a part has left the limit, no number follows.
pub proof fn lemma_p1_stays_none(i: Complex, early: nat, late: nat, div: int)
    requires
        early <= late,
        spec_p1(i, early, div) is None,
    ensures
        spec_p1(i, late, div) is None,
    decreases late,
{
    if early < late {
        lemma_p1_stays_none(i, early, (late - 1) as nat, div);
    }
}

/// The brackets at the start of `s` are those before the first byte that is none.
proof fn lemma_leading_brackets(s: Seq<u8>, k: int)
    requires
        0 <= k <= s.len(),
        forall|j: int| 0 <= j < k ==> s[j] == 0x5b,
        k == s.len() || s[k] != 0x5b,
    ensures
        leading_brackets(s) == k,
    decreases s.len(),
{
    if k > 0 {
        lemma_leading_brackets(s.drop_first(), k - 1);
    }
}

/// The product of two numbers, by `Mul` of `num::Complex`. The contract is not proved
/// but taken from that crate: the real part is `a.re * b.re - a.im * b.im`, the imaginary
/// part `a.re * b.im + a.im * b.re`. The four products and the two results must be
/// within `i64`.
#[verifier::external_body]
fn complex_mul(a: Complex, b: Complex) -> (r: Complex)
    requires
        i64::MIN <= a.re * b.re <= i64::MAX,
        i64::MIN <= a.im * b.im <= i64::MAX,
        i64::MIN <= a.re * b.im <= i64::MAX,
        i64::MIN <= a.im * b.re <= i64::MAX,
        i64::MIN <= a.re * b.re - a.im * b.im <= i64::MAX,
        i64::MIN <= a.re * b.im + a.im * b.re <= i64::MAX,
    ensures
        r.re == a.re * b.re - a.im * b.im,
        r.im == a.re * b.im + a.im * b.re,
{
    let c = num::Complex::new(a.re, a.im) * num::Complex::new(b.re, b.im);
    Complex { re: c.re, im: c.im }
}

/// The quotient of a number by an integer, by `Div<T>` of `num::Complex`. The contract
/// is not proved but taken from that crate: each part is divided, rounding towards zero.
/// The divisor must not be 0, nor -1 where a part is the least `i64`.
#[verifier::external_body]
fn complex_div(a: Complex, d: i64) -> (r: Complex)
    requires
        d != 0,
        d != -1 || (a.re != i64::MIN && a.im != i64::MIN),
    ensures
        r.re == truncated_div(a.re as int, d as int),
        r.im == truncated_div(a.im as int, d as int),
{
    let c = num::Complex::new(a.re, a.im) / d;
    Complex { re: c.re, im: c.im }
}

/// The sum of two numbers, by `Add` of `num::Complex`. The contract is not proved but
/// taken from that crate: the parts are added one by one. Both sums must be within `i64`.
#[verifier::external_body]
fn complex_add(a: Complex, b: Complex) -> (r: Complex)
    requires
        i64::MIN <= a.re + b.re <= i64::MAX,
        i64::MIN <= a.im + b.im <= i64::MAX,
    ensures
        r.re == a.re + b.re,
        r.im == a.im + b.im,
{
    let c = num::Complex::new(a.re, a.im) + num::Complex::new(b.re, b.im);
    Complex { re: c.re, im: c.im }
}

/// Reads a number from a text such as `A=[25,9]`: `A=`, any number of opening brackets,
/// the real part, a comma, the imaginary part and one closing bracket. Each part is an
/// optional `-` and decimal digits, within `i64`. Gives `None` for any other text.
pub fn parse(inp: &str) -> (r: Option<Complex>)
    ensures
        r == spec_parse(inp.spec_bytes()),
{
    let bytes = inp.as_bytes();
    let len = bytes.len();
    if len < 3 || bytes[0] != 0x41 || bytes[1] != 0x3d || bytes[len - 1] != 0x5d {
        return None;
    }
    let ghost tail = bytes@.skip(2);
    let mut from: usize = 2;
    while from < len - 1 && bytes[from] == 0x5b
        invariant
            2 <= from <= len - 1,
            len == bytes.len(),
            tail == bytes@.skip(2),
            forall|j: int| 0 <= j < from - 2 ==> tail[j] == 0x5b,
        decreases len - from,
    {
        from += 1;
    }
    proof {
        assert(tail[from - 2] == bytes@[from as int]);
        lemma_leading_brackets(tail, from - 2);
    }
    let ghost body = bytes@.subrange(from as int, len - 1);
    let comma = find_byte(bytes, from, len - 1, 0x2c);
    if comma == len - 1 {
        return None;
    }
    proof {
        assert(body.take(comma - from) =~= bytes@.subrange(from as int, comma as int));
        assert(body.skip(comma - from + 1) =~= bytes@.subrange(comma + 1, len - 1));
    }
    if bytes[from] == 0x2b || bytes[comma + 1] == 0x2b {
        assert(body.take(comma - from).len() > 0 ==> body.take(comma - from)[0]
            == bytes@[from as int]);
        assert(body.skip(comma - from + 1).len() > 0 ==> body.skip(comma - from + 1)[0]
            == bytes@[comma + 1]);
        if comma + 1 == len - 1 {
            assert(token_value(body.skip(comma - from + 1)) is None);
        }
        return None;
    }
    assert(body.take(comma - from).len() > 0 ==> body.take(comma - from)[0] == bytes@[from as int]);
    assert(body.skip(comma - from + 1).len() > 0 ==> body.skip(comma - from + 1)[0]
        == bytes@[comma + 1]);
    let re = match parse_token(bytes, from, comma) {
        Some(re) => re,
        None => {
            return None;
        },
    };
    let im = match parse_token(bytes, comma + 1, len - 1) {
        Some(im) => im,
        None => {
            return None;
        },
    };
    Some(Complex { re, im })
}

/// Runs `cycles` cycles from zero, each taking `x` to `x * x / div + i`, and gives the
/// number reached. Gives `None` where a part of a number leaves the limit on the way.
pub fn p1(i: Complex, cycles: usize, div: i64) -> (r: Option<Complex>)
    requires
        div != 0,
    ensures
        r == spec_p1(i, cycles as nat, div as int),
{
    let mut x = Complex { re: 0, im: 0 };
    let mut k: usize = 0;
    while k < cycles
        invariant
            0 <= k <= cycles,
            div != 0,
            spec_p1(i, k as nat, div as int) == Some(x),
            in_limit(x.re as int),
            in_limit(x.im as int),
        decreases cycles - k,
    {
        proof {
            let (a, b) = (x.re as int, x.im as int);
            assert(-1_000_000_000_000 <= a * a <= 1_000_000_000_000 && -1_000_000_000_000 <= b
                * b <= 1_000_000_000_000 && -1_000_000_000_000 <= a * b <= 1_000_000_000_000
                && a * b == b * a) by (nonlinear_arith)
                requires
                    -1_000_000 <= a <= 1_000_000,
                    -1_000_000 <= b <= 1_000_000,
            ;
        }
        let square = complex_mul(x, x);
        let quotient = complex_div(square, div);
        let fits = quotient.re.checked_add(i.re).is_some() && quotient.im.checked_add(
            i.im,
        ).is_some();
        if !fits {
            proof {
                lemma_p1_stays_none(i, (k + 1) as nat, cycles as nat, div as int);
            }
            return None;
        }
        let next = complex_add(quotient, i);
        if next.re < -1_000_000 || next.re > 1_000_000 || next.im < -1_000_000 || next.im
            > 1_000_000 {
            proof {
                lemma_p1_stays_none(i, (k + 1) as nat, cycles as nat, div as int);
            }
            return None;
        }
        x = next;
        k += 1;
    }
    Some(x)
}

/// Counts the points of a row of the grid that can be engraved.
fn count_row(start: Complex, step: usize, im: i64) -> (count: usize)
    requires
        step > 0,
        start.re + P2_OFF <= i64::MAX,
    ensures
        count == row_count(start, step as int, im as int, 0),
        count <= 1_001,
{
    let mut count: usize = 0;
    let mut off: usize = 0;
    loop
        invariant
            step > 0,
            start.re + P2_OFF <= i64::MAX,
            0 <= off <= P2_OFF,
            count <= off,
            row_count(start, step as int, im as int, 0) == count + row_count(
                start,
                step as int,
                im as int,
                off as int,
            ),
        decreases P2_OFF + 1 - off,
    {
        let point = Complex { re: start.re + off as i64, im };
        if p1(point, P2_CYCLES, P2_DIV).is_some() {
            count += 1;
        }
        if step > P2_OFF as usize - off {
            return count;
        }
        off += step;
    }
}

/// Counts the points of the grid that can be engraved. The grid starts at `start` and
/// reaches `P2_OFF` to the right and upwards; its points lie `step` apart.
pub fn p2(start: Complex, step: usize) -> (count: usize)
    requires
        step > 0,
        start.re + P2_OFF + 1 <= i64::MAX,
        start.im + P2_OFF + 1 <= i64::MAX,
    ensures
        count == grid_count(start, step as int, 0),
{
    let mut count: usize = 0;
    let mut off: usize = 0;
    loop
        invariant
            step > 0,
            start.re + P2_OFF + 1 <= i64::MAX,
            start.im + P2_OFF + 1 <= i64::MAX,
            0 <= off <= P2_OFF,
            count <= off * 1_001,
            grid_count(start, step as int, 0) == count + grid_count(start, step as int, off as int),
        decreases P2_OFF + 1 - off,
    {
        let row = count_row(start, step, start.im + off as i64);
        count += row;
        if step > P2_OFF as usize - off {
            return count;
        }
        off += step;
    }
}

} // verus!
