//! Text as bytes: splitting at a separator and reading decimal integers.

use vstd::prelude::*;
use vstd::string::StringSliceAdditionalSpecFns;
use vstd::utf8::{
    encode_utf8_valid_utf8, is_char_boundary, is_char_boundary_iff_not_is_continuation_byte,
};

verus! {

/// The byte is an ASCII decimal digit.
pub open spec fn is_digit(b: u8) -> bool {
    0x30 <= b <= 0x39
}

/// Every byte of `s` is a decimal digit.
pub open spec fn all_digits(s: Seq<u8>) -> bool {
    forall|i: int| 0 <= i < s.len() ==> is_digit(#[trigger] s[i])
}

/// The number that a string of decimal digits stands for.
pub open spec fn digits_value(s: Seq<u8>) -> int
    decreases s.len(),
{
    if s.len() == 0 {
        0
    } else {
        10 * digits_value(s.drop_last()) + (s.last() - 0x30)
    }
}

/// The token starts with a sign.
pub open spec fn has_sign(t: Seq<u8>) -> bool {
    t.len() > 0 && (t[0] == 0x2d || t[0] == 0x2b)
}

/// The digits of a token: what follows its sign, or all of it where it has none.
pub open spec fn token_digits(t: Seq<u8>) -> Seq<u8> {
    if has_sign(t) {
        t.skip(1)
    } else {
        t
    }
}

/// The number that a token stands for, whatever its size: an optional `+` or `-`, then
/// one or more decimal digits and nothing else. Any other token gives `None`.
pub open spec fn signed_value(t: Seq<u8>) -> Option<int> {
    let digits = token_digits(t);
    if digits.len() > 0 && all_digits(digits) {
        if t[0] == 0x2d {
            Some(-digits_value(digits))
        } else {
            Some(digits_value(digits))
        }
    } else {
        None
    }
}

/// The number that a token stands for where it is a number within `i64`.
pub open spec fn token_value(t: Seq<u8>) -> Option<i64> {
    match signed_value(t) {
        Some(v) => if i64::MIN <= v <= i64::MAX {
            Some(v as i64)
        } else {
            None
        },
        None => None,
    }
}

/// The index of the first `sep` in `s`, or the length of `s` where it holds none.
pub open spec fn first_index(s: Seq<u8>, sep: u8) -> int
    decreases s.len(),
{
    if s.len() == 0 || s[0] == sep {
        0
    } else {
        1 + first_index(s.drop_first(), sep)
    }
}

/// The pieces of `s` between the occurrences of `sep`, in order. There is one piece more
/// than there are separators, and a piece may be empty.
pub open spec fn split(s: Seq<u8>, sep: u8) -> Seq<Seq<u8>>
    decreases s.len(),
{
    let c = first_index(s, sep);
    if 0 <= c < s.len() {
        seq![s.take(c)] + split(s.skip(c + 1), sep)
    } else {
        seq![s]
    }
}

/// Every piece is a number.
pub open spec fn all_tokens(pieces: Seq<Seq<u8>>) -> bool {
    forall|i: int| 0 <= i < pieces.len() ==> token_value(#[trigger] pieces[i]) is Some
}

/// The numbers that the pieces stand for.
pub open spec fn token_values(pieces: Seq<Seq<u8>>) -> Seq<i64> {
    Seq::new(pieces.len(), |i: int| token_value(pieces[i]).unwrap())
}

/// The first separator is where no separator stands before.
pub proof fn lemma_first_index(s: Seq<u8>, sep: u8, j: int)
    requires
        0 <= j <= s.len(),
        forall|i: int| 0 <= i < j ==> s[i] != sep,
        j == s.len() || s[j] == sep,
    ensures
        first_index(s, sep) == j,
    decreases s.len(),
{
    if j > 0 {
        lemma_first_index(s.drop_first(), sep, j - 1);
    }
}

/// The digits read so far never stand for more than all the digits do.
pub proof fn lemma_digits_value_grows(s: Seq<u8>, k: int)
    requires
        all_digits(s),
        0 <= k <= s.len(),
    ensures
        0 <= digits_value(s.take(k)) <= digits_value(s),
    decreases s.len() - k,
{
    if k == s.len() {
        assert(s.take(k) =~= s);
        lemma_digits_value_non_negative(s);
    } else {
        lemma_digits_value_grows(s, k + 1);
        let t = s.take(k + 1);
        assert(t.drop_last() =~= s.take(k));
        assert(is_digit(s[k]));
        lemma_digits_value_non_negative(s.take(k));
    }
}

/// A string of digits stands for a non-negative number.
pub proof fn lemma_digits_value_non_negative(s: Seq<u8>)
    requires
        all_digits(s),
    ensures
        digits_value(s) >= 0,
    decreases s.len(),
{
    if s.len() > 0 {
        assert(is_digit(s.last()));
        lemma_digits_value_non_negative(s.drop_last());
    }
}

/// Finds the first `sep` in `bytes[from..end]`: its position, or `end` where there is none.
pub fn find_byte(bytes: &[u8], from: usize, end: usize, sep: u8) -> (j: usize)
    requires
        from <= end <= bytes.len(),
    ensures
        from <= j <= end,
        j - from == first_index(bytes@.subrange(from as int, end as int), sep),
        j < end ==> bytes@[j as int] == sep,
{
    let mut j: usize = from;
    while j < end && bytes[j] != sep
        invariant
            from <= j <= end <= bytes.len(),
            forall|i: int| from <= i < j ==> bytes@[i] != sep,
        decreases end - j,
    {
        j += 1;
    }
    proof {
        lemma_first_index(bytes@.subrange(from as int, end as int), sep, j - from);
    }
    j
}

/// Reads the number that `bytes[from..end]` stands for: an optional sign and decimal
/// digits, within `i64`.
pub fn parse_token(bytes: &[u8], from: usize, end: usize) -> (r: Option<i64>)
    requires
        from <= end <= bytes.len(),
    ensures
        r == token_value(bytes@.subrange(from as int, end as int)),
{
    let ghost token = bytes@.subrange(from as int, end as int);
    if from == end {
        return None;
    }
    let negative = bytes[from] == 0x2d;
    let start: usize = if negative || bytes[from] == 0x2b {
        from + 1
    } else {
        from
    };
    let ghost digits = token_digits(token);
    assert(token[0] == bytes@[from as int]);
    assert(digits =~= bytes@.subrange(start as int, end as int));
    if start == end {
        return None;
    }
    let mut acc: i128 = 0;
    let mut i: usize = start;
    assert(digits.take(0) =~= Seq::<u8>::empty());
    while i < end
        invariant
            from <= start <= i <= end <= bytes.len(),
            from < end,
            digits == bytes@.subrange(start as int, end as int),
            digits == token_digits(bytes@.subrange(from as int, end as int)),
            negative == (bytes@.subrange(from as int, end as int)[0] == 0x2d),
            all_digits(digits.take(i - start)),
            acc == digits_value(digits.take(i - start)),
            0 <= acc <= 0x8000_0000_0000_0000,
        decreases end - i,
    {
        let b = bytes[i];
        assert(digits[i - start] == b);
        if b < 0x30 || b > 0x39 {
            assert(!is_digit(digits[i - start]));
            return None;
        }
        proof {
            let t = digits.take(i - start + 1);
            assert(t.drop_last() =~= digits.take(i - start));
            assert(t.last() == b);
            assert forall|j: int| 0 <= j < t.len() implies is_digit(#[trigger] t[j]) by {
                if j < i - start {
                    assert(digits.take(i - start)[j] == t[j]);
                }
            }
        }
        acc = acc * 10 + (b - 0x30) as i128;
        if acc > 0x8000_0000_0000_0000 {
            proof {
                if all_digits(digits) {
                    lemma_digits_value_grows(digits, i - start + 1);
                }
            }
            return None;
        }
        i += 1;
    }
    assert(digits.take(i - start) =~= digits);
    if negative {
        Some((-acc) as i64)
    } else if acc > i64::MAX as i128 {
        None
    } else {
        Some(acc as i64)
    }
}

/// Reads the numbers in `bytes[from..end]`, which stand with commas between them.
pub fn parse_values(bytes: &[u8], from: usize, end: usize) -> (r: Option<Vec<i64>>)
    requires
        from <= end <= bytes.len(),
    ensures
        r is Some <==> all_tokens(split(bytes@.subrange(from as int, end as int), 0x2c)),
        r is Some ==> r.unwrap()@ == token_values(
            split(bytes@.subrange(from as int, end as int), 0x2c),
        ),
{
    let ghost body = bytes@.subrange(from as int, end as int);
    let ghost mut done: Seq<Seq<u8>> = Seq::empty();
    let mut values: Vec<i64> = Vec::new();
    let mut pos: usize = from;
    assert(body.skip(0) =~= body);
    loop
        invariant
            from <= pos <= end <= bytes.len(),
            body == bytes@.subrange(from as int, end as int),
            split(body, 0x2c) == done + split(body.skip(pos - from), 0x2c),
            values@.len() == done.len(),
            forall|i: int|
                0 <= i < done.len() ==> token_value(#[trigger] done[i]) == Some(values@[i]),
        decreases end - pos,
    {
        let j = find_byte(bytes, pos, end, 0x2c);
        let ghost rest = body.skip(pos - from);
        let ghost piece = bytes@.subrange(pos as int, j as int);
        let ghost pieces = split(body, 0x2c);
        proof {
            assert(rest =~= bytes@.subrange(pos as int, end as int));
            assert(rest.take(j - pos) =~= piece);
            assert(pieces[done.len() as int] == piece);
        }
        let value = match parse_token(bytes, pos, j) {
            Some(value) => value,
            None => {
                return None;
            },
        };
        values.push(value);
        if j == end {
            proof {
                assert(pieces =~= done.push(piece));
                assert(values@ =~= token_values(pieces));
            }
            return Some(values);
        }
        proof {
            assert(rest.skip(j - pos + 1) =~= body.skip(j + 1 - from));
            assert(pieces =~= done.push(piece) + split(body.skip(j + 1 - from), 0x2c));
            done = done.push(piece);
        }
        pos = j + 1;
    }
}

/// Splits a string at each occurrence of the ASCII byte `sep`: the pieces between the
/// separators, in order, each piece a part of `s`.
pub fn split_str<'a>(s: &'a str, sep: u8) -> (pieces: Vec<&'a str>)
    requires
        sep < 0x80,
    ensures
        pieces@.len() == split(s.spec_bytes(), sep).len(),
        forall|i: int|
            0 <= i < pieces@.len() ==> (#[trigger] pieces@[i]).spec_bytes() == split(
                s.spec_bytes(),
                sep,
            )[i],
{
    let ghost whole = s.spec_bytes();
    let ghost mut done: Seq<Seq<u8>> = Seq::empty();
    let mut pieces: Vec<&'a str> = Vec::new();
    let mut rest: &'a str = s;
    loop
        invariant
            sep < 0x80,
            whole == s.spec_bytes(),
            split(whole, sep) == done + split(rest.spec_bytes(), sep),
            pieces@.len() == done.len(),
            forall|i: int| 0 <= i < done.len() ==> (#[trigger] pieces@[i]).spec_bytes() == done[i],
        decreases rest.spec_bytes().len(),
    {
        let bytes = rest.as_bytes();
        let j = find_byte(bytes, 0, bytes.len(), sep);
        assert(bytes@.subrange(0, bytes@.len() as int) =~= bytes@);
        if j == bytes.len() {
            pieces.push(rest);
            proof {
                assert(split(whole, sep) =~= done.push(rest.spec_bytes()));
            }
            return pieces;
        }
        proof {
            encode_utf8_valid_utf8(rest@);
            is_char_boundary_iff_not_is_continuation_byte(bytes@, j as int);
        }
        let (head, tail) = rest.split_at(j);
        proof {
            encode_utf8_valid_utf8(tail@);
            lemma_boundary_after_ascii(tail.spec_bytes());
        }
        let (_, after) = tail.split_at(1);
        proof {
            assert(head.spec_bytes() =~= bytes@.take(j as int));
            assert(after.spec_bytes() =~= bytes@.skip(j + 1));
            assert(split(whole, sep) =~= done.push(head.spec_bytes()) + split(
                after.spec_bytes(),
                sep,
            ));
            done = done.push(head.spec_bytes());
        }
        pieces.push(head);
        rest = after;
    }
}

/// In valid UTF-8 that starts with an ASCII byte, a character ends after that byte.
pub proof fn lemma_boundary_after_ascii(bytes: Seq<u8>)
    requires
        vstd::utf8::valid_utf8(bytes),
        bytes.len() > 0,
        bytes[0] < 0x80,
    ensures
        is_char_boundary(bytes, 1),
{
    reveal_with_fuel(is_char_boundary, 2);
    reveal_with_fuel(vstd::utf8::valid_utf8, 2);
}

} // verus!
