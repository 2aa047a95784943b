//! Knights and novices: counting, in a row of people, the novices that each knight of
//! the same kind can mentor.

use vstd::arithmetic::div_mod::{
    lemma_fundamental_div_mod, lemma_mod_bound, lemma_mod_multiples_vanish, lemma_small_mod,
};
use vstd::prelude::*;

verus! {

/// The letter of the first kind of knight.
pub const KNIGHT_START: u8 = 0x41;

/// The letter of the first kind of novice.
pub const NOVICE_START: u8 = 0x61;

/// How far, in places, a knight sees to either side.
pub const LIM: usize = 1000;

/// How many times the row is repeated.
pub const REPEAT: usize = 1000;

/// The kind of knight that the letter stands for: `A`, `B` and `C` are the kinds 0, 1
/// and 2. `None` for any other letter.
pub open spec fn spec_knight(b: u8) -> Option<usize> {
    if 0x41 <= b <= 0x43 {
        Some((b - 0x41) as usize)
    } else {
        None
    }
}

/// The kind of novice that the letter stands for: `a`, `b` and `c` are the kinds 0, 1
/// and 2. `None` for any other letter.
pub open spec fn spec_novice(b: u8) -> Option<usize> {
    if 0x61 <= b <= 0x63 {
        Some((b - 0x61) as usize)
    } else {
        None
    }
}

/// The number of knights of the kind in the row.
pub open spec fn knights_of(row: Seq<u8>, kind: usize) -> int
    decreases row.len(),
{
    if row.len() == 0 {
        0
    } else {
        knights_of(row.drop_last(), kind) + if spec_knight(row.last()) == Some(kind) {
            1int
        } else {
            0int
        }
    }
}

/// The number of pairs of a knight and a novice of the kind in which the knight stands
/// before the novice.
pub open spec fn pairs_of(row: Seq<u8>, kind: usize) -> int
    decreases row.len(),
{
    if row.len() == 0 {
        0
    } else {
        pairs_of(row.drop_last(), kind) + if spec_novice(row.last()) == Some(kind) {
            knights_of(row.drop_last(), kind)
        } else {
            0int
        }
    }
}

/// The number of repetitions, the first ones or the last ones, in which the place `at`
/// relative to the repetition falls outside the repeated row.
pub open spec fn lost_repetitions(len: int, at: int) -> int {
    (if at < 0 {
        len - 1 - at
    } else {
        at
    }) / len
}

/// How many of the repetitions of the knight at place `i` of the row see the novice that
/// stands at place `at` relative to the same repetition, where `at` may lie before the
/// row or after it. A repetition sees the novice where it is of the knight's kind and
/// falls inside the repeated row.
pub open spec fn seen_times(row: Seq<u8>, i: int, at: int) -> int {
    let len = row.len() as int;
    if spec_knight(row[i]) is Some && spec_novice(row[at % len]) == spec_knight(row[i]) {
        REPEAT - lost_repetitions(len, at)
    } else {
        0
    }
}

/// How often the knight at place `i` sees a novice at the places from `i - LIM` up to,
/// not including, `upto`.
pub open spec fn seen_before(row: Seq<u8>, i: int, upto: int) -> int
    decreases upto - (i - LIM),
{
    if upto <= i - LIM {
        0
    } else {
        seen_before(row, i, upto - 1) + seen_times(row, i, upto - 1)
    }
}

/// How often the knights at the first `n` places of the row see a novice within their
/// reach, counted over all repetitions of the row.
pub open spec fn seen_by_first(row: Seq<u8>, n: int) -> int
    decreases n,
{
    if n <= 0 {
        0
    } else {
        seen_by_first(row, n - 1) + seen_before(row, n - 1, n + LIM)
    }
}

/// There are no more knights of a kind than people in the row.
proof fn lemma_knights_bound(row: Seq<u8>, kind: usize)
    ensures
        0 <= knights_of(row, kind) <= row.len(),
    decreases row.len(),
{
    if row.len() > 0 {
        lemma_knights_bound(row.drop_last(), kind);
    }
}

/// A part of the row from its start holds no more pairs than the whole row.
proof fn lemma_pairs_grow(row: Seq<u8>, kind: usize, k: int)
    requires
        0 <= k <= row.len(),
    ensures
        0 <= pairs_of(row.take(k), kind) <= pairs_of(row, kind),
    decreases row.len() - k,
{
    if k == row.len() {
        assert(row.take(k) =~= row);
        lemma_pairs_non_negative(row, kind);
    } else {
        lemma_pairs_grow(row, kind, k + 1);
        let t = row.take(k + 1);
        assert(t.drop_last() =~= row.take(k));
        lemma_knights_bound(row.take(k), kind);
        lemma_pairs_non_negative(row.take(k), kind);
    }
}

/// The number of pairs is not negative.
proof fn lemma_pairs_non_negative(row: Seq<u8>, kind: usize)
    ensures
        0 <= pairs_of(row, kind),
    decreases row.len(),
{
    if row.len() > 0 {
        lemma_pairs_non_negative(row.drop_last(), kind);
        lemma_knights_bound(row.drop_last(), kind);
    }
}

/// A knight sees a novice at most once in each repetition.
proof fn lemma_seen_times_bound(row: Seq<u8>, i: int, at: int)
    requires
        0 <= i < row.len(),
        i - LIM <= at <= i + LIM,
    ensures
        0 <= seen_times(row, i, at) <= REPEAT,
{
    let len = row.len() as int;
    let off = if at < 0 {
        len - 1 - at
    } else {
        at
    };
    assert(0 <= off / len <= 1000) by (nonlinear_arith)
        requires
            0 <= off < 1001 * len,
            len > 0,
    ;
}

/// Within its reach a knight sees a novice at most `REPEAT` times at each place.
proof fn lemma_seen_before_bound(row: Seq<u8>, i: int, upto: int)
    requires
        0 <= i < row.len(),
        i - LIM <= upto <= i + LIM + 1,
    ensures
        0 <= seen_before(row, i, upto) <= REPEAT * (upto - (i - LIM)),
    decreases upto - (i - LIM),
{
    if upto > i - LIM {
        lemma_seen_before_bound(row, i, upto - 1);
        lemma_seen_times_bound(row, i, upto - 1);
    }
}

/// The knights at the first `n` places see at most `REPEAT` novices at each of the
/// `2 * LIM + 1` places in their reach.
proof fn lemma_seen_by_first_bound(row: Seq<u8>, n: int)
    requires
        0 <= n <= row.len(),
    ensures
        0 <= seen_by_first(row, n) <= 2_001_000 * n,
    decreases n,
{
    if n > 0 {
        lemma_seen_by_first_bound(row, n - 1);
        lemma_seen_before_bound(row, n - 1, n + LIM);
    }
}

/// The letter at place `p` of the repeated row.
pub open spec fn letter_at(row: Seq<u8>, p: int) -> u8 {
    row[p % (row.len() as int)]
}

/// In the repeated row, a knight stands at place `p` and sees the novice at place `q`:
/// both places lie in the repeated row, at most `LIM` apart, and the novice is of the
/// knight's kind.
pub open spec fn sees(row: Seq<u8>, p: int, q: int) -> bool {
    &&& 0 <= p < row.len() * REPEAT
    &&& 0 <= q < row.len() * REPEAT
    &&& p - LIM <= q <= p + LIM
    &&& spec_knight(letter_at(row, p)) is Some
    &&& spec_novice(letter_at(row, q)) == spec_knight(letter_at(row, p))
}

/// In how many of the first `m` repetitions of the row the knight at place `i` of a
/// repetition sees the novice at place `at` relative to that repetition.
pub open spec fn seeing_repetitions(row: Seq<u8>, i: int, at: int, m: int) -> int
    decreases m,
{
    if m <= 0 {
        0
    } else {
        seeing_repetitions(row, i, at, m - 1) + if sees(
            row,
            i + (m - 1) * row.len(),
            at + (m - 1) * row.len(),
        ) {
            1int
        } else {
            0int
        }
    }
}

/// In repetition `c`, the knight at place `i` sees the novice at place `at` exactly
/// where the novice is of its kind and the place falls inside the repeated row, which
/// it does in all repetitions but the first or the last few.
proof fn lemma_sees_in_repetition(row: Seq<u8>, i: int, at: int, c: int)
    requires
        0 <= i < row.len(),
        i - LIM <= at <= i + LIM,
        0 <= c < REPEAT,
    ensures
        sees(row, i + c * row.len(), at + c * row.len()) <==> {
            &&& spec_knight(row[i]) is Some
            &&& spec_novice(row[at % (row.len() as int)]) == spec_knight(row[i])
            &&& if at < 0 {
                c >= lost_repetitions(row.len() as int, at)
            } else {
                c < REPEAT - lost_repetitions(row.len() as int, at)
            }
        },
{
    let len = row.len() as int;
    let p = i + c * len;
    let q = at + c * len;
    assert(c * len == len * c) by (nonlinear_arith);
    lemma_mod_multiples_vanish(c, i, len);
    lemma_mod_multiples_vanish(c, at, len);
    lemma_small_mod(i as nat, len as nat);
    assert(letter_at(row, p) == row[i]);
    assert(letter_at(row, q) == row[at % len]);
    assert(0 <= p < len * 1000) by (nonlinear_arith)
        requires
            0 <= i < len,
            0 <= c < 1000,
            p == i + c * len,
    ;
    let off = if at < 0 {
        len - 1 - at
    } else {
        at
    };
    let lost = off / len;
    lemma_fundamental_div_mod(off, len);
    lemma_mod_bound(off, len);
    let r = off % len;
    if at < 0 {
        assert(q < len * 1000) by (nonlinear_arith)
            requires
                at < 0,
                0 <= c < 1000,
                len > 0,
                q == at + c * len,
        ;
        assert(0 <= q <==> c >= lost) by (nonlinear_arith)
            requires
                q == at + c * len,
                len - 1 - at == len * lost + r,
                0 <= r < len,
        ;
    } else {
        assert(0 <= q) by (nonlinear_arith)
            requires
                0 <= at,
                0 <= c,
                len > 0,
                q == at + c * len,
        ;
        assert(q < len * 1000 <==> c < 1000 - lost) by (nonlinear_arith)
            requires
                q == at + c * len,
                at == len * lost + r,
                0 <= r < len,
        ;
    }
}

/// The number of the first `m` repetitions in which the knight sees the novice.
proof fn lemma_seeing_repetitions(row: Seq<u8>, i: int, at: int, m: int)
    requires
        0 <= i < row.len(),
        i - LIM <= at <= i + LIM,
        0 <= m <= REPEAT,
    ensures
        seeing_repetitions(row, i, at, m) == if spec_knight(row[i]) is Some && spec_novice(
            row[at % (row.len() as int)],
        ) == spec_knight(row[i]) {
            let lost = lost_repetitions(row.len() as int, at);
            if at < 0 {
                if m <= lost {
                    0
                } else {
                    m - lost
                }
            } else {
                if m <= REPEAT - lost {
                    m
                } else {
                    REPEAT - lost
                }
            }
        } else {
            0
        },
    decreases m,
{
    lemma_seen_times_bound(row, i, at);
    if m > 0 {
        lemma_seeing_repetitions(row, i, at, m - 1);
        lemma_sees_in_repetition(row, i, at, m - 1);
    }
}

/// What `seen_times` counts: the repetitions of the row in which the knight at place
/// `i` sees the novice at place `at`.
pub proof fn lemma_seen_times(row: Seq<u8>, i: int, at: int)
    requires
        0 <= i < row.len(),
        i - LIM <= at <= i + LIM,
    ensures
        seen_times(row, i, at) == seeing_repetitions(row, i, at, REPEAT as int),
{
    lemma_seeing_repetitions(row, i, at, REPEAT as int);
    lemma_seen_times_bound(row, i, at);
}

/// The kind of knight that the letter stands for: 0, 1 or 2 for `A`, `B` or `C`.
pub fn is_knight(b: &u8) -> (r: Option<usize>)
    ensures
        r == spec_knight(*b),
{
    if *b >= KNIGHT_START && *b <= KNIGHT_START + 2 {
        Some((*b - KNIGHT_START) as usize)
    } else {
        None
    }
}

/// The kind of novice that the letter stands for: 0, 1 or 2 for `a`, `b` or `c`.
pub fn is_novice(b: &u8) -> (r: Option<usize>)
    ensures
        r == spec_novice(*b),
{
    if *b >= NOVICE_START && *b <= NOVICE_START + 2 {
        Some((*b - NOVICE_START) as usize)
    } else {
        None
    }
}

/// Counts, for each kind, the pairs of a knight and a novice of that kind in which the
/// knight stands before the novice.
pub fn p1(list: &[u8]) -> (pairs: [usize; 3])
    requires
        forall|kind: usize| 0 <= kind < 3 ==> #[trigger] pairs_of(list@, kind) <= usize::MAX,
    ensures
        forall|kind: usize| 0 <= kind < 3 ==> pairs[kind as int] == #[trigger] pairs_of(list@, kind),
{
    let mut pairs: [usize; 3] = [0, 0, 0];
    let mut histo: [usize; 3] = [0, 0, 0];
    let mut k: usize = 0;
    assert(list@.take(0) =~= Seq::<u8>::empty());
    while k < list.len()
        invariant
            0 <= k <= list.len(),
            forall|kind: usize| 0 <= kind < 3 ==> #[trigger] pairs_of(list@, kind) <= usize::MAX,
            forall|kind: usize|
                0 <= kind < 3 ==> pairs[kind as int] == #[trigger] pairs_of(
                    list@.take(k as int),
                    kind,
                ),
            forall|kind: usize|
                0 <= kind < 3 ==> histo[kind as int] == #[trigger] knights_of(
                    list@.take(k as int),
                    kind,
                ),
        decreases list.len() - k,
    {
        let ghost before = list@.take(k as int);
        let ghost after = list@.take(k + 1);
        let ghost old_pairs = pairs;
        let ghost old_histo = histo;
        proof {
            assert(after.drop_last() =~= before);
            assert(after.last() == list@[k as int]);
        }
        if let Some(i) = is_knight(&list[k]) {
            proof {
                lemma_knights_bound(after, i);
                assert(knights_of(after, i) == knights_of(before, i) + 1);
            }
            histo[i] = histo[i] + 1;
        } else if let Some(i) = is_novice(&list[k]) {
            proof {
                lemma_pairs_grow(list@, i, k + 1);
                assert(pairs_of(after, i) == pairs_of(before, i) + knights_of(before, i));
            }
            pairs[i] = pairs[i] + histo[i];
        }
        proof {
            assert forall|kind: usize| 0 <= kind < 3 implies pairs[kind as int]
                == #[trigger] pairs_of(after, kind) by {
                assert(old_pairs[kind as int] == pairs_of(before, kind));
                assert(old_histo[kind as int] == knights_of(before, kind));
            }
            assert forall|kind: usize| 0 <= kind < 3 implies histo[kind as int]
                == #[trigger] knights_of(after, kind) by {
                assert(old_histo[kind as int] == knights_of(before, kind));
            }
        }
        k += 1;
    }
    assert(list@.take(k as int) =~= list@);
    pairs
}

/// Counts how often a knight sees a novice of its kind where the row is repeated
/// `REPEAT` times and a knight sees `LIM` places to either side.
pub fn p3(list: &[u8]) -> (seen: usize)
    requires
        list.len() * 2_001_000 <= usize::MAX,
    ensures
        seen == seen_by_first(list@, list@.len() as int),
{
    let len = list.len();
    let mut seen: usize = 0;
    let mut i: usize = 0;
    while i < len
        invariant
            0 <= i <= len,
            len == list.len(),
            len * 2_001_000 <= usize::MAX,
            seen == seen_by_first(list@, i as int),
        decreases len - i,
    {
        proof {
            lemma_seen_by_first_bound(list@, i as int);
            lemma_seen_by_first_bound(list@, i + 1);
        }
        let knight = is_knight(&list[i]);
        let start: i128 = i as i128 - LIM as i128;
        let end: i128 = i as i128 + LIM as i128 + 1;
        let mut seen_here: usize = 0;
        let mut at: i128 = start;
        while at < end
            invariant
                0 <= i < len,
                len == list.len(),
                len * 2_001_000 <= usize::MAX,
                start == i - LIM,
                end == i + LIM + 1,
                start <= at <= end,
                knight == spec_knight(list@[i as int]),
                seen_here == seen_before(list@, i as int, at as int),
            decreases end - at,
        {
            proof {
                lemma_seen_before_bound(list@, i as int, at as int);
                lemma_seen_before_bound(list@, i as int, at + 1);
                lemma_seen_times_bound(list@, i as int, at as int);
                lemma_mod_bound(at as int, len as int);
            }
            if let Some(kind) = knight {
                let place = at.checked_rem_euclid(len as i128).unwrap() as usize;
                if is_novice(&list[place]) == Some(kind) {
                    let off: i128 = if at < 0 {
                        len as i128 - 1 - at
                    } else {
                        at
                    };
                    assert(0 <= off / (len as i128) <= 1000) by (nonlinear_arith)
                        requires
                            0 <= off < 1001 * len,
                            len > 0,
                    ;
                    seen_here = seen_here + (REPEAT - (off / len as i128) as usize);
                }
            }
            at = at + 1;
        }
        seen = seen + seen_here;
        i += 1;
    }
    seen
}

} // verus!
