//! Names and moves: a list of names and a list of steps to the right or to the left,
//! and three ways of walking the list.

use crate::text::{
    find_byte, lemma_boundary_after_ascii, parse_token, signed_value, split, split_str,
};
use vstd::arithmetic::div_mod::{lemma_add_mod_noop_right, lemma_mod_bound};
use vstd::prelude::*;
use vstd::string::StringSliceAdditionalSpecFns;
use vstd::utf8::{encode_utf8_valid_utf8, is_char_boundary_iff_not_is_continuation_byte};

verus! {

/// An empty line starts at `i`: a line feed stands there and another one after it.
pub open spec fn blank_line_at(s: Seq<u8>, i: int) -> bool {
    0 <= i && i + 1 < s.len() && s[i] == 0x0a && s[i + 1] == 0x0a
}

/// The index at which the first empty line starts: the first line feed that another line
/// feed follows. The length of `s` where there is none.
pub open spec fn first_blank_line(s: Seq<u8>) -> int
    decreases s.len(),
{
    if s.len() < 2 {
        s.len() as int
    } else if s[0] == 0x0a && s[1] == 0x0a {
        0
    } else {
        1 + first_blank_line(s.drop_first())
    }
}

/// The steps that a move stands for: `R` and a number for steps to the right, `L` and a
/// number for steps to the left, which are negative steps. `None` where the token is
/// neither, or the number or the steps are not within `isize`.
pub open spec fn move_value(t: Seq<u8>) -> Option<isize> {
    if t.len() > 0 && (t[0] == 0x52 || t[0] == 0x4c) {
        match signed_value(t.skip(1)) {
            Some(v) => {
                let steps = if t[0] == 0x52 {
                    v
                } else {
                    -v
                };
                if isize::MIN <= v <= isize::MAX && isize::MIN <= steps <= isize::MAX {
                    Some(steps as isize)
                } else {
                    None
                }
            },
            None => None,
        }
    } else {
        None
    }
}

/// Every piece is a move.
pub open spec fn all_moves(pieces: Seq<Seq<u8>>) -> bool {
    forall|i: int| 0 <= i < pieces.len() ==> move_value(#[trigger] pieces[i]) is Some
}

/// The steps that the pieces stand for.
pub open spec fn move_values(pieces: Seq<Seq<u8>>) -> Seq<isize> {
    Seq::new(pieces.len(), |i: int| move_value(pieces[i]).unwrap())
}

/// The text is well formed: it holds an empty line, and what follows the first one is a
/// list of moves with commas between.
pub open spec fn is_well_formed(inp: Seq<u8>) -> bool {
    let at = first_blank_line(inp);
    at + 2 <= inp.len() && all_moves(split(inp.skip(at + 2), 0x2c))
}

/// The names of the text, as bytes: the pieces between the commas before the first empty
/// line.
pub open spec fn names_of(inp: Seq<u8>) -> Seq<Seq<u8>> {
    split(inp.take(first_blank_line(inp)), 0x2c)
}

/// The moves of the text: the steps of the pieces between the commas after the first
/// empty line.
pub open spec fn moves_of(inp: Seq<u8>) -> Seq<isize> {
    move_values(split(inp.skip(first_blank_line(inp) + 2), 0x2c))
}

/// `x` brought into `lo..=hi`.
pub open spec fn clamp(x: int, lo: int, hi: int) -> int {
    if x < lo {
        lo
    } else if x > hi {
        hi
    } else {
        x
    }
}

/// The position after walking the moves along a row of `len` places from place 0, where
/// a step beyond either end stops at that end.
pub open spec fn clamped_position(moves: Seq<isize>, len: int) -> int
    decreases moves.len(),
{
    if moves.len() == 0 {
        0
    } else {
        clamp(clamped_position(moves.drop_last(), len) + moves.last(), 0, len - 1)
    }
}

/// The sum of the moves.
pub open spec fn total_steps(moves: Seq<isize>) -> int
    decreases moves.len(),
{
    if moves.len() == 0 {
        0
    } else {
        total_steps(moves.drop_last()) + moves.last()
    }
}

/// `s` with the items at `i` and `j` exchanged.
pub open spec fn swapped<T>(s: Seq<T>, i: int, j: int) -> Seq<T> {
    s.update(i, s[j]).update(j, s[i])
}

/// The row of names after each move in turn has exchanged the name at place 0 with the
/// name that many places round the circle.
pub open spec fn shuffled<T>(names: Seq<T>, moves: Seq<isize>) -> Seq<T>
    decreases moves.len(),
{
    if moves.len() == 0 {
        names
    } else {
        swapped(
            shuffled(names, moves.drop_last()),
            0,
            (moves.last() as int) % (names.len() as int),
        )
    }
}

/// The first empty line is where no empty line starts before.
proof fn lemma_first_blank_line(s: Seq<u8>, j: int)
    requires
        0 <= j <= s.len(),
        forall|i: int| 0 <= i < j ==> !#[trigger] blank_line_at(s, i),
        blank_line_at(s, j) || (j == s.len() && !blank_line_at(s, j - 1)),
    ensures
        first_blank_line(s) == j,
    decreases s.len(),
{
    if s.len() >= 2 && j > 0 {
        let t = s.drop_first();
        assert forall|i: int| 0 <= i < j - 1 implies !#[trigger] blank_line_at(t, i) by {
            assert(!blank_line_at(s, i + 1));
        }
        assert(!blank_line_at(s, 0));
        if j < s.len() {
            assert(blank_line_at(t, j - 1));
        } else {
            assert(!blank_line_at(s, j - 1));
            assert(!blank_line_at(t, j - 2));
        }
        lemma_first_blank_line(t, j - 1);
    } else if s.len() >= 2 {
        assert(blank_line_at(s, 0));
    } else if s.len() == 1 && j == 0 {
        assert(blank_line_at(s, 0));
    }
}

/// Finds the first empty line of `bytes`: the index of the first of its two line feeds, or
/// the length of `bytes` where there is none.
fn find_blank_line(bytes: &[u8]) -> (j: usize)
    ensures
        j == first_blank_line(bytes@),
        j <= bytes.len(),
        j < bytes.len() ==> blank_line_at(bytes@, j as int),
{
    let mut j: usize = 0;
    while j < bytes.len()
        invariant
            0 <= j <= bytes.len(),
            forall|i: int| 0 <= i < j ==> !#[trigger] blank_line_at(bytes@, i),
        decreases bytes.len() - j,
    {
        if j + 1 < bytes.len() && bytes[j] == 0x0a && bytes[j + 1] == 0x0a {
            proof {
                lemma_first_blank_line(bytes@, j as int);
            }
            return j;
        }
        j += 1;
    }
    proof {
        lemma_first_blank_line(bytes@, j as int);
    }
    j
}

/// Reads the move that `bytes[from..end]` stands for.
fn parse_move(bytes: &[u8], from: usize, end: usize) -> (r: Option<isize>)
    requires
        from <= end <= bytes.len(),
    ensures
        r == move_value(bytes@.subrange(from as int, end as int)),
{
    let ghost t = bytes@.subrange(from as int, end as int);
    if from == end {
        return None;
    }
    let first = bytes[from];
    assert(t[0] == first);
    if first != 0x52 && first != 0x4c {
        return None;
    }
    assert(t.skip(1) =~= bytes@.subrange(from + 1, end as int));
    let v = match parse_token(bytes, from + 1, end) {
        Some(v) => v,
        None => {
            return None;
        },
    };
    if v < isize::MIN as i64 || v > isize::MAX as i64 {
        return None;
    }
    if first == 0x52 {
        Some(v as isize)
    } else if v == isize::MIN as i64 {
        None
    } else {
        Some((-v) as isize)
    }
}

/// Reads the moves in `bytes`, which stand with commas between them.
fn parse_moves(bytes: &[u8]) -> (r: Option<Vec<isize>>)
    ensures
        r is Some <==> all_moves(split(bytes@, 0x2c)),
        r is Some ==> r.unwrap()@ == move_values(split(bytes@, 0x2c)),
{
    let ghost body = bytes@;
    let ghost mut done: Seq<Seq<u8>> = Seq::empty();
    let end = bytes.len();
    let mut moves: Vec<isize> = Vec::new();
    let mut pos: usize = 0;
    assert(body.skip(0) =~= body);
    loop
        invariant
            0 <= pos <= end,
            end == bytes.len(),
            body == bytes@,
            split(body, 0x2c) == done + split(body.skip(pos as int), 0x2c),
            moves@.len() == done.len(),
            forall|i: int| 0 <= i < done.len() ==> move_value(#[trigger] done[i]) == Some(moves@[i]),
        decreases end - pos,
    {
        let j = find_byte(bytes, pos, end, 0x2c);
        let ghost rest = body.skip(pos as int);
        let ghost piece = bytes@.subrange(pos as int, j as int);
        let ghost pieces = split(body, 0x2c);
        proof {
            assert(rest =~= bytes@.subrange(pos as int, end as int));
            assert(rest.take(j - pos) =~= piece);
            assert(pieces[done.len() as int] == piece);
        }
        let steps = match parse_move(bytes, pos, j) {
            Some(steps) => steps,
            None => {
                return None;
            },
        };
        moves.push(steps);
        if j == end {
            proof {
                assert(pieces =~= done.push(piece));
                assert(moves@ =~= move_values(pieces));
            }
            return Some(moves);
        }
        proof {
            assert(rest.skip(j - pos + 1) =~= body.skip(j + 1));
            assert(pieces =~= done.push(piece) + split(body.skip(j + 1), 0x2c));
            done = done.push(piece);
        }
        pos = j + 1;
    }
}

/// Reads the names and the moves of a text: the names with commas between them, an empty
/// line, and the moves with commas between them. Gives `None` where the text holds no
/// empty line or a piece after it is not a move.
pub fn parse<'a>(inp: &'a str) -> (r: Option<(Vec<&'a str>, Vec<isize>)>)
    ensures
        r is Some <==> is_well_formed(inp.spec_bytes()),
        r is Some ==> {
            let (names, moves) = r.unwrap();
            &&& names@.len() == names_of(inp.spec_bytes()).len()
            &&& names@.len() > 0
            &&& forall|i: int|
                0 <= i < names@.len() ==> (#[trigger] names@[i]).spec_bytes() == names_of(
                    inp.spec_bytes(),
                )[i]
            &&& moves@ == moves_of(inp.spec_bytes())
        },
{
    let bytes = inp.as_bytes();
    let at = find_blank_line(bytes);
    if at == bytes.len() {
        return None;
    }
    proof {
        encode_utf8_valid_utf8(inp@);
        is_char_boundary_iff_not_is_continuation_byte(bytes@, at as int);
    }
    let (head, tail) = inp.split_at(at);
    proof {
        encode_utf8_valid_utf8(tail@);
        lemma_boundary_after_ascii(tail.spec_bytes());
    }
    let (_, tail) = tail.split_at(1);
    proof {
        encode_utf8_valid_utf8(tail@);
        lemma_boundary_after_ascii(tail.spec_bytes());
    }
    let (_, tail) = tail.split_at(1);
    assert(head.spec_bytes() =~= bytes@.take(at as int));
    assert(tail.spec_bytes() =~= bytes@.skip(at + 2));
    let moves = match parse_moves(tail.as_bytes()) {
        Some(moves) => moves,
        None => {
            return None;
        },
    };
    let names = split_str(head, 0x2c);
    Some((names, moves))
}

/// Walks the moves along the row of names from the first name, stopping at either end of
/// the row, and gives the name at which the walk ends.
pub fn p1<'a>(names: &[&'a str], moves: &[isize]) -> (r: &'a str)
    requires
        names.len() > 0,
    ensures
        r == names@[clamped_position(moves@, names@.len() as int)],
{
    let len = names.len();
    let mut at: usize = 0;
    let mut k: usize = 0;
    assert(moves@.take(0) =~= Seq::<isize>::empty());
    while k < moves.len()
        invariant
            0 <= k <= moves.len(),
            len == names.len(),
            0 <= at < len,
            at == clamped_position(moves@.take(k as int), len as int),
        decreases moves.len() - k,
    {
        proof {
            let t = moves@.take(k + 1);
            assert(t.drop_last() =~= moves@.take(k as int));
        }
        let target: i128 = at as i128 + moves[k] as i128;
        at = if target < 0 {
            0
        } else if target > (len - 1) as i128 {
            len - 1
        } else {
            target as usize
        };
        k += 1;
    }
    assert(moves@.take(k as int) =~= moves@);
    names[at]
}

/// Walks the moves round the circle of names from the first name and gives the name at
/// which the walk ends: the name whose place is the sum of the moves, counted round the
/// circle.
pub fn p2<'a>(names: &[&'a str], moves: &[isize]) -> (r: &'a str)
    requires
        names.len() > 0,
    ensures
        r == names@[total_steps(moves@) % (names@.len() as int)],
{
    let len = names.len();
    let mut at: usize = 0;
    let mut k: usize = 0;
    assert(moves@.take(0) =~= Seq::<isize>::empty());
    proof {
        lemma_mod_bound(0, len as int);
    }
    while k < moves.len()
        invariant
            0 <= k <= moves.len(),
            len == names.len(),
            0 <= at < len,
            at == total_steps(moves@.take(k as int)) % (len as int),
        decreases moves.len() - k,
    {
        proof {
            let t = moves@.take(k + 1);
            assert(t.drop_last() =~= moves@.take(k as int));
            lemma_add_mod_noop_right(
                moves@[k as int] as int,
                total_steps(moves@.take(k as int)),
                len as int,
            );
            lemma_mod_bound(at + moves@[k as int], len as int);
        }
        let target: i128 = at as i128 + moves[k] as i128;
        at = target.checked_rem_euclid(len as i128).unwrap() as usize;
        k += 1;
    }
    assert(moves@.take(k as int) =~= moves@);
    names[at]
}

/// For each move in turn, exchanges the first name with the name that many places round
/// the circle, and gives the name that stands first in the end.
pub fn p3<'a>(names: Vec<&'a str>, moves: &[isize]) -> (r: &'a str)
    requires
        names.len() > 0,
    ensures
        r == shuffled(names@, moves@)[0],
{
    let mut names = names;
    let ghost start = names@;
    let len = names.len();
    let mut k: usize = 0;
    assert(moves@.take(0) =~= Seq::<isize>::empty());
    while k < moves.len()
        invariant
            0 <= k <= moves.len(),
            len == names.len(),
            len == start.len(),
            len > 0,
            names@ == shuffled(start, moves@.take(k as int)),
        decreases moves.len() - k,
    {
        proof {
            let t = moves@.take(k + 1);
            assert(t.drop_last() =~= moves@.take(k as int));
            lemma_mod_bound(moves@[k as int] as int, len as int);
        }
        let other = (moves[k] as i128).checked_rem_euclid(len as i128).unwrap() as usize;
        let first = names[0];
        let second = names[other];
        names[0] = second;
        names[other] = first;
        k += 1;
    }
    assert(moves@.take(k as int) =~= moves@);
    names[0]
}

} // verus!
