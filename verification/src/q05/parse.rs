//! Reading swords from text: one record per line, `identifier:number,number,...`.

use crate::q05::assemble::{assemble, spec_assemble};
use crate::q05::rank::SwordError;
use crate::q05::sword::Sword;
use crate::text::{
    all_tokens, find_byte, first_index, parse_token, parse_values, split, token_value,
    token_values,
};
use vstd::prelude::*;
use vstd::string::StringSliceAdditionalSpecFns;

verus! {

/// What a record holds: the identifier before the first colon and the numbers after it,
/// with commas between them. `None` where the line has no colon, or the identifier or one
/// of the numbers is not a number.
pub open spec fn record_of(line: Seq<u8>) -> Option<(i64, Seq<i64>)> {
    let c = first_index(line, 0x3a);
    let pieces = split(line.skip(c + 1), 0x2c);
    if 0 <= c < line.len() && token_value(line.take(c)) is Some && all_tokens(pieces) {
        Some((token_value(line.take(c)).unwrap(), token_values(pieces)))
    } else {
        None
    }
}

/// `sword` is the sword of the record `line`: it has the record's identifier and the
/// fishbone assembled from the record's numbers.
pub open spec fn is_sword_of(sword: Sword, line: Seq<u8>) -> bool {
    &&& record_of(line) is Some
    &&& sword.0 == record_of(line).unwrap().0
    &&& sword.1@ == spec_assemble(record_of(line).unwrap().1)
}

/// Every line is a record.
pub open spec fn all_records(lines: Seq<Seq<u8>>) -> bool {
    forall|i: int| 0 <= i < lines.len() ==> record_of(#[trigger] lines[i]) is Some
}

/// `swords` are the swords of the records `lines`, in order.
pub open spec fn are_swords_of(swords: Seq<Sword>, lines: Seq<Seq<u8>>) -> bool {
    &&& swords.len() == lines.len()
    &&& forall|i: int| 0 <= i < lines.len() ==> is_sword_of(#[trigger] swords[i], lines[i])
}

/// Reads one record, `identifier:number,number,...`, and assembles its sword. A line
/// without a colon, or with an identifier or a number that is not a decimal integer
/// within `i64`, is malformed.
pub fn parse_record(line: &[u8]) -> (r: Result<Sword, SwordError>)
    ensures
        r is Ok <==> record_of(line@) is Some,
        r is Ok ==> is_sword_of(r.unwrap(), line@),
        r is Err ==> r == Err::<Sword, SwordError>(SwordError::MalformedRecord),
{
    assert(line@.subrange(0, line@.len() as int) =~= line@);
    parse_record_in(line, 0, line.len())
}

/// Reads the record in `bytes[from..end]`.
fn parse_record_in(bytes: &[u8], from: usize, end: usize) -> (r: Result<Sword, SwordError>)
    requires
        from <= end <= bytes.len(),
    ensures
        r is Ok <==> record_of(bytes@.subrange(from as int, end as int)) is Some,
        r is Ok ==> is_sword_of(r.unwrap(), bytes@.subrange(from as int, end as int)),
        r is Err ==> r == Err::<Sword, SwordError>(SwordError::MalformedRecord),
{
    let ghost line = bytes@.subrange(from as int, end as int);
    let colon = find_byte(bytes, from, end, 0x3a);
    if colon == end {
        return Err(SwordError::MalformedRecord);
    }
    proof {
        assert(line.take(colon - from) =~= bytes@.subrange(from as int, colon as int));
        assert(line.skip(colon - from + 1) =~= bytes@.subrange(colon + 1, end as int));
    }
    let id = match parse_token(bytes, from, colon) {
        Some(id) => id,
        None => {
            return Err(SwordError::MalformedRecord);
        },
    };
    let values = match parse_values(bytes, colon + 1, end) {
        Some(values) => values,
        None => {
            return Err(SwordError::MalformedRecord);
        },
    };
    let fishbone = assemble(values.as_slice());
    Ok(Sword(id, fishbone))
}

impl Sword {
    /// Reads a sword from its record, `identifier:number,number,...`: the numbers are
    /// assembled into the fishbone in the order in which they stand.
    pub fn from_str(s: &str) -> (r: Result<Sword, SwordError>)
        ensures
            r is Ok <==> record_of(s.spec_bytes()) is Some,
            r is Ok ==> is_sword_of(r.unwrap(), s.spec_bytes()),
            r is Err ==> r == Err::<Sword, SwordError>(SwordError::MalformedRecord),
    {
        parse_record(s.as_bytes())
    }
}

/// Reads the swords of a text that holds one record per line. The text is not trimmed: an
/// empty line, also one after a final line feed, is a malformed record.
pub fn parse(inp: &str) -> (r: Result<Vec<Sword>, SwordError>)
    ensures
        r is Ok <==> all_records(split(inp.spec_bytes(), 0x0a)),
        r is Ok ==> are_swords_of(r.unwrap()@, split(inp.spec_bytes(), 0x0a)),
        r is Err ==> r == Err::<Vec<Sword>, SwordError>(SwordError::MalformedRecord),
{
    let bytes = inp.as_bytes();
    let end = bytes.len();
    let ghost body = bytes@;
    let ghost mut done: Seq<Seq<u8>> = Seq::empty();
    let mut swords: Vec<Sword> = Vec::new();
    let mut pos: usize = 0;
    assert(body.skip(0) =~= body);
    loop
        invariant
            0 <= pos <= end,
            end == bytes.len(),
            body == bytes@,
            body == inp.spec_bytes(),
            split(body, 0x0a) == done + split(body.skip(pos as int), 0x0a),
            swords@.len() == done.len(),
            forall|i: int| 0 <= i < done.len() ==> is_sword_of(#[trigger] swords@[i], done[i]),
        decreases end - pos,
    {
        let j = find_byte(bytes, pos, end, 0x0a);
        let ghost rest = body.skip(pos as int);
        let ghost piece = bytes@.subrange(pos as int, j as int);
        let ghost pieces = split(body, 0x0a);
        proof {
            assert(rest =~= bytes@.subrange(pos as int, end as int));
            assert(rest.take(j - pos) =~= piece);
            assert(pieces[done.len() as int] == piece);
        }
        let sword = match parse_record_in(bytes, pos, j) {
            Ok(sword) => sword,
            Err(e) => {
                return Err(e);
            },
        };
        swords.push(sword);
        if j == end {
            proof {
                assert(pieces =~= done.push(piece));
                assert forall|i: int| 0 <= i < pieces.len() implies is_sword_of(
                    #[trigger] swords@[i],
                    pieces[i],
                ) by {
                    if i < done.len() {
                        assert(pieces[i] == done[i]);
                    }
                }
                assert forall|i: int| 0 <= i < pieces.len() implies record_of(
                    #[trigger] pieces[i],
                ) is Some by {
                    assert(is_sword_of(swords@[i], pieces[i]));
                }
            }
            return Ok(swords);
        }
        proof {
            assert(rest.skip(j - pos + 1) =~= body.skip(j + 1));
            assert(pieces =~= done.push(piece) + split(body.skip(j + 1), 0x0a));
            done = done.push(piece);
        }
        pos = j + 1;
    }
}

} // verus!
