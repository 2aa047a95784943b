//! A bone: one segment of a fishbone, holding one to three strictly increasing numbers.

use crate::q05::digits::{checked_fold_concat, concat_digits, concat_fits, fold_concat};
use vstd::prelude::*;

verus! {

/// One segment of a fishbone.
///
/// A bone starts with a single number and takes at most one smaller number on its left
/// and one larger number on its right.
#[derive(Clone, Copy, Debug, PartialEq, Eq, Structural)]
pub enum Bone {
    /// One number, both sides free.
    Start(i64),
    /// A number with its left neighbour: `Left(lo, hi)`, the right side of `hi` is free.
    Left(i64, i64),
    /// A number with its right neighbour: `Right(lo, hi)`, the left side of `lo` is free.
    Right(i64, i64),
    /// All three places taken: `Full(lo, mid, hi)`.
    Full(i64, i64, i64),
}

impl Bone {
    /// The numbers that the bone holds, in the order of its fields.
    pub open spec fn held(self) -> Seq<i64> {
        match self {
            Bone::Start(v) => seq![v],
            Bone::Left(lo, hi) => seq![lo, hi],
            Bone::Right(lo, hi) => seq![lo, hi],
            Bone::Full(lo, mid, hi) => seq![lo, mid, hi],
        }
    }

    /// The numbers of the bone are strictly increasing.
    pub open spec fn wf(self) -> bool {
        match self {
            Bone::Start(_) => true,
            Bone::Left(lo, hi) => lo < hi,
            Bone::Right(lo, hi) => lo < hi,
            Bone::Full(lo, mid, hi) => lo < mid < hi,
        }
    }

    /// What the bone becomes when it takes `n`, or `None` where it has no place for `n`.
    pub open spec fn spec_next(self, n: i64) -> Option<Bone> {
        match self {
            Bone::Start(o) => if n < o {
                Some(Bone::Left(n, o))
            } else if o < n {
                Some(Bone::Right(o, n))
            } else {
                None
            },
            Bone::Left(lo, hi) => if hi < n {
                Some(Bone::Full(lo, hi, n))
            } else {
                None
            },
            Bone::Right(lo, hi) => if n < lo {
                Some(Bone::Full(n, lo, hi))
            } else {
                None
            },
            Bone::Full(_, _, _) => None,
        }
    }

    /// The number on the spine: the one the bone started with.
    pub open spec fn spec_spine(self) -> i64 {
        match self {
            Bone::Start(v) => v,
            Bone::Left(_, hi) => hi,
            Bone::Right(lo, _) => lo,
            Bone::Full(_, mid, _) => mid,
        }
    }

    /// The level of the bone: its numbers written one after the other.
    pub open spec fn spec_level(self) -> int {
        concat_digits(self.held())
    }

    /// The level is defined and can be held in an `i64`.
    pub open spec fn level_fits(self) -> bool {
        concat_fits(self.held())
    }

    /// Offers `i` to the bone: the bone with `i` in its free place on the left (for a
    /// smaller number) or on the right (for a larger one), or `None` where that place is
    /// taken or `i` equals the number beside it.
    pub fn next(&self, i: i64) -> (r: Option<Bone>)
        ensures
            r == self.spec_next(i),
    {
        match self {
            Bone::Start(o) => {
                if i < *o {
                    Some(Bone::Left(i, *o))
                } else if *o < i {
                    Some(Bone::Right(*o, i))
                } else {
                    None
                }
            },
            Bone::Left(ol, o) => {
                if *o < i {
                    Some(Bone::Full(*ol, *o, i))
                } else {
                    None
                }
            },
            Bone::Right(o, or) => {
                if i < *o {
                    Some(Bone::Full(i, *o, *or))
                } else {
                    None
                }
            },
            Bone::Full(_, _, _) => None,
        }
    }

    /// The number on the spine.
    pub fn spine(&self) -> (r: i64)
        ensures
            r == self.spec_spine(),
    {
        match self {
            Bone::Start(v) => *v,
            Bone::Left(_, v) => *v,
            Bone::Right(v, _) => *v,
            Bone::Full(_, v, _) => *v,
        }
    }

    /// The numbers of the bone as a vector, in the order of its fields.
    fn held_values(&self) -> (v: Vec<i64>)
        ensures
            v@ == self.held(),
    {
        let mut v: Vec<i64> = Vec::new();
        match self {
            Bone::Start(a) => {
                v.push(*a);
            },
            Bone::Left(a, b) | Bone::Right(a, b) => {
                v.push(*a);
                v.push(*b);
            },
            Bone::Full(a, b, c) => {
                v.push(*a);
                v.push(*b);
                v.push(*c);
            },
        }
        assert(v@ =~= self.held());
        v
    }

    /// The level of the bone: its numbers written one after the other, `Full(1, 3, 9)`
    /// giving `139`. No number of the bone may be negative, and the level must fit in an
    /// `i64`, which it does whenever the numbers have at most 18 digits together.
    pub fn level(&self) -> (r: i64)
        requires
            self.level_fits(),
        ensures
            r == self.spec_level(),
    {
        let v = self.held_values();
        fold_concat(v.as_slice())
    }

    /// The level of the bone, or `None` where a number of the bone is negative or the
    /// level does not fit in an `i64`.
    pub fn checked_level(&self) -> (r: Option<i64>)
        ensures
            r is Some <==> self.level_fits(),
            r is Some ==> r.unwrap() == self.spec_level(),
    {
        let v = self.held_values();
        checked_fold_concat(v.as_slice())
    }
}

/// A bone that takes a number stays strictly increasing.
pub proof fn lemma_next_keeps_order(b: Bone, n: i64)
    requires
        b.wf(),
        b.spec_next(n) is Some,
    ensures
        b.spec_next(n).unwrap().wf(),
{
}

/// A bone takes a number exactly where its free place on that side exists and the number
/// differs from the one beside it; a full bone takes nothing.
pub proof fn lemma_next_accepts(b: Bone, n: i64)
    ensures
        b is Full ==> b.spec_next(n) is None,
        b is Start ==> (b.spec_next(n) is None <==> n == b->Start_0),
        b is Left ==> (b.spec_next(n) is None <==> n <= b->Left_1),
        b is Right ==> (b.spec_next(n) is None <==> n >= b->Right_0),
{
}

/// A bone that took a number keeps its spine.
pub proof fn lemma_next_keeps_spine(b: Bone, n: i64)
    requires
        b.spec_next(n) is Some,
    ensures
        b.spec_next(n).unwrap().spec_spine() == b.spec_spine(),
{
}

} // verus!
