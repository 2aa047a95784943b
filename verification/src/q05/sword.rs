//! A sword: an identifier with its fishbone, its quality, and the order of swords.

use crate::q05::assemble::spec_assemble;
use crate::q05::bone::Bone;
use crate::q05::digits::{checked_fold_concat, concat_digits, concat_fits, fold_concat};
use vstd::prelude::*;

verus! {

/// A sword: its identifier and its fishbone, the bones in the order they were started.
#[derive(Clone, Debug, PartialEq, Eq)]
pub struct Sword(pub i64, pub Vec<Bone>);

/// The two fishbones have equal levels at every position before `k`.
pub open spec fn levels_agree_before(a: Seq<Bone>, b: Seq<Bone>, k: int) -> bool {
    &&& 0 <= k <= a.len()
    &&& k <= b.len()
    &&& forall|j: int| 0 <= j < k ==> (#[trigger] a[j]).spec_level() == b[j].spec_level()
}

/// Fishbone `a` comes before `b`, decided at position `k`: the levels agree before `k`,
/// and at `k` either `a` has ended and `b` has not, or the bone of `a` has the lower level.
pub open spec fn fishbone_less_at(a: Seq<Bone>, b: Seq<Bone>, k: int) -> bool {
    &&& levels_agree_before(a, b, k)
    &&& k < b.len()
    &&& (k == a.len() || a[k].spec_level() < b[k].spec_level())
}

/// Fishbone `a` comes before `b` when their bones are compared by level, position by
/// position; a fishbone comes before every longer one that it is the beginning of.
pub open spec fn fishbone_less(a: Seq<Bone>, b: Seq<Bone>) -> bool {
    exists|k: int| fishbone_less_at(a, b, k)
}

/// The two fishbones have as many bones and equal levels at every position.
pub open spec fn fishbone_same(a: Seq<Bone>, b: Seq<Bone>) -> bool {
    a.len() == b.len() && levels_agree_before(a, b, a.len() as int)
}

impl Sword {
    /// The spine numbers of the bones, in the order of the fishbone.
    pub open spec fn spines(self) -> Seq<i64> {
        Seq::new(self.1@.len(), |i: int| self.1@[i].spec_spine())
    }

    /// The quality: the spine numbers written one after the other.
    pub open spec fn spec_quality(self) -> int {
        concat_digits(self.spines())
    }

    /// The quality is defined and can be held in an `i64`.
    pub open spec fn quality_fits(self) -> bool {
        concat_fits(self.spines())
    }

    /// The sword can be ranked: its quality and the level of each bone fit in an `i64`.
    pub open spec fn rankable(self) -> bool {
        &&& self.quality_fits()
        &&& forall|i: int| 0 <= i < self.1@.len() ==> (#[trigger] self.1@[i]).level_fits()
    }

    /// The order of swords: `self` ranks below `other`. The lower quality ranks below;
    /// of equal qualities, the fishbone that comes first by the levels of its bones; of
    /// fishbones with the same levels, the lower identifier.
    pub open spec fn precedes(self, other: Sword) -> bool {
        ||| self.spec_quality() < other.spec_quality()
        ||| {
            &&& self.spec_quality() == other.spec_quality()
            &&& fishbone_less(self.1@, other.1@)
        }
        ||| {
            &&& self.spec_quality() == other.spec_quality()
            &&& fishbone_same(self.1@, other.1@)
            &&& self.0 < other.0
        }
    }

    /// The two swords have the same place in the order: equal qualities, the same levels
    /// bone by bone, and equal identifiers.
    pub open spec fn same_rank(self, other: Sword) -> bool {
        &&& self.spec_quality() == other.spec_quality()
        &&& fishbone_same(self.1@, other.1@)
        &&& self.0 == other.0
    }

    /// The spine numbers of the bones as a vector.
    fn spine_values(&self) -> (v: Vec<i64>)
        ensures
            v@ == self.spines(),
    {
        let mut v: Vec<i64> = Vec::new();
        let mut i: usize = 0;
        while i < self.1.len()
            invariant
                0 <= i <= self.1.len(),
                v.len() == i,
                forall|j: int| 0 <= j < i ==> v[j] == self.1@[j].spec_spine(),
            decreases self.1.len() - i,
        {
            v.push(self.1[i].spine());
            i += 1;
        }
        assert(v@ =~= self.spines());
        v
    }

    /// The quality of the sword: the spine numbers of its bones written one after the
    /// other in the order of the fishbone, so that spines `12` and `7` give `127`. No
    /// spine number may be negative, and the quality must fit in an `i64`, which it does
    /// whenever the spine numbers have at most 18 digits together.
    pub fn quality(&self) -> (q: i64)
        requires
            self.quality_fits(),
        ensures
            q == self.spec_quality(),
    {
        let v = self.spine_values();
        fold_concat(v.as_slice())
    }

    /// The quality of the sword, or `None` where a spine number is negative or the quality
    /// does not fit in an `i64`.
    pub fn checked_quality(&self) -> (q: Option<i64>)
        ensures
            q is Some <==> self.quality_fits(),
            q is Some ==> q.unwrap() == self.spec_quality(),
    {
        let v = self.spine_values();
        checked_fold_concat(v.as_slice())
    }

    /// Whether the sword can be ranked: its quality and the level of each of its bones
    /// can be held in an `i64`.
    pub fn is_rankable(&self) -> (r: bool)
        ensures
            r == self.rankable(),
    {
        if self.checked_quality().is_none() {
            return false;
        }
        let mut i: usize = 0;
        while i < self.1.len()
            invariant
                0 <= i <= self.1.len(),
                self.quality_fits(),
                forall|j: int| 0 <= j < i ==> (#[trigger] self.1@[j]).level_fits(),
            decreases self.1.len() - i,
        {
            if self.1[i].checked_level().is_none() {
                return false;
            }
            i += 1;
        }
        true
    }

    /// The share of the sword in the checksum when `idx` swords rank above it: its
    /// identifier times its rank `idx + 1`.
    pub fn checksum(&self, idx: usize) -> (c: i64)
        requires
            i64::MIN <= (idx + 1) * self.0 <= i64::MAX,
        ensures
            c == (idx + 1) * self.0,
    {
        self.checked_checksum(idx).unwrap()
    }

    /// The share of the sword in the checksum when `idx` swords rank above it, or `None`
    /// where the share does not fit in an `i64`.
    pub fn checked_checksum(&self, idx: usize) -> (c: Option<i64>)
        ensures
            c is Some <==> i64::MIN <= (idx + 1) * self.0 <= i64::MAX,
            c is Some ==> c.unwrap() == (idx + 1) * self.0,
    {
        let rank: i128 = idx as i128 + 1;
        let id: i128 = self.0 as i128;
        assert(-0x8000_0000_0000_0000_0000_0000_0000_0000 <= rank * id
            <= 0x7fff_ffff_ffff_ffff_ffff_ffff_ffff_ffff) by (nonlinear_arith)
            requires
                1 <= rank <= 0x1_0000_0000_0000_0000,
                -0x8000_0000_0000_0000 <= id <= 0x7fff_ffff_ffff_ffff,
        ;
        let share: i128 = rank * id;
        if share < i64::MIN as i128 || share > i64::MAX as i128 {
            None
        } else {
            Some(share as i64)
        }
    }

    /// Whether `self` ranks below `other`. Both swords must be such that their quality and
    /// the levels of their bones fit in an `i64`.
    pub fn ranks_below(&self, other: &Sword) -> (r: bool)
        requires
            self.rankable(),
            other.rankable(),
        ensures
            r == self.precedes(*other),
    {
        let qa = self.quality();
        let qb = other.quality();
        if qa != qb {
            return qa < qb;
        }
        let k = first_level_difference(&self.1, &other.1);
        if k < self.1.len() && k < other.1.len() {
            let la = self.1[k].level();
            let lb = other.1[k].level();
            if la < lb {
                assert(fishbone_less_at(self.1@, other.1@, k as int));
                true
            } else {
                proof {
                    lemma_decided_not_less(self.1@, other.1@, k as int);
                }
                false
            }
        } else if k < other.1.len() {
            assert(fishbone_less_at(self.1@, other.1@, k as int));
            true
        } else {
            proof {
                lemma_decided_not_less(self.1@, other.1@, k as int);
            }
            k == self.1.len() && self.0 < other.0
        }
    }
}

/// The first position at which the two fishbones have bones of different levels, or the
/// length of the shorter one where there is none.
fn first_level_difference(a: &Vec<Bone>, b: &Vec<Bone>) -> (k: usize)
    requires
        forall|i: int| 0 <= i < a@.len() ==> (#[trigger] a@[i]).level_fits(),
        forall|i: int| 0 <= i < b@.len() ==> (#[trigger] b@[i]).level_fits(),
    ensures
        levels_agree_before(a@, b@, k as int),
        k < a.len() && k < b.len() ==> a@[k as int].spec_level() != b@[k as int].spec_level(),
{
    let mut k: usize = 0;
    while k < a.len() && k < b.len()
        invariant
            levels_agree_before(a@, b@, k as int),
            forall|i: int| 0 <= i < a@.len() ==> (#[trigger] a@[i]).level_fits(),
            forall|i: int| 0 <= i < b@.len() ==> (#[trigger] b@[i]).level_fits(),
        decreases a.len() - k,
    {
        if a[k].level() != b[k].level() {
            return k;
        }
        k += 1;
    }
    k
}

/// Swords with the same fishbone have the same quality: assembling the same numbers twice
/// gives the same fishbone, and so the same quality.
pub proof fn lemma_quality_of_same_numbers(a: Sword, b: Sword, values: Seq<i64>)
    requires
        a.1@ == spec_assemble(values),
        b.1@ == spec_assemble(values),
    ensures
        a.1@ == b.1@,
        a.spec_quality() == b.spec_quality(),
        a.quality_fits() == b.quality_fits(),
{
    assert(a.spines() =~= b.spines());
}

/// Where the levels agree before `k` and at `k` the second fishbone has ended or holds
/// the bone of lower level, or both have ended, the first does not come before the second.
pub proof fn lemma_decided_not_less(a: Seq<Bone>, b: Seq<Bone>, k: int)
    requires
        levels_agree_before(a, b, k),
        k == b.len() || (k < a.len() && a[k].spec_level() > b[k].spec_level()),
    ensures
        !fishbone_less(a, b),
{
    if fishbone_less(a, b) {
        let w = choose|w: int| fishbone_less_at(a, b, w);
        if w < k {
            assert(a[w].spec_level() == b[w].spec_level());
        } else if w > k {
            assert(a[k].spec_level() == b[k].spec_level());
        }
    }
}

/// Fishbones with the same levels do not come one before the other.
pub proof fn lemma_same_levels_not_less(a: Seq<Bone>, b: Seq<Bone>)
    requires
        fishbone_same(a, b),
    ensures
        !fishbone_less(a, b),
        !fishbone_less(b, a),
{
    lemma_decided_not_less(a, b, a.len() as int);
    assert(levels_agree_before(b, a, a.len() as int));
    lemma_decided_not_less(b, a, a.len() as int);
}

} // verus!
