//! The order of swords is a strict total order on what it compares: quality, then the
//! levels of the bones, then the identifier.

use crate::q05::bone::Bone;
use crate::q05::sword::{
    fishbone_less, fishbone_less_at, fishbone_same, lemma_decided_not_less,
    lemma_same_levels_not_less, levels_agree_before, Sword,
};
use std::cmp::Ordering;
use vstd::prelude::*;

verus! {

/// Of two fishbones at most one comes before the other.
pub proof fn lemma_fishbone_less_asymmetric(a: Seq<Bone>, b: Seq<Bone>)
    requires
        fishbone_less(a, b),
    ensures
        !fishbone_less(b, a),
        !fishbone_same(a, b),
{
    let w = choose|w: int| fishbone_less_at(a, b, w);
    assert(levels_agree_before(b, a, w));
    lemma_decided_not_less(b, a, w);
    if fishbone_same(a, b) {
        lemma_same_levels_not_less(a, b);
    }
}

/// Coming before is transitive on fishbones.
pub proof fn lemma_fishbone_less_transitive(a: Seq<Bone>, b: Seq<Bone>, c: Seq<Bone>)
    requires
        fishbone_less(a, b),
        fishbone_less(b, c),
    ensures
        fishbone_less(a, c),
{
    let w1 = choose|w: int| fishbone_less_at(a, b, w);
    let w2 = choose|w: int| fishbone_less_at(b, c, w);
    let w = if w1 <= w2 {
        w1
    } else {
        w2
    };
    assert forall|j: int| 0 <= j < w implies (#[trigger] a[j]).spec_level()
        == c[j].spec_level() by {
        assert(a[j].spec_level() == b[j].spec_level());
        assert(b[j].spec_level() == c[j].spec_level());
    }
    if w1 < w2 {
        assert(b[w1].spec_level() == c[w1].spec_level());
    } else if w2 < w1 {
        assert(a[w2].spec_level() == b[w2].spec_level());
    }
    assert(fishbone_less_at(a, c, w));
}

/// Having the same levels is symmetric and transitive, and it can stand in for either
/// side of a comparison.
pub proof fn lemma_fishbone_same_substitutes(a: Seq<Bone>, b: Seq<Bone>, c: Seq<Bone>)
    ensures
        fishbone_same(a, a),
        fishbone_same(a, b) ==> fishbone_same(b, a),
        fishbone_same(a, b) && fishbone_same(b, c) ==> fishbone_same(a, c),
        fishbone_same(a, b) && fishbone_less(b, c) ==> fishbone_less(a, c),
        fishbone_less(a, b) && fishbone_same(b, c) ==> fishbone_less(a, c),
{
    if fishbone_same(a, b) {
        assert(levels_agree_before(b, a, b.len() as int));
        if fishbone_same(b, c) {
            assert forall|j: int| 0 <= j < a.len() implies (#[trigger] a[j]).spec_level()
                == c[j].spec_level() by {
                assert(a[j].spec_level() == b[j].spec_level());
                assert(b[j].spec_level() == c[j].spec_level());
            }
        }
        if fishbone_less(b, c) {
            let w = choose|w: int| fishbone_less_at(b, c, w);
            assert forall|j: int| 0 <= j < w implies (#[trigger] a[j]).spec_level()
                == c[j].spec_level() by {
                assert(a[j].spec_level() == b[j].spec_level());
                assert(b[j].spec_level() == c[j].spec_level());
            }
            if w < b.len() {
                assert(a[w].spec_level() == b[w].spec_level());
            }
            assert(fishbone_less_at(a, c, w));
        }
    }
    if fishbone_less(a, b) && fishbone_same(b, c) {
        let w = choose|w: int| fishbone_less_at(a, b, w);
        assert forall|j: int| 0 <= j < w implies (#[trigger] a[j]).spec_level()
            == c[j].spec_level() by {
            assert(a[j].spec_level() == b[j].spec_level());
            assert(b[j].spec_level() == c[j].spec_level());
        }
        assert(b[w].spec_level() == c[w].spec_level());
        assert(fishbone_less_at(a, c, w));
    }
}

/// Two fishbones whose levels agree before `k` are in order one way or the other, or
/// have the same levels throughout.
proof fn lemma_fishbone_decide_from(a: Seq<Bone>, b: Seq<Bone>, k: int)
    requires
        levels_agree_before(a, b, k),
    ensures
        fishbone_less(a, b) || fishbone_less(b, a) || fishbone_same(a, b),
    decreases a.len() - k,
{
    assert(levels_agree_before(b, a, k));
    if k == a.len() {
        if k < b.len() {
            assert(fishbone_less_at(a, b, k));
        }
    } else if k == b.len() {
        assert(fishbone_less_at(b, a, k));
    } else if a[k].spec_level() < b[k].spec_level() {
        assert(fishbone_less_at(a, b, k));
    } else if a[k].spec_level() > b[k].spec_level() {
        assert(fishbone_less_at(b, a, k));
    } else {
        lemma_fishbone_decide_from(a, b, k + 1);
    }
}

/// Any two fishbones are in order one way or the other, or have the same levels.
pub proof fn lemma_fishbone_total(a: Seq<Bone>, b: Seq<Bone>)
    ensures
        fishbone_less(a, b) || fishbone_less(b, a) || fishbone_same(a, b),
{
    lemma_fishbone_decide_from(a, b, 0);
}

/// No sword ranks below itself.
pub proof fn lemma_precedes_irreflexive(a: Sword)
    ensures
        !a.precedes(a),
        a.same_rank(a),
{
    lemma_fishbone_same_substitutes(a.1@, a.1@, a.1@);
    lemma_same_levels_not_less(a.1@, a.1@);
}

/// Of two swords at most one ranks below the other, and then they do not have the same
/// rank.
pub proof fn lemma_precedes_asymmetric(a: Sword, b: Sword)
    requires
        a.precedes(b),
    ensures
        !b.precedes(a),
        !a.same_rank(b),
        !b.same_rank(a),
{
    lemma_fishbone_same_substitutes(a.1@, b.1@, a.1@);
    lemma_fishbone_same_substitutes(b.1@, a.1@, b.1@);
    if fishbone_less(a.1@, b.1@) {
        lemma_fishbone_less_asymmetric(a.1@, b.1@);
    }
    if fishbone_less(b.1@, a.1@) {
        lemma_fishbone_less_asymmetric(b.1@, a.1@);
    }
}

/// Ranking below is transitive.
pub proof fn lemma_precedes_transitive(a: Sword, b: Sword, c: Sword)
    requires
        a.precedes(b),
        b.precedes(c),
    ensures
        a.precedes(c),
{
    if a.spec_quality() == b.spec_quality() && b.spec_quality() == c.spec_quality() {
        lemma_fishbone_same_substitutes(a.1@, b.1@, c.1@);
        if fishbone_less(a.1@, b.1@) && fishbone_less(b.1@, c.1@) {
            lemma_fishbone_less_transitive(a.1@, b.1@, c.1@);
        }
    }
}

/// Any two swords are ranked: one ranks below the other, or they have the same rank, and
/// exactly one of the three holds.
pub proof fn lemma_precedes_total(a: Sword, b: Sword)
    ensures
        a.precedes(b) || b.precedes(a) || a.same_rank(b),
        a.same_rank(b) <==> !a.precedes(b) && !b.precedes(a),
{
    lemma_fishbone_total(a.1@, b.1@);
    if a.precedes(b) {
        lemma_precedes_asymmetric(a, b);
    }
    if b.precedes(a) {
        lemma_precedes_asymmetric(b, a);
    }
}

/// The order of swords follows its three tiers: the quality decides where it differs;
/// then the fishbones, compared by level; then the identifier.
pub proof fn lemma_precedes_by_tiers(a: Sword, b: Sword)
    ensures
        a.spec_quality() < b.spec_quality() ==> a.precedes(b),
        a.spec_quality() == b.spec_quality() && fishbone_less(a.1@, b.1@) ==> a.precedes(b),
        a.spec_quality() == b.spec_quality() && fishbone_same(a.1@, b.1@) ==> (a.precedes(b)
            <==> a.0 < b.0),
        a.precedes(b) ==> a.spec_quality() <= b.spec_quality(),
{
    if fishbone_same(a.1@, b.1@) {
        lemma_same_levels_not_less(a.1@, b.1@);
    }
}

/// Having the same rank is an equivalence, and swords of the same rank rank alike against
/// every third sword: the order is a strict weak order.
pub proof fn lemma_same_rank_equivalence(a: Sword, b: Sword, c: Sword)
    ensures
        a.same_rank(b) ==> b.same_rank(a),
        a.same_rank(b) && b.same_rank(c) ==> a.same_rank(c),
        a.same_rank(b) ==> (a.precedes(c) <==> b.precedes(c)),
        a.same_rank(b) ==> (c.precedes(a) <==> c.precedes(b)),
{
    lemma_fishbone_same_substitutes(a.1@, b.1@, c.1@);
    lemma_fishbone_same_substitutes(b.1@, a.1@, c.1@);
    lemma_fishbone_same_substitutes(c.1@, a.1@, b.1@);
    lemma_fishbone_same_substitutes(c.1@, b.1@, a.1@);
}

impl Bone {
    /// Compares two bones by level.
    pub fn cmp(&self, other: &Bone) -> (o: Ordering)
        requires
            self.level_fits(),
            other.level_fits(),
        ensures
            o == Ordering::Less <==> self.spec_level() < other.spec_level(),
            o == Ordering::Equal <==> self.spec_level() == other.spec_level(),
            o == Ordering::Greater <==> self.spec_level() > other.spec_level(),
    {
        let la = self.level();
        let lb = other.level();
        if la < lb {
            Ordering::Less
        } else if la > lb {
            Ordering::Greater
        } else {
            Ordering::Equal
        }
    }
}

impl Sword {
    /// Compares two swords: by quality, the higher being greater; of equal qualities, by
    /// the levels of their bones, position by position, a fishbone that ends first being
    /// less; of fishbones with the same levels, by identifier.
    pub fn cmp(&self, other: &Sword) -> (o: Ordering)
        requires
            self.rankable(),
            other.rankable(),
        ensures
            o == Ordering::Less <==> self.precedes(*other),
            o == Ordering::Greater <==> other.precedes(*self),
            o == Ordering::Equal <==> self.same_rank(*other),
    {
        proof {
            lemma_precedes_total(*self, *other);
        }
        if self.ranks_below(other) {
            Ordering::Less
        } else if other.ranks_below(self) {
            Ordering::Greater
        } else {
            Ordering::Equal
        }
    }
}

} // verus!
