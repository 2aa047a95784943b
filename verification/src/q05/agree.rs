//! All rankings of a set of swords agree: swords of the same rank may stand in any
//! order, and nothing that is computed from a ranking depends on which one is taken.

use crate::q05::order::{
    lemma_precedes_irreflexive, lemma_precedes_total, lemma_precedes_transitive,
    lemma_same_rank_equivalence,
};
use crate::q05::rank::{
    is_arrangement, is_ranking, lemma_ranking_of_first_is_ranking, rank_share, rank_sum,
    ranking_of, spec_checksum,
};
use crate::q05::sword::Sword;
use vstd::prelude::*;

verus! {

/// The number of entries of `list` for which `holds` is true.
pub open spec fn count_where(list: Seq<usize>, holds: spec_fn(usize) -> bool) -> nat
    decreases list.len(),
{
    if list.len() == 0 {
        0
    } else {
        count_where(list.drop_last(), holds) + if holds(list.last()) {
            1nat
        } else {
            0nat
        }
    }
}

/// The number of indices below `n` for which `holds` is true.
pub open spec fn count_below(n: nat, holds: spec_fn(usize) -> bool) -> nat
    decreases n,
{
    if n == 0 {
        0
    } else {
        count_below((n - 1) as nat, holds) + if holds((n - 1) as usize) {
            1nat
        } else {
            0nat
        }
    }
}

/// Taking an entry out of a list takes it out of the count.
proof fn lemma_count_remove(list: Seq<usize>, holds: spec_fn(usize) -> bool, p: int)
    requires
        0 <= p < list.len(),
    ensures
        count_where(list, holds) == count_where(list.remove(p), holds) + if holds(list[p]) {
            1nat
        } else {
            0nat
        },
    decreases list.len(),
{
    if p == list.len() - 1 {
        assert(list.remove(p) =~= list.drop_last());
    } else {
        lemma_count_remove(list.drop_last(), holds, p);
        assert(list.remove(p).drop_last() =~= list.drop_last().remove(p));
        assert(list.remove(p).last() == list.last());
    }
}

/// In whatever order the indices below `n` stand, as many of them meet a condition.
proof fn lemma_count_of_arrangement(order: Seq<usize>, n: nat, holds: spec_fn(usize) -> bool)
    requires
        is_arrangement(order, n as int),
        n <= usize::MAX,
    ensures
        count_where(order, holds) == count_below(n, holds),
    decreases n,
{
    if n > 0 {
        let v = (n - 1) as usize;
        assert(order.contains(v));
        let p = choose|p: int| 0 <= p < order.len() && order[p] == v;
        let rest = order.remove(p);
        assert forall|i: int| 0 <= i < n - 1 implies 0 <= #[trigger] rest[i] < n - 1 by {
            let at = if i < p {
                i
            } else {
                i + 1
            };
            assert(rest[i] == order[at]);
            assert(order[at] != order[p]);
        }
        assert forall|i: int, j: int| 0 <= i < j < n - 1 implies #[trigger] rest[i]
            != #[trigger] rest[j] by {
            let at_i = if i < p {
                i
            } else {
                i + 1
            };
            let at_j = if j < p {
                j
            } else {
                j + 1
            };
            assert(order[at_i] != order[at_j]);
        }
        assert forall|w: usize| 0 <= w < n - 1 implies #[trigger] rest.contains(w) by {
            assert(order.contains(w));
            let at = choose|at: int| 0 <= at < order.len() && order[at] == w;
            let i = if at < p {
                at
            } else {
                at - 1
            };
            assert(rest[i] == w);
        }
        lemma_count_remove(order, holds, p);
        lemma_count_of_arrangement(rest, (n - 1) as nat, holds);
    }
}

/// Where one condition implies another on every entry, it is met by no more entries.
proof fn lemma_count_implies(
    list: Seq<usize>,
    narrow: spec_fn(usize) -> bool,
    wide: spec_fn(usize) -> bool,
)
    requires
        forall|i: int| 0 <= i < list.len() ==> narrow(#[trigger] list[i]) ==> wide(list[i]),
    ensures
        count_where(list, narrow) <= count_where(list, wide),
    decreases list.len(),
{
    if list.len() > 0 {
        let front = list.drop_last();
        assert forall|i: int| 0 <= i < front.len() && narrow(#[trigger] front[i]) implies wide(
            front[i],
        ) by {
            assert(front[i] == list[i]);
        }
        lemma_count_implies(front, narrow, wide);
        assert(narrow(list[list.len() - 1]) ==> wide(list[list.len() - 1]));
    }
}

/// Where the first `k` entries all meet a condition, at least `k` entries meet it.
proof fn lemma_count_of_prefix(list: Seq<usize>, holds: spec_fn(usize) -> bool, k: int)
    requires
        0 <= k <= list.len(),
        forall|i: int| 0 <= i < k ==> holds(#[trigger] list[i]),
    ensures
        count_where(list, holds) >= k,
    decreases list.len(),
{
    if list.len() > 0 {
        let front = list.drop_last();
        let m = if k < list.len() {
            k
        } else {
            k - 1
        };
        assert forall|i: int| 0 <= i < m implies holds(#[trigger] front[i]) by {
            assert(front[i] == list[i]);
        }
        lemma_count_of_prefix(front, holds, m);
        if k == list.len() {
            assert(holds(list[k - 1]));
        }
    }
}

/// Where no entry from position `k` on meets a condition, at most `k` entries meet it.
proof fn lemma_count_without_suffix(list: Seq<usize>, holds: spec_fn(usize) -> bool, k: int)
    requires
        0 <= k <= list.len(),
        forall|i: int| k <= i < list.len() ==> !holds(#[trigger] list[i]),
    ensures
        count_where(list, holds) <= k,
    decreases list.len(),
{
    if list.len() > 0 {
        let front = list.drop_last();
        let m = if k < list.len() {
            k
        } else {
            k - 1
        };
        assert forall|i: int| m <= i < front.len() implies !holds(#[trigger] front[i]) by {
            assert(front[i] == list[i]);
        }
        lemma_count_without_suffix(front, holds, m);
        if k < list.len() {
            assert(!holds(list[list.len() - 1]));
        }
    }
}

/// A sword that does not rank above a second one, which ranks below a third, ranks below
/// the third.
proof fn lemma_not_above_then_below(a: Sword, b: Sword, c: Sword)
    requires
        !b.precedes(a),
        b.precedes(c),
    ensures
        a.precedes(c),
{
    lemma_precedes_total(a, b);
    lemma_same_rank_equivalence(a, b, c);
    if a.precedes(b) {
        lemma_precedes_transitive(a, b, c);
    }
}

/// In two rankings of the same swords, the sword at a position of the one does not rank
/// below the sword at that position of the other.
proof fn lemma_no_gap(swords: Seq<Sword>, a: Seq<usize>, b: Seq<usize>, i: int)
    requires
        swords.len() <= usize::MAX,
        is_ranking(swords, a),
        is_ranking(swords, b),
        0 <= i < swords.len(),
    ensures
        !swords[a[i] as int].precedes(swords[b[i] as int]),
{
    let n = swords.len();
    let x = swords[a[i] as int];
    let y = swords[b[i] as int];
    if x.precedes(y) {
        let upto_x = |e: usize| !x.precedes(swords[e as int]);
        let below_y = |e: usize| swords[e as int].precedes(y);
        assert forall|j: int| 0 <= j < i + 1 implies upto_x(#[trigger] a[j]) by {
            if j < i {
                assert(!swords[a[i] as int].precedes(swords[a[j] as int]));
            } else {
                lemma_precedes_irreflexive(x);
            }
        }
        lemma_count_of_prefix(a, upto_x, i + 1);
        assert forall|j: int| 0 <= j < a.len() && upto_x(#[trigger] a[j]) implies below_y(
            a[j],
        ) by {
            lemma_not_above_then_below(swords[a[j] as int], x, y);
        }
        lemma_count_implies(a, upto_x, below_y);
        assert forall|j: int| i <= j < b.len() implies !below_y(#[trigger] b[j]) by {
            if j > i {
                assert(!swords[b[j] as int].precedes(swords[b[i] as int]));
            } else {
                lemma_precedes_irreflexive(y);
            }
        }
        lemma_count_without_suffix(b, below_y, i);
        lemma_count_of_arrangement(a, n, below_y);
        lemma_count_of_arrangement(b, n, below_y);
    }
}

/// All rankings of the same swords agree: at each position they hold swords of the same
/// rank, which have the same quality, the same levels and the same identifier.
pub proof fn lemma_rankings_agree(swords: Seq<Sword>, a: Seq<usize>, b: Seq<usize>, i: int)
    requires
        swords.len() <= usize::MAX,
        is_ranking(swords, a),
        is_ranking(swords, b),
        0 <= i < swords.len(),
    ensures
        swords[a[i] as int].same_rank(swords[b[i] as int]),
{
    lemma_no_gap(swords, a, b, i);
    lemma_no_gap(swords, b, a, i);
    lemma_precedes_total(swords[a[i] as int], swords[b[i] as int]);
}

/// The sums of the shares of the best swords are the same in all rankings.
pub proof fn lemma_rank_sums_agree(swords: Seq<Sword>, a: Seq<usize>, b: Seq<usize>, k: int)
    requires
        swords.len() <= usize::MAX,
        is_ranking(swords, a),
        is_ranking(swords, b),
        0 <= k <= swords.len(),
    ensures
        rank_sum(swords, a, k) == rank_sum(swords, b, k),
        k >= 1 ==> rank_share(swords, a, k) == rank_share(swords, b, k),
    decreases k,
{
    if k > 0 {
        lemma_rank_sums_agree(swords, a, b, k - 1);
        lemma_rankings_agree(swords, a, b, swords.len() - k);
    }
}

/// The checksum does not depend on the ranking: whichever way swords of the same rank
/// are ordered, the sum of identifier times rank is the checksum of the swords.
pub proof fn lemma_checksum_of_any_ranking(swords: Seq<Sword>, order: Seq<usize>)
    requires
        swords.len() <= usize::MAX,
        is_ranking(swords, order),
    ensures
        rank_sum(swords, order, swords.len() as int) == spec_checksum(swords),
{
    lemma_ranking_of_first_is_ranking(swords, swords.len());
    lemma_rank_sums_agree(swords, order, ranking_of(swords), swords.len() as int);
}

} // verus!
