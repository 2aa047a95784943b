//! The ranker: orders swords and computes the three results asked of a set of swords.

use crate::q05::order::{
    lemma_precedes_asymmetric, lemma_precedes_irreflexive, lemma_precedes_total,
    lemma_precedes_transitive, lemma_same_rank_equivalence,
};
use crate::q05::digits::lemma_concat_non_negative;
use crate::q05::sword::Sword;
use vstd::prelude::*;

verus! {

/// Why a record or a set of swords was refused.
#[derive(Clone, Copy, Debug, PartialEq, Eq, Structural)]
pub enum SwordError {
    /// A record is not an identifier, a colon and a list of numbers with commas between.
    MalformedRecord,
    /// There is no sword to rank.
    EmptyInput,
}

/// What ranking a set of swords gives.
#[derive(Clone, Copy, Debug, PartialEq, Eq, Structural)]
pub struct Report {
    /// The quality of the first sword of the input.
    pub first_quality: i64,
    /// The highest quality among the swords less the lowest.
    pub quality_range: i64,
    /// The sum of each sword's identifier times its rank, the best sword having rank 1.
    pub checksum: i64,
}

/// `order` holds each index below `n` once and nothing else.
pub open spec fn is_arrangement(order: Seq<usize>, n: int) -> bool {
    &&& order.len() == n
    &&& forall|i: int| 0 <= i < n ==> 0 <= #[trigger] order[i] < n
    &&& forall|i: int, j: int| 0 <= i < j < n ==> #[trigger] order[i] != #[trigger] order[j]
    &&& forall|v: usize| 0 <= v < n ==> #[trigger] order.contains(v)
}

/// No sword stands in `order` before one that ranks below it.
pub open spec fn is_ascending(swords: Seq<Sword>, order: Seq<usize>) -> bool {
    forall|i: int, j: int|
        0 <= i < j < order.len() ==> !swords[#[trigger] order[j] as int].precedes(
            swords[#[trigger] order[i] as int],
        )
}

/// `order` lists the indices of the first `k` swords, each once, lowest-ranked first.
pub open spec fn is_ranking_of_first(swords: Seq<Sword>, order: Seq<usize>, k: int) -> bool {
    is_arrangement(order, k) && is_ascending(swords, order)
}

/// `order` is a ranking of the swords: a permutation of their indices in which no
/// sword stands before one that ranks below it.
pub open spec fn is_ranking(swords: Seq<Sword>, order: Seq<usize>) -> bool {
    is_ranking_of_first(swords, order, swords.len() as int)
}

/// The ranking `order` with index `x` added: `x` stands after every sword that does not
/// rank above it.
pub open spec fn insert_ranked(swords: Seq<Sword>, order: Seq<usize>, x: usize) -> Seq<usize>
    decreases order.len(),
{
    if order.len() > 0 && swords[x as int].precedes(swords[order.last() as int]) {
        insert_ranked(swords, order.drop_last(), x).push(order.last())
    } else {
        order.push(x)
    }
}

/// The ranking of the first `k` swords in which swords of the same rank keep the order
/// of the input.
pub open spec fn ranking_of_first(swords: Seq<Sword>, k: nat) -> Seq<usize>
    decreases k,
{
    if k == 0 {
        Seq::empty()
    } else {
        insert_ranked(swords, ranking_of_first(swords, (k - 1) as nat), (k - 1) as usize)
    }
}

/// The ranking of the swords, lowest-ranked first, in which swords of the same rank keep
/// the order of the input.
pub open spec fn ranking_of(swords: Seq<Sword>) -> Seq<usize> {
    ranking_of_first(swords, swords.len())
}

/// The share of the sword of rank `k` in the checksum: its identifier times `k`. The
/// sword at the end of the ranking has rank 1, the one before it rank 2.
pub open spec fn rank_share(swords: Seq<Sword>, order: Seq<usize>, k: int) -> int {
    k * swords[order[order.len() - k] as int].0
}

/// The sum of the shares of the `k` best swords of the ranking.
pub open spec fn rank_sum(swords: Seq<Sword>, order: Seq<usize>, k: int) -> int
    decreases k,
{
    if k <= 0 {
        0
    } else {
        rank_sum(swords, order, k - 1) + rank_share(swords, order, k)
    }
}

/// The checksum of the swords: the sum over all swords of identifier times rank.
pub open spec fn spec_checksum(swords: Seq<Sword>) -> int {
    rank_sum(swords, ranking_of(swords), swords.len() as int)
}

/// The share of the sword of rank `k`, and the sum of the shares of the `k` best swords,
/// can be held in an `i64`.
pub open spec fn rank_sum_fits_at(swords: Seq<Sword>, order: Seq<usize>, k: int) -> bool {
    &&& i64::MIN <= rank_share(swords, order, k) <= i64::MAX
    &&& i64::MIN <= rank_sum(swords, order, k) <= i64::MAX
}

/// Every share of the checksum, and every sum of the shares of the best swords, can be
/// held in an `i64`.
pub open spec fn rank_sum_fits(swords: Seq<Sword>, order: Seq<usize>) -> bool {
    forall|k: int| 1 <= k <= order.len() ==> #[trigger] rank_sum_fits_at(swords, order, k)
}

/// Every sword can be ranked.
pub open spec fn all_rankable(swords: Seq<Sword>) -> bool {
    forall|i: int| 0 <= i < swords.len() ==> (#[trigger] swords[i]).rankable()
}

/// The swords can be ranked and their checksum computed in `i64` arithmetic.
pub open spec fn rank_fits(swords: Seq<Sword>) -> bool {
    all_rankable(swords) && rank_sum_fits(swords, ranking_of(swords))
}

/// `range` is the highest quality among the swords less the lowest.
pub open spec fn is_quality_range(swords: Seq<Sword>, range: int) -> bool {
    exists|lo: int, hi: int|
        {
            &&& 0 <= lo < swords.len()
            &&& 0 <= hi < swords.len()
            &&& range == swords[hi].spec_quality() - swords[lo].spec_quality()
            &&& forall|k: int|
                0 <= k < swords.len() ==> swords[lo].spec_quality() <= (
                #[trigger] swords[k]).spec_quality() <= swords[hi].spec_quality()
        }
}

/// `report` holds the three results for the swords.
pub open spec fn is_report_of(swords: Seq<Sword>, report: Report) -> bool {
    &&& swords.len() > 0
    &&& report.first_quality == swords[0].spec_quality()
    &&& is_quality_range(swords, report.quality_range as int)
    &&& report.checksum == spec_checksum(swords)
}

/// Not ranking above is transitive: where `a` does not rank above `b`, nor `b` above `c`,
/// `a` does not rank above `c`.
pub proof fn lemma_not_above_transitive(a: Sword, b: Sword, c: Sword)
    requires
        !b.precedes(a),
        !c.precedes(b),
    ensures
        !c.precedes(a),
{
    lemma_precedes_total(a, b);
    lemma_same_rank_equivalence(a, b, c);
    if c.precedes(a) && a.precedes(b) {
        lemma_precedes_transitive(c, a, b);
    }
}

/// Where index `x` ranks below every sword from position `p` on and not below the one
/// before `p`, it enters the ranking at `p`.
proof fn lemma_insert_at(swords: Seq<Sword>, order: Seq<usize>, x: usize, p: int)
    requires
        0 <= p <= order.len(),
        forall|j: int|
            p <= j < order.len() ==> swords[x as int].precedes(swords[#[trigger] order[j] as int]),
        p == 0 || !swords[x as int].precedes(swords[order[p - 1] as int]),
    ensures
        insert_ranked(swords, order, x) == order.insert(p, x),
    decreases order.len(),
{
    if p == order.len() {
        assert(order.push(x) =~= order.insert(p, x));
    } else {
        let front = order.drop_last();
        assert(swords[x as int].precedes(swords[order[order.len() - 1] as int]));
        assert forall|j: int| p <= j < front.len() implies swords[x as int].precedes(
            swords[#[trigger] front[j] as int],
        ) by {
            assert(front[j] == order[j]);
        }
        lemma_insert_at(swords, front, x, p);
        assert(front.insert(p, x).push(order.last()) =~= order.insert(p, x));
    }
}

/// Entering a ranking of the first `k` swords at the right position gives a ranking of
/// the first `k + 1`.
proof fn lemma_insert_keeps_ranking(swords: Seq<Sword>, order: Seq<usize>, k: int, p: int)
    requires
        0 <= k < swords.len(),
        k <= usize::MAX,
        is_ranking_of_first(swords, order, k),
        0 <= p <= k,
        forall|j: int|
            p <= j < k ==> swords[k].precedes(swords[#[trigger] order[j] as int]),
        p == 0 || !swords[k].precedes(swords[order[p - 1] as int]),
    ensures
        is_ranking_of_first(swords, order.insert(p, k as usize), k + 1),
{
    let x = k as usize;
    let after = order.insert(p, x);
    assert forall|i: int, j: int| 0 <= i < j < k + 1 implies #[trigger] after[i]
        != #[trigger] after[j] by {
        let oi = if i < p { i } else { i - 1 };
        let oj = if j < p { j } else { j - 1 };
        if i != p && j != p {
            assert(order[oi] != order[oj]);
        } else if i == p {
            assert(order[oj] < k);
        } else {
            assert(order[oi] < k);
        }
    }
    assert forall|v: usize| 0 <= v < k + 1 implies #[trigger] after.contains(v) by {
        if v == k {
            assert(after[p] == v);
        } else {
            assert(order.contains(v));
            let i = choose|i: int| 0 <= i < order.len() && order[i] == v;
            let i2 = if i < p { i } else { i + 1 };
            assert(after[i2] == v);
        }
    }
    assert forall|i: int, j: int| 0 <= i < j < k + 1 implies !swords[#[trigger] after[j] as int].precedes(
        swords[#[trigger] after[i] as int],
    ) by {
        let oi = if i < p { i } else { i - 1 };
        let oj = if j < p { j } else { j - 1 };
        if i != p && j != p {
            assert(!swords[order[oj] as int].precedes(swords[order[oi] as int]));
        } else if i == p {
            assert(swords[k].precedes(swords[order[oj] as int]));
            lemma_precedes_asymmetric(swords[k], swords[order[oj] as int]);
        } else {
            if oi < p - 1 {
                assert(!swords[order[p - 1] as int].precedes(swords[order[oi] as int]));
            } else {
                lemma_precedes_irreflexive(swords[order[oi] as int]);
            }
            lemma_not_above_transitive(
                swords[order[oi] as int],
                swords[order[p - 1] as int],
                swords[k],
            );
        }
    }
    assert forall|i: int| 0 <= i < k + 1 implies 0 <= #[trigger] after[i] < k + 1 by {
        if i < p {
            assert(after[i] == order[i]);
        } else if i > p {
            assert(after[i] == order[i - 1]);
        }
    }
}

/// The ranking of the swords is a ranking: each sword stands in it once, and none stands
/// before one that ranks below it.
pub proof fn lemma_ranking_of_first_is_ranking(swords: Seq<Sword>, k: nat)
    requires
        k <= swords.len(),
        k <= usize::MAX,
    ensures
        is_ranking_of_first(swords, ranking_of_first(swords, k), k as int),
    decreases k,
{
    if k > 0 {
        let j = (k - 1) as nat;
        lemma_ranking_of_first_is_ranking(swords, j);
        let order = ranking_of_first(swords, j);
        let p = entry_position(swords, order, j as usize);
        lemma_entry_position(swords, order, j as usize);
        lemma_insert_at(swords, order, j as usize, p);
        lemma_insert_keeps_ranking(swords, order, j as int, p);
    }
}

/// The position at which index `x` enters the ranking `order`.
pub open spec fn entry_position(swords: Seq<Sword>, order: Seq<usize>, x: usize) -> int
    decreases order.len(),
{
    if order.len() > 0 && swords[x as int].precedes(swords[order.last() as int]) {
        entry_position(swords, order.drop_last(), x)
    } else {
        order.len() as int
    }
}

/// The entry position stands after every sword that `x` does not rank below and before
/// those that it does.
proof fn lemma_entry_position(swords: Seq<Sword>, order: Seq<usize>, x: usize)
    ensures
        0 <= entry_position(swords, order, x) <= order.len(),
        forall|j: int|
            entry_position(swords, order, x) <= j < order.len() ==> swords[x as int].precedes(
                swords[#[trigger] order[j] as int],
            ),
        entry_position(swords, order, x) == 0 || !swords[x as int].precedes(
            swords[order[entry_position(swords, order, x) - 1] as int],
        ),
    decreases order.len(),
{
    if order.len() > 0 && swords[x as int].precedes(swords[order.last() as int]) {
        let front = order.drop_last();
        lemma_entry_position(swords, front, x);
        let p = entry_position(swords, front, x);
        assert forall|j: int| p <= j < order.len() implies swords[x as int].precedes(
            swords[#[trigger] order[j] as int],
        ) by {
            if j < front.len() {
                assert(front[j] == order[j]);
            }
        }
        if p > 0 {
            assert(front[p - 1] == order[p - 1]);
        }
    }
}

/// Orders the swords: the indices of the swords, lowest-ranked first; swords of the same
/// rank keep the order of the input.
pub fn rank_order(swords: &[Sword]) -> (order: Vec<usize>)
    requires
        all_rankable(swords@),
    ensures
        order@ == ranking_of(swords@),
        is_ranking(swords@, order@),
{
    let mut order: Vec<usize> = Vec::new();
    let mut k: usize = 0;
    while k < swords.len()
        invariant
            0 <= k <= swords.len(),
            all_rankable(swords@),
            order@ == ranking_of_first(swords@, k as nat),
            is_ranking_of_first(swords@, order@, k as int),
        decreases swords.len() - k,
    {
        let mut p: usize = order.len();
        while p > 0
            invariant
                0 <= p <= order.len(),
                order.len() == k,
                k < swords.len(),
                all_rankable(swords@),
                is_ranking_of_first(swords@, order@, k as int),
                forall|j: int|
                    p <= j < order.len() ==> swords@[k as int].precedes(
                        swords@[#[trigger] order@[j] as int],
                    ),
            ensures
                0 <= p <= order.len(),
                forall|j: int|
                    p <= j < order.len() ==> swords@[k as int].precedes(
                        swords@[#[trigger] order@[j] as int],
                    ),
                p == 0 || !swords@[k as int].precedes(swords@[order@[p - 1] as int]),
            decreases p,
        {
            let before = order[p - 1];
            if !swords[k].ranks_below(&swords[before]) {
                break ;
            }
            p -= 1;
        }
        proof {
            lemma_insert_at(swords@, order@, k, p as int);
            lemma_insert_keeps_ranking(swords@, order@, k as int, p as int);
        }
        order.insert(p, k);
        k += 1;
    }
    order
}

/// The three results for a set of swords that can be ranked, or `None` where the
/// checksum cannot be computed in `i64` arithmetic.
fn try_rank(swords: &[Sword]) -> (r: Option<Report>)
    requires
        swords.len() > 0,
        all_rankable(swords@),
    ensures
        r is Some <==> rank_sum_fits(swords@, ranking_of(swords@)),
        r is Some ==> is_report_of(swords@, r.unwrap()),
{
    let order = rank_order(swords);
    let n = swords.len();
    let first_quality = swords[0].quality();
    let lowest = swords[order[0]].quality();
    let highest = swords[order[n - 1]].quality();
    proof {
        let lo = order@[0] as int;
        let hi = order@[n - 1] as int;
        lemma_concat_non_negative(swords@[lo].spines());
        lemma_concat_non_negative(swords@[hi].spines());
        assert forall|k: int| 0 <= k < swords@.len() implies swords@[lo].spec_quality() <= (
        #[trigger] swords@[k]).spec_quality() <= swords@[hi].spec_quality() by {
            assert(order@.contains(k as usize));
            let i = choose|i: int| 0 <= i < order@.len() && order@[i] == k as usize;
            if 0 < i {
                assert(!swords@[order@[i] as int].precedes(swords@[order@[0] as int]));
            }
            if i < n - 1 {
                assert(!swords@[order@[n - 1] as int].precedes(swords@[order@[i] as int]));
            }
        }
    }
    let quality_range = highest - lowest;
    let mut checksum: i64 = 0;
    let mut k: usize = 0;
    while k < n
        invariant
            0 <= k <= n,
            n == swords.len(),
            order@.len() == n,
            order@ == ranking_of(swords@),
            is_ranking(swords@, order@),
            checksum == rank_sum(swords@, order@, k as int),
            forall|j: int| 1 <= j <= k ==> #[trigger] rank_sum_fits_at(swords@, order@, j),
        decreases n - k,
    {
        let at = order[n - 1 - k];
        assert(0 <= order@[n - 1 - k] < n);
        assert(rank_share(swords@, order@, k + 1) == (k + 1) * swords@[at as int].0);
        assert(rank_sum(swords@, order@, k + 1) == rank_sum(swords@, order@, k as int)
            + rank_share(swords@, order@, k + 1));
        let share = match swords[at].checked_checksum(k) {
            Some(share) => share,
            None => {
                assert(!rank_sum_fits_at(swords@, order@, k + 1));
                return None;
            },
        };
        checksum = match checksum.checked_add(share) {
            Some(sum) => sum,
            None => {
                assert(!rank_sum_fits_at(swords@, order@, k + 1));
                return None;
            },
        };
        assert(rank_sum_fits_at(swords@, order@, k + 1));
        k += 1;
    }
    Some(Report { first_quality, quality_range, checksum })
}

/// Whether the swords can be ranked and their checksum computed: whether the quality of
/// each sword, the level of each bone, each share of the checksum and each sum of the
/// shares of the best swords can be held in an `i64`.
pub fn can_rank(swords: &[Sword]) -> (r: bool)
    ensures
        r == rank_fits(swords@),
{
    let mut i: usize = 0;
    while i < swords.len()
        invariant
            0 <= i <= swords.len(),
            forall|j: int| 0 <= j < i ==> (#[trigger] swords@[j]).rankable(),
        decreases swords.len() - i,
    {
        if !swords[i].is_rankable() {
            return false;
        }
        i += 1;
    }
    if swords.len() == 0 {
        return true;
    }
    try_rank(swords).is_some()
}

/// Ranks the swords and gives the quality of the first sword of the input, the range of
/// the qualities, and the checksum: the sum over the swords of identifier times rank,
/// where the best sword has rank 1. An empty set of swords is refused. The qualities,
/// the levels and the sums of the checksum must fit in an `i64`; `can_rank` tells whether
/// they do.
pub fn rank(swords: &[Sword]) -> (r: Result<Report, SwordError>)
    requires
        rank_fits(swords@),
    ensures
        r is Err <==> swords@.len() == 0,
        r is Err ==> r == Err::<Report, SwordError>(SwordError::EmptyInput),
        r is Ok ==> is_report_of(swords@, r.unwrap()),
{
    if swords.len() == 0 {
        return Err(SwordError::EmptyInput);
    }
    Ok(try_rank(swords).unwrap())
}

} // verus!
