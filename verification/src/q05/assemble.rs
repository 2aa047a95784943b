//! The assembler: builds a fishbone from a sequence of numbers, one number at a time.

use crate::q05::bone::Bone;
use vstd::prelude::*;

verus! {

/// The fishbone after `n` has been offered to it: the first bone that takes `n` has
/// taken it and no other bone has changed; where no bone takes it, a new `Start(n)`
/// stands at the end.
pub open spec fn place(fishbone: Seq<Bone>, n: i64) -> Seq<Bone>
    decreases fishbone.len(),
{
    if fishbone.len() == 0 {
        seq![Bone::Start(n)]
    } else {
        match fishbone.first().spec_next(n) {
            Some(b) => seq![b] + fishbone.drop_first(),
            None => seq![fishbone.first()] + place(fishbone.drop_first(), n),
        }
    }
}

/// The fishbone built from `values`, offered in order to a fishbone that starts empty.
pub open spec fn spec_assemble(values: Seq<i64>) -> Seq<Bone>
    decreases values.len(),
{
    if values.len() == 0 {
        Seq::empty()
    } else {
        place(spec_assemble(values.drop_last()), values.last())
    }
}

/// Every bone of the fishbone is strictly increasing.
pub open spec fn all_wf(fishbone: Seq<Bone>) -> bool {
    forall|i: int| 0 <= i < fishbone.len() ==> (#[trigger] fishbone[i]).wf()
}

/// No bone of `fishbone` before index `k` takes `n`.
pub open spec fn none_takes_before(fishbone: Seq<Bone>, n: i64, k: int) -> bool {
    forall|j: int| 0 <= j < k ==> (#[trigger] fishbone[j]).spec_next(n) is None
}

/// Where the bone at `i` is the first to take `n`, placing `n` changes that bone alone.
pub proof fn lemma_place_at(fishbone: Seq<Bone>, n: i64, i: int)
    requires
        0 <= i < fishbone.len(),
        none_takes_before(fishbone, n, i),
        fishbone[i].spec_next(n) is Some,
    ensures
        place(fishbone, n) == fishbone.update(i, fishbone[i].spec_next(n).unwrap()),
    decreases fishbone.len(),
{
    let b = fishbone[i].spec_next(n).unwrap();
    if i == 0 {
        assert(place(fishbone, n) =~= fishbone.update(i, b));
    } else {
        let rest = fishbone.drop_first();
        assert(fishbone[0].spec_next(n) is None);
        assert forall|j: int| 0 <= j < i - 1 implies (#[trigger] rest[j]).spec_next(n) is None by {
            assert(rest[j] == fishbone[j + 1]);
        }
        lemma_place_at(rest, n, i - 1);
        assert(place(fishbone, n) =~= fishbone.update(i, b));
    }
}

/// Where no bone takes `n`, placing `n` adds `Start(n)` at the end.
pub proof fn lemma_place_new(fishbone: Seq<Bone>, n: i64)
    requires
        none_takes_before(fishbone, n, fishbone.len() as int),
    ensures
        place(fishbone, n) == fishbone.push(Bone::Start(n)),
    decreases fishbone.len(),
{
    if fishbone.len() == 0 {
        assert(place(fishbone, n) =~= fishbone.push(Bone::Start(n)));
    } else {
        let rest = fishbone.drop_first();
        assert(fishbone[0].spec_next(n) is None);
        assert forall|j: int| 0 <= j < rest.len() implies (#[trigger] rest[j]).spec_next(n) is None by {
            assert(rest[j] == fishbone[j + 1]);
        }
        lemma_place_new(rest, n);
        assert(place(fishbone, n) =~= fishbone.push(Bone::Start(n)));
    }
}

/// Placing a number keeps every bone in its position, changes at most one of them, and
/// lengthens the fishbone by at most one bone.
pub proof fn lemma_place_shape(fishbone: Seq<Bone>, n: i64)
    ensures
        fishbone.len() <= place(fishbone, n).len() <= fishbone.len() + 1,
        forall|i: int|
            0 <= i < fishbone.len() ==> #[trigger] place(fishbone, n)[i] == fishbone[i] || Some(
                place(fishbone, n)[i],
            ) == fishbone[i].spec_next(n),
        place(fishbone, n).len() == fishbone.len() + 1 ==> place(fishbone, n).last()
            == Bone::Start(n),
    decreases fishbone.len(),
{
    if fishbone.len() > 0 {
        let rest = fishbone.drop_first();
        lemma_place_shape(rest, n);
        let after = place(fishbone, n);
        match fishbone.first().spec_next(n) {
            Some(b) => {
                assert forall|i: int| 0 <= i < fishbone.len() implies #[trigger] after[i]
                    == fishbone[i] || Some(after[i]) == fishbone[i].spec_next(n) by {
                    if i > 0 {
                        assert(after[i] == rest[i - 1]);
                    }
                }
            },
            None => {
                assert forall|i: int| 0 <= i < fishbone.len() implies #[trigger] after[i]
                    == fishbone[i] || Some(after[i]) == fishbone[i].spec_next(n) by {
                    if i > 0 {
                        assert(after[i] == place(rest, n)[i - 1]);
                        assert(fishbone[i] == rest[i - 1]);
                    }
                }
            },
        }
    }
}

/// Placing a number into a fishbone of strictly increasing bones gives such a fishbone.
pub proof fn lemma_place_keeps_order(fishbone: Seq<Bone>, n: i64)
    requires
        all_wf(fishbone),
    ensures
        all_wf(place(fishbone, n)),
{
    lemma_place_shape(fishbone, n);
    let after = place(fishbone, n);
    assert forall|i: int| 0 <= i < after.len() implies (#[trigger] after[i]).wf() by {
        if i < fishbone.len() {
            assert(fishbone[i].wf());
            assert(after[i] == fishbone[i] || Some(after[i]) == fishbone[i].spec_next(n));
        }
    }
}

/// A full bone is not changed by placing a number.
pub proof fn lemma_place_keeps_full(fishbone: Seq<Bone>, n: i64, i: int)
    requires
        0 <= i < fishbone.len(),
        fishbone[i] is Full,
    ensures
        i < place(fishbone, n).len(),
        place(fishbone, n)[i] == fishbone[i],
{
    lemma_place_shape(fishbone, n);
    assert(place(fishbone, n)[i] == fishbone[i] || Some(place(fishbone, n)[i])
        == fishbone[i].spec_next(n));
}

/// Placing a number keeps the spine of every bone that was there.
pub proof fn lemma_place_keeps_spines(fishbone: Seq<Bone>, n: i64, i: int)
    requires
        0 <= i < fishbone.len(),
    ensures
        i < place(fishbone, n).len(),
        place(fishbone, n)[i].spec_spine() == fishbone[i].spec_spine(),
{
    lemma_place_shape(fishbone, n);
    assert(place(fishbone, n)[i] == fishbone[i] || Some(place(fishbone, n)[i])
        == fishbone[i].spec_next(n));
}

/// A fishbone has at most as many bones as numbers went into it, and at least one bone
/// where at least one number did.
pub proof fn lemma_assemble_len(values: Seq<i64>)
    ensures
        spec_assemble(values).len() <= values.len(),
        values.len() > 0 ==> spec_assemble(values).len() > 0,
    decreases values.len(),
{
    if values.len() > 0 {
        lemma_assemble_len(values.drop_last());
        lemma_place_shape(spec_assemble(values.drop_last()), values.last());
    }
}

/// Every bone of an assembled fishbone holds strictly increasing numbers, so no bone
/// holds a number twice.
pub proof fn lemma_assemble_ordered(values: Seq<i64>)
    ensures
        all_wf(spec_assemble(values)),
    decreases values.len(),
{
    if values.len() > 0 {
        lemma_assemble_ordered(values.drop_last());
        lemma_place_keeps_order(spec_assemble(values.drop_last()), values.last());
    }
}

/// A fishbone grows as more numbers are offered: the fishbone of a prefix of the input
/// is no longer than that of the whole input.
pub proof fn lemma_assemble_prefix_len(values: Seq<i64>, k: int)
    requires
        0 <= k <= values.len(),
    ensures
        spec_assemble(values.take(k)).len() <= spec_assemble(values).len(),
    decreases values.len() - k,
{
    if k == values.len() {
        assert(values.take(k) =~= values);
    } else {
        lemma_assemble_prefix_len(values, k + 1);
        let t = values.take(k + 1);
        assert(t.drop_last() =~= values.take(k));
        lemma_place_shape(spec_assemble(values.take(k)), t.last());
    }
}

/// A bone that is full after the first `k` numbers is the same bone after all of them:
/// no later number changes it.
pub proof fn lemma_full_is_final(values: Seq<i64>, k: int, i: int)
    requires
        0 <= k <= values.len(),
        0 <= i < spec_assemble(values.take(k)).len(),
        spec_assemble(values.take(k))[i] is Full,
    ensures
        i < spec_assemble(values).len(),
        spec_assemble(values)[i] == spec_assemble(values.take(k))[i],
    decreases values.len() - k,
{
    if k == values.len() {
        assert(values.take(k) =~= values);
    } else {
        let t = values.take(k + 1);
        assert(t.drop_last() =~= values.take(k));
        lemma_place_keeps_full(spec_assemble(values.take(k)), t.last(), i);
        lemma_full_is_final(values, k + 1, i);
    }
}

/// Offers `n` to the fishbone: the first bone that takes it is changed in place, and
/// where none takes it a new `Start(n)` is added at the end.
pub fn place_value(fishbone: &mut Vec<Bone>, n: i64)
    ensures
        final(fishbone)@ == place(old(fishbone)@, n),
{
    let mut i: usize = 0;
    while i < fishbone.len()
        invariant
            0 <= i <= fishbone.len(),
            fishbone@ == old(fishbone)@,
            none_takes_before(fishbone@, n, i as int),
        decreases fishbone.len() - i,
    {
        match fishbone[i].next(n) {
            Some(b) => {
                proof {
                    lemma_place_at(fishbone@, n, i as int);
                }
                fishbone[i] = b;
                return ;
            },
            None => {},
        }
        i += 1;
    }
    proof {
        lemma_place_new(fishbone@, n);
    }
    fishbone.push(Bone::Start(n));
}

/// Builds the fishbone of `values`: the first number starts the first bone, and each
/// further number goes to the first bone that takes it or starts a new bone at the end.
pub fn assemble(values: &[i64]) -> (fishbone: Vec<Bone>)
    ensures
        fishbone@ == spec_assemble(values@),
        fishbone.len() <= values.len(),
        values.len() > 0 ==> fishbone.len() > 0,
        all_wf(fishbone@),
{
    let mut fishbone: Vec<Bone> = Vec::new();
    let mut k: usize = 0;
    assert(values@.take(0) =~= Seq::<i64>::empty());
    while k < values.len()
        invariant
            0 <= k <= values.len(),
            fishbone@ == spec_assemble(values@.take(k as int)),
        decreases values.len() - k,
    {
        proof {
            let t = values@.take(k + 1);
            assert(t.drop_last() =~= values@.take(k as int));
        }
        place_value(&mut fishbone, values[k]);
        k += 1;
    }
    proof {
        assert(values@.take(k as int) =~= values@);
        lemma_assemble_len(values@);
        lemma_assemble_ordered(values@);
    }
    fishbone
}

} // verus!
