//! The decisions of a producer/consumer exchange: the producer publishes
//! the pairwise products of two vectors one at a time in a shared slot, and
//! the consumer adds each value it finds in the slot to a running sum and
//! empties the slot.
use vstd::prelude::*;
use crate::matrix::fits_i32;

verus! {

/// The values the producer publishes, in order: `vec1[i] * vec2[i]` for
/// each `i`, or none at all when the vectors differ in length.
pub open spec fn published(vec1: Seq<i32>, vec2: Seq<i32>) -> Seq<int> {
    if vec1.len() != vec2.len() {
        Seq::empty()
    } else {
        Seq::new(vec1.len(), |i: int| vec1[i] * vec2[i])
    }
}

/// For vectors of one length the producer publishes one value per index,
/// the product of the two entries there.
pub proof fn lemma_published_per_index(vec1: Seq<i32>, vec2: Seq<i32>)
    requires
        vec1.len() == vec2.len(),
    ensures
        published(vec1, vec2).len() == vec1.len(),
        forall|i: int| 0 <= i < vec1.len() ==> #[trigger] published(vec1, vec2)[i] == vec1[i] * vec2[i],
{
}

/// Vectors of different lengths publish nothing.
pub proof fn lemma_published_mismatch(vec1: Seq<i32>, vec2: Seq<i32>)
    requires
        vec1.len() != vec2.len(),
    ensures
        published(vec1, vec2).len() == 0,
{
}

/// Adding a pair at the end of the two vectors adds its product at the end
/// of what is published, after the same values as before.
pub proof fn lemma_published_push(vec1: Seq<i32>, vec2: Seq<i32>, a: i32, b: i32)
    requires
        vec1.len() == vec2.len(),
    ensures
        published(vec1.push(a), vec2.push(b)) == published(vec1, vec2).push(a * b),
{
    assert(published(vec1.push(a), vec2.push(b)) =~= published(vec1, vec2).push(a * b));
}

/// The sum of `vec1[i] * vec2[i]` over the first `k` indices.
pub open spec fn dot_upto(vec1: Seq<i32>, vec2: Seq<i32>, k: nat) -> int
    decreases k,
{
    if k == 0 {
        0
    } else {
        dot_upto(vec1, vec2, (k - 1) as nat) + vec1[k - 1] * vec2[k - 1]
    }
}

/// The sum of the values in `s`.
pub open spec fn total(s: Seq<int>) -> int
    decreases s.len(),
{
    if s.len() == 0 {
        0
    } else {
        total(s.drop_last()) + s.last()
    }
}

/// What the consumer adds up over the whole exchange is the dot product of
/// the two vectors of one length.
pub proof fn lemma_published_total(vec1: Seq<i32>, vec2: Seq<i32>)
    requires
        vec1.len() == vec2.len(),
    ensures
        total(published(vec1, vec2)) == dot_upto(vec1, vec2, vec1.len()),
    decreases vec1.len(),
{
    if vec1.len() > 0 {
        let v1 = vec1.drop_last();
        let v2 = vec2.drop_last();
        lemma_published_total(v1, v2);
        lemma_published_push(v1, v2, vec1.last(), vec2.last());
        assert(v1.push(vec1.last()) =~= vec1);
        assert(v2.push(vec2.last()) =~= vec2);
        assert(published(vec1, vec2).drop_last() =~= published(v1, v2));
        lemma_dot_upto_same(vec1, vec2, v1, v2, v1.len());
        let p = published(vec1, vec2);
        assert(p.len() == vec1.len());
        assert(p.last() == vec1.last() * vec2.last());
        assert(total(p) == total(p.drop_last()) + p.last());
    } else {
        assert(published(vec1, vec2).len() == 0);
    }
}

proof fn lemma_dot_upto_same(vec1: Seq<i32>, vec2: Seq<i32>, v1: Seq<i32>, v2: Seq<i32>, k: nat)
    requires
        k <= v1.len(),
        k <= v2.len(),
        v1.len() <= vec1.len(),
        v2.len() <= vec2.len(),
        forall|i: int| 0 <= i < v1.len() ==> v1[i] == vec1[i],
        forall|i: int| 0 <= i < v2.len() ==> v2[i] == vec2[i],
    ensures
        dot_upto(vec1, vec2, k) == dot_upto(v1, v2, k),
    decreases k,
{
    if k > 0 {
        lemma_dot_upto_same(vec1, vec2, v1, v2, (k - 1) as nat);
    }
}

/// The values the producer publishes in the shared slot, in order.
pub fn producer(vec1: &Vec<i32>, vec2: &Vec<i32>) -> (r: Vec<i32>)
    requires
        vec1@.len() == vec2@.len() ==> forall|i: int|
            0 <= i < vec1@.len() ==> fits_i32(#[trigger] vec1@[i] * vec2@[i]),
    ensures
        r@.len() == published(vec1@, vec2@).len(),
        forall|i: int| 0 <= i < r@.len() ==> r@[i] == #[trigger] published(vec1@, vec2@)[i],
{
    let mut values: Vec<i32> = Vec::new();
    if vec1.len() != vec2.len() {
        return values;
    }
    let mut i: usize = 0;
    while i < vec1.len()
        invariant
            vec1@.len() == vec2@.len(),
            forall|j: int| 0 <= j < vec1@.len() ==> fits_i32(#[trigger] vec1@[j] * vec2@[j]),
            i <= vec1@.len(),
            values@.len() == i,
            forall|j: int| 0 <= j < i ==> values@[j] == vec1@[j] * vec2@[j],
        decreases vec1.len() - i,
    {
        assert(fits_i32(vec1@[i as int] * vec2@[i as int]));
        values.push(vec1[i] * vec2[i]);
        i += 1;
    }
    values
}

/// One wake-up of the consumer: a value found in the slot is added to the
/// sum and the slot is emptied; an empty slot changes nothing.
pub fn consume(sum: &mut i32, last_val: &mut Option<i32>)
    requires
        *old(last_val) matches Some(v) ==> fits_i32(*old(sum) + v),
    ensures
        match *old(last_val) {
            Some(v) => *final(sum) == *old(sum) + v && *final(last_val) == None::<i32>,
            None => *final(sum) == *old(sum) && *final(last_val) == None::<i32>,
        },
{
    if let Some(v) = *last_val {
        *sum = *sum + v;
        *last_val = None;
    }
}

/// What the consumer does after a wake-up.
pub enum ConsumerNext {
    /// Wait for the next value.
    Wait,
    /// Stop and report the sum.
    Stop,
}

/// The consumer's decision after handling a wake-up: it stops once the
/// producer has said it is finished, and waits again otherwise.
pub fn consumer_next(finished: bool) -> (r: ConsumerNext)
    ensures
        r is Stop <==> finished,
{
    if finished {
        ConsumerNext::Stop
    } else {
        ConsumerNext::Wait
    }
}

} // verus!
