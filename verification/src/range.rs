//! Populations out of an index: the buckets of a numeric attribute, and the
//! split of a population by the tokens of a categorical attribute.

use crate::arff::{memberships, ArffContent, Cell, Population};
use crate::error::QueryError;
use crate::number::{key_of, order_key};
use vstd::prelude::*;

verus! {

/// Whether a value lies in the window from `min`, included, to `max`,
/// excluded.
pub open spec fn within(bits: u32, min: u32, max: u32) -> bool {
    order_key(min) <= order_key(bits) < order_key(max)
}

/// The bucket given to the sample at place `i`, if any.
pub open spec fn slot_at(slots: Seq<usize>, i: int) -> Option<int> {
    if 0 <= i < slots.len() {
        Some(slots[i] as int)
    } else {
        None
    }
}

/// Among the first `m` samples, the record ids of those that lie in the
/// window and have bucket `k`, in the order of the samples.
pub open spec fn binned(
    data: Seq<(u32, usize)>,
    min: u32,
    max: u32,
    slots: Seq<usize>,
    k: int,
    m: nat,
) -> Seq<usize>
    decreases m,
{
    if m == 0 {
        Seq::empty()
    } else {
        let before = binned(data, min, max, slots, k, (m - 1) as nat);
        if within(data[m - 1].0, min, max) && slot_at(slots, m - 1) == Some(k) {
            before.push(data[m - 1].1)
        } else {
            before
        }
    }
}

/// Among the first `m` samples, the place of the first one that lies in the
/// window and has no bucket below `count`.
pub open spec fn stray(
    data: Seq<(u32, usize)>,
    min: u32,
    max: u32,
    slots: Seq<usize>,
    count: int,
    m: nat,
) -> Option<usize>
    decreases m,
{
    if m == 0 {
        None
    } else {
        match stray(data, min, max, slots, count, (m - 1) as nat) {
            Some(i) => Some(i),
            None => if within(data[m - 1].0, min, max) && !(slot_at(slots, m - 1) matches Some(k)
                && k < count) {
                Some((m - 1) as usize)
            } else {
                None
            },
        }
    }
}

/// Among the first `m` samples, the record ids of those whose value is the
/// number `v`, in the order of the samples.
pub open spec fn equal_to(data: Seq<(u32, usize)>, v: u32, m: nat) -> Seq<usize>
    decreases m,
{
    if m == 0 {
        Seq::empty()
    } else {
        let before = equal_to(data, v, (m - 1) as nat);
        if order_key(data[m - 1].0) == order_key(v) {
            before.push(data[m - 1].1)
        } else {
            before
        }
    }
}

/// The buckets of the samples over a window. Where the window is a single
/// number there is one bucket, with every sample of that value. Otherwise
/// there are `count` buckets; a sample outside the window is dropped, and
/// every other goes to the bucket that `slots` gives it, which has to
/// exist.
pub open spec fn ranges(
    data: Seq<(u32, usize)>,
    min: u32,
    max: u32,
    count: nat,
    slots: Seq<usize>,
) -> Result<Seq<Seq<usize>>, QueryError> {
    if order_key(min) == order_key(max) {
        Ok(seq![equal_to(data, min, data.len())])
    } else {
        match stray(data, min, max, slots, count as int, data.len()) {
            Some(i) => Err(QueryError::NoBucket { sample: i }),
            None => Ok(Seq::new(count, |k: int| binned(data, min, max, slots, k, data.len()))),
        }
    }
}

/// The populations that a list of buckets holds, or the fault.
pub open spec fn population_lists(r: Result<Vec<Population>, QueryError>) -> Result<
    Seq<Seq<usize>>,
    QueryError,
> {
    match r {
        Ok(list) => Ok(memberships(list@)),
        Err(e) => Err(e),
    }
}

fn empty_populations(count: usize) -> (list: Vec<Population>)
    ensures
        memberships(list@) == Seq::new(count as nat, |k: int| Seq::<usize>::empty()),
{
    let mut list: Vec<Population> = Vec::new();
    for i in 0..count
        invariant
            memberships(list@) == Seq::new(i as nat, |k: int| Seq::<usize>::empty()),
    {
        let ghost was = memberships(list@);
        list.push(Population(Vec::new()));
        proof {
            assert(memberships(list@) =~= was.push(Seq::<usize>::empty()));
            assert(was.push(Seq::<usize>::empty()) =~= Seq::new(
                (i + 1) as nat,
                |k: int| Seq::<usize>::empty(),
            ));
        }
    }
    list
}

/// Sorts the samples into the buckets of a window; `slots` gives the bucket
/// of each sample, place by place.
pub fn rangify(data: &Vec<(u32, usize)>, min: u32, max: u32, slices: usize, slots: &Vec<usize>) -> (r:
    Result<Vec<Population>, QueryError>)
    ensures
        population_lists(r) == ranges(data@, min, max, slices as nat, slots@),
{
    let low = key_of(min);
    let high = key_of(max);
    if low == high {
        let mut list: Vec<usize> = Vec::new();
        for i in 0..data.len()
            invariant
                low == order_key(min),
                list@ == equal_to(data@, min, i as nat),
        {
            if key_of(data[i].0) == low {
                list.push(data[i].1);
            }
        }
        let mut result: Vec<Population> = Vec::new();
        result.push(Population(list));
        proof {
            assert(memberships(result@) =~= seq![equal_to(data@, min, data@.len())]);
        }
        return Ok(result);
    }
    let mut result = empty_populations(slices);
    proof {
        assert(memberships(result@) =~= Seq::new(
            slices as nat,
            |k: int| binned(data@, min, max, slots@, k, 0),
        ));
    }
    for i in 0..data.len()
        invariant
            low == order_key(min),
            high == order_key(max),
            low != high,
            result.len() == slices,
            stray(data@, min, max, slots@, slices as int, i as nat) is None,
            memberships(result@) == Seq::new(
                slices as nat,
                |k: int| binned(data@, min, max, slots@, k, i as nat),
            ),
    {
        let key = key_of(data[i].0);
        let ghost was = memberships(result@);
        if low <= key && key < high {
            if i >= slots.len() || slots[i] >= slices {
                proof {
                    lemma_stray_stays(data@, min, max, slots@, slices as int, (i + 1) as nat, data@.len());
                }
                return Err(QueryError::NoBucket { sample: i });
            }
            let k = slots[i];
            result[k].0.push(data[i].1);
            proof {
                assert(memberships(result@) =~= was.update(k as int, was[k as int].push(data[i as int].1)));
                assert(memberships(result@) =~= Seq::new(
                    slices as nat,
                    |k: int| binned(data@, min, max, slots@, k, (i + 1) as nat),
                ));
            }
        } else {
            proof {
                assert(was =~= Seq::new(
                    slices as nat,
                    |k: int| binned(data@, min, max, slots@, k, (i + 1) as nat),
                ));
            }
        }
    }
    Ok(result)
}

/// A stray sample found among the first samples stays the first stray one
/// when more samples are looked at.
proof fn lemma_stray_stays(
    data: Seq<(u32, usize)>,
    min: u32,
    max: u32,
    slots: Seq<usize>,
    count: int,
    m: nat,
    n: nat,
)
    requires
        m <= n,
        stray(data, min, max, slots, count, m) is Some,
    ensures
        stray(data, min, max, slots, count, n) == stray(data, min, max, slots, count, m),
    decreases n - m,
{
    if m < n {
        lemma_stray_stays(data, min, max, slots, count, m, (n - 1) as nat);
    }
}

/// Among the first `m` samples, the record ids of those whose value lies
/// between `min` and `max`, both included, in the order of the samples.
pub open spec fn spanned(data: Seq<(u32, usize)>, min: u32, max: u32, m: nat) -> Seq<usize>
    decreases m,
{
    if m == 0 {
        Seq::empty()
    } else {
        let before = spanned(data, min, max, (m - 1) as nat);
        if order_key(min) <= order_key(data[m - 1].0) <= order_key(max) {
            before.push(data[m - 1].1)
        } else {
            before
        }
    }
}

/// The buckets of a numeric attribute over the span from `min` to `max`.
/// Without samples there is no bucket. Where the span is a single number,
/// one bucket holds every sample of that value, whatever count was asked
/// for. A count of one gives one bucket with every sample of the span.
/// Otherwise the samples are sorted into `count` buckets over the window
/// from `low` to `high`.
pub open spec fn buckets(
    data: Seq<(u32, usize)>,
    min: u32,
    max: u32,
    count: nat,
    low: u32,
    high: u32,
    slots: Seq<usize>,
) -> Result<Seq<Seq<usize>>, QueryError> {
    if data.len() == 0 {
        Ok(Seq::empty())
    } else if order_key(min) == order_key(max) {
        ranges(data, min, max, count, slots)
    } else if count == 1 {
        Ok(seq![spanned(data, min, max, data.len())])
    } else {
        ranges(data, low, high, count, slots)
    }
}

/// Sorts the samples of a numeric attribute into the buckets of a span.
pub fn numeric_ranges(
    data: &Vec<(u32, usize)>,
    min: u32,
    max: u32,
    count: usize,
    low: u32,
    high: u32,
    slots: &Vec<usize>,
) -> (r: Result<Vec<Population>, QueryError>)
    ensures
        population_lists(r) == buckets(data@, min, max, count as nat, low, high, slots@),
{
    if data.len() == 0 {
        let result: Vec<Population> = Vec::new();
        proof {
            assert(memberships(result@) =~= Seq::empty());
        }
        return Ok(result);
    }
    let from = key_of(min);
    let to = key_of(max);
    if from == to {
        return rangify(data, min, max, count, slots);
    }
    if count == 1 {
        let mut list: Vec<usize> = Vec::new();
        for i in 0..data.len()
            invariant
                from == order_key(min),
                to == order_key(max),
                list@ == spanned(data@, min, max, i as nat),
        {
            let key = key_of(data[i].0);
            if from <= key && key <= to {
                list.push(data[i].1);
            }
        }
        let mut result: Vec<Population> = Vec::new();
        result.push(Population(list));
        proof {
            assert(memberships(result@) =~= seq![spanned(data@, min, max, data@.len())]);
        }
        return Ok(result);
    }
    rangify(data, low, high, count, slots)
}

/// What `binned` holds: the ids of the samples in the window that have the
/// bucket.
pub proof fn lemma_binned_members(
    data: Seq<(u32, usize)>,
    min: u32,
    max: u32,
    slots: Seq<usize>,
    k: int,
    m: nat,
    id: usize,
)
    requires
        m <= data.len(),
    ensures
        binned(data, min, max, slots, k, m).contains(id) <==> exists|i: int|
            0 <= i < m && (#[trigger] data[i]).1 == id && within(data[i].0, min, max) && slot_at(
                slots,
                i,
            ) == Some(k),
    decreases m,
{
    if m > 0 {
        let before = binned(data, min, max, slots, k, (m - 1) as nat);
        let now = binned(data, min, max, slots, k, m);
        lemma_binned_members(data, min, max, slots, k, (m - 1) as nat, id);
                if now.contains(id) {
            let j = choose|j: int| 0 <= j < now.len() && now[j] == id;
            if j < before.len() {
                assert(before[j] == id);
                assert(before.contains(id));
            } else {
                assert(data[m - 1].1 == id);
            }
        }
        if exists|i: int|
            0 <= i < m && (#[trigger] data[i]).1 == id && within(data[i].0, min, max) && slot_at(
                slots,
                i,
            ) == Some(k) {
            let i = choose|i: int|
                0 <= i < m && (#[trigger] data[i]).1 == id && within(data[i].0, min, max)
                    && slot_at(slots, i) == Some(k);
            if i < m - 1 {
                assert(before.contains(id));
                let j = choose|j: int| 0 <= j < before.len() && before[j] == id;
                assert(now[j] == id);
            } else {
                assert(now[now.len() - 1] == id);
            }
        }
    }
}

/// Where no sample is stray, every sample in the window has a bucket
/// below the count.
pub proof fn lemma_no_stray(
    data: Seq<(u32, usize)>,
    min: u32,
    max: u32,
    slots: Seq<usize>,
    count: int,
    m: nat,
    i: int,
)
    requires
        stray(data, min, max, slots, count, m) is None,
        0 <= i < m,
        within(data[i].0, min, max),
    ensures
        slot_at(slots, i) matches Some(k) && k < count,
    decreases m,
{
    if i < m - 1 {
        lemma_no_stray(data, min, max, slots, count, (m - 1) as nat, i);
    }
}

/// Over a window of more than one number, every sample inside the window
/// has a bucket from `0` up to the count, stands in that bucket, and stands
/// in no other. It is stated of samples that each come from a record of
/// their own.
pub proof fn lemma_each_sample_in_one_bucket(
    data: Seq<(u32, usize)>,
    min: u32,
    max: u32,
    count: nat,
    slots: Seq<usize>,
    i: int,
)
    requires
        order_key(min) != order_key(max),
        ranges(data, min, max, count, slots) is Ok,
        0 <= i < data.len(),
        within(data[i].0, min, max),
        count <= usize::MAX,
        forall|x: int, y: int|
            0 <= x < y < data.len() ==> (#[trigger] data[x]).1 != (#[trigger] data[y]).1,
    ensures
        0 <= slots[i] < count,
        ranges(data, min, max, count, slots)->Ok_0.len() == count,
        ranges(data, min, max, count, slots)->Ok_0[slots[i] as int].contains(data[i].1),
        forall|k: int|
            0 <= k < count && k != slots[i] ==> !(#[trigger] ranges(
                data,
                min,
                max,
                count,
                slots,
            )->Ok_0[k]).contains(data[i].1),
{
    let all = ranges(data, min, max, count, slots)->Ok_0;
    lemma_no_stray(data, min, max, slots, count as int, data.len(), i);
    let own = slots[i] as int;
    lemma_binned_members(data, min, max, slots, own, data.len(), data[i].1);
    assert(all[own] == binned(data, min, max, slots, own, data.len()));
    assert forall|k: int| 0 <= k < count && k != own implies !(#[trigger] all[k]).contains(
        data[i].1,
    ) by {
        lemma_binned_members(data, min, max, slots, k, data.len(), data[i].1);
        assert(all[k] == binned(data, min, max, slots, k, data.len()));
        if all[k].contains(data[i].1) {
            let j = choose|j: int|
                0 <= j < data.len() && (#[trigger] data[j]).1 == data[i].1 && within(
                    data[j].0,
                    min,
                    max,
                ) && slot_at(slots, j) == Some(k);
            if j < i {
                assert(data[j].1 != data[i].1);
            } else if i < j {
                assert(data[i].1 != data[j].1);
            }
        }
    }
}

/// The record ids of the first `m` samples, in the order of the samples.
pub open spec fn record_ids(data: Seq<(u32, usize)>, m: nat) -> Seq<usize>
    decreases m,
{
    if m == 0 {
        Seq::empty()
    } else {
        record_ids(data, (m - 1) as nat).push(data[m - 1].1)
    }
}

proof fn lemma_all_equal(data: Seq<(u32, usize)>, v: u32, m: nat)
    requires
        m <= data.len(),
        forall|i: int| 0 <= i < data.len() ==> order_key((#[trigger] data[i]).0) == order_key(v),
    ensures
        equal_to(data, v, m) == record_ids(data, m),
    decreases m,
{
    if m > 0 {
        lemma_all_equal(data, v, (m - 1) as nat);
    }
}

/// Samples that all have the same value, over the span from that value to
/// itself, make exactly one bucket, and it holds the record of every
/// sample: whatever count is asked for, and whatever window and buckets the
/// scale proposes.
pub proof fn lemma_single_value_single_bucket(
    data: Seq<(u32, usize)>,
    min: u32,
    max: u32,
    count: nat,
    low: u32,
    high: u32,
    slots: Seq<usize>,
)
    requires
        data.len() > 0,
        forall|i: int| 0 <= i < data.len() ==> order_key((#[trigger] data[i]).0) == order_key(min),
        order_key(max) == order_key(min),
    ensures
        buckets(data, min, max, count, low, high, slots) == Ok::<Seq<Seq<usize>>, QueryError>(
            seq![record_ids(data, data.len())],
        ),
{
    lemma_all_equal(data, min, data.len());
}

/// The token that record `id` holds in column `a`, where the record exists
/// and the token is one of the first `count`.
pub open spec fn class_of(rows: Seq<Seq<Cell>>, id: usize, a: int, count: int) -> Option<int> {
    if id < rows.len() && 0 <= a < rows[id as int].len() {
        match rows[id as int][a] {
            Cell::Text(k) if k < count => Some(k as int),
            _ => None,
        }
    } else {
        None
    }
}

/// The records of the population that hold token `k` in column `a`, in the
/// order of the population.
pub open spec fn sliced(
    population: Seq<usize>,
    rows: Seq<Seq<Cell>>,
    a: int,
    count: int,
    k: int,
) -> Seq<usize>
    decreases population.len(),
{
    if population.len() == 0 {
        Seq::empty()
    } else {
        let before = sliced(population.drop_last(), rows, a, count, k);
        if class_of(rows, population.last(), a, count) == Some(k) {
            before.push(population.last())
        } else {
            before
        }
    }
}

/// The first record of the population that holds no token in column `a`.
pub open spec fn unresolved(population: Seq<usize>, rows: Seq<Seq<Cell>>, a: int, count: int) -> Option<
    usize,
>
    decreases population.len(),
{
    if population.len() == 0 {
        None
    } else {
        match unresolved(population.drop_last(), rows, a, count) {
            Some(id) => Some(id),
            None => if class_of(rows, population.last(), a, count) is None {
                Some(population.last())
            } else {
                None
            },
        }
    }
}

/// The split of a population by the tokens of column `a`: one population
/// for each of the `count` tokens. A record without a token there cannot be
/// placed, which is a fault.
pub open spec fn slices(population: Seq<usize>, rows: Seq<Seq<Cell>>, a: int, count: nat) -> Result<
    Seq<Seq<usize>>,
    QueryError,
> {
    match unresolved(population, rows, a, count as int) {
        Some(id) => Err(QueryError::UnresolvedClass { record: id }),
        None => Ok(Seq::new(count, |k: int| sliced(population, rows, a, count as int, k))),
    }
}

/// Every record of a slice is a record of the dataset that holds the token
/// of the slice, and the slice is a part of the population.
pub proof fn lemma_sliced_members(
    population: Seq<usize>,
    rows: Seq<Seq<Cell>>,
    a: int,
    count: int,
    k: int,
)
    ensures
        forall|i: int|
            0 <= i < sliced(population, rows, a, count, k).len() ==> {
                let id = #[trigger] sliced(population, rows, a, count, k)[i];
                class_of(rows, id, a, count) == Some(k) && population.contains(id)
            },
    decreases population.len(),
{
    if population.len() > 0 {
        let shorter = population.drop_last();
        lemma_sliced_members(shorter, rows, a, count, k);
        let before = sliced(shorter, rows, a, count, k);
        assert forall|i: int| 0 <= i < sliced(population, rows, a, count, k).len() implies {
            let id = #[trigger] sliced(population, rows, a, count, k)[i];
            class_of(rows, id, a, count) == Some(k) && population.contains(id)
        } by {
            let id = sliced(population, rows, a, count, k)[i];
            if i < before.len() {
                assert(before[i] == id);
                assert(shorter.contains(id));
                let j = choose|j: int| 0 <= j < shorter.len() && shorter[j] == id;
                assert(population[j] == id);
            } else {
                assert(population[population.len() - 1] == id);
            }
        }
    }
}

/// Every record of the population that holds token `k` stands in the slice
/// of that token.
pub proof fn lemma_sliced_holds(
    population: Seq<usize>,
    rows: Seq<Seq<Cell>>,
    a: int,
    count: int,
    k: int,
    i: int,
)
    requires
        0 <= i < population.len(),
        class_of(rows, population[i], a, count) == Some(k),
    ensures
        sliced(population, rows, a, count, k).contains(population[i]),
    decreases population.len(),
{
    let shorter = population.drop_last();
    let now = sliced(population, rows, a, count, k);
    if i < population.len() - 1 {
        lemma_sliced_holds(shorter, rows, a, count, k, i);
        let before = sliced(shorter, rows, a, count, k);
        let j = choose|j: int| 0 <= j < before.len() && before[j] == shorter[i];
        assert(now[j] == population[i]);
    } else {
        assert(now[now.len() - 1] == population[i]);
    }
}

/// A population whose records all hold a token has no unresolved record.
pub proof fn lemma_all_resolved(population: Seq<usize>, rows: Seq<Seq<Cell>>, a: int, count: int)
    requires
        forall|i: int|
            0 <= i < population.len() ==> class_of(rows, #[trigger] population[i], a, count) is Some,
    ensures
        unresolved(population, rows, a, count) is None,
    decreases population.len(),
{
    if population.len() > 0 {
        let shorter = population.drop_last();
        assert forall|i: int| 0 <= i < shorter.len() implies class_of(
            rows,
            #[trigger] shorter[i],
            a,
            count,
        ) is Some by {
            assert(shorter[i] == population[i]);
        }
        lemma_all_resolved(shorter, rows, a, count);
        assert(class_of(rows, population[population.len() - 1], a, count) is Some);
    }
}

/// How many records the populations hold, all together.
pub open spec fn total_size(populations: Seq<Seq<usize>>) -> nat
    decreases populations.len(),
{
    if populations.len() == 0 {
        0
    } else {
        total_size(populations.drop_last()) + populations.last().len()
    }
}

/// The split of a population for the first `m` tokens.
pub open spec fn first_slices(
    population: Seq<usize>,
    rows: Seq<Seq<Cell>>,
    a: int,
    count: int,
    m: nat,
) -> Seq<Seq<usize>> {
    Seq::new(m, |k: int| sliced(population, rows, a, count, k))
}

proof fn lemma_first_slices_grow(
    population: Seq<usize>,
    rows: Seq<Seq<Cell>>,
    a: int,
    count: int,
    m: nat,
)
    requires
        population.len() > 0,
    ensures
        total_size(first_slices(population, rows, a, count, m)) == total_size(
            first_slices(population.drop_last(), rows, a, count, m),
        ) + if class_of(rows, population.last(), a, count) matches Some(k) && 0 <= k < m {
            1nat
        } else {
            0nat
        },
    decreases m,
{
    if m > 0 {
        lemma_first_slices_grow(population, rows, a, count, (m - 1) as nat);
        let now = first_slices(population, rows, a, count, m);
        let was = first_slices(population.drop_last(), rows, a, count, m);
        assert(now.drop_last() =~= first_slices(population, rows, a, count, (m - 1) as nat));
        assert(was.drop_last() =~= first_slices(
            population.drop_last(),
            rows,
            a,
            count,
            (m - 1) as nat,
        ));
        assert(now.last() == sliced(population, rows, a, count, m - 1));
        assert(was.last() == sliced(population.drop_last(), rows, a, count, m - 1));
    }
}

/// The slices of a population whose records all hold a token hold as many
/// records as the population, all together.
pub proof fn lemma_slices_total(population: Seq<usize>, rows: Seq<Seq<Cell>>, a: int, count: nat)
    requires
        forall|i: int|
            0 <= i < population.len() ==> class_of(
                rows,
                #[trigger] population[i],
                a,
                count as int,
            ) is Some,
    ensures
        total_size(first_slices(population, rows, a, count as int, count)) == population.len(),
    decreases population.len(),
{
    if population.len() == 0 {
        lemma_empty_slices(population, rows, a, count as int, count);
    } else {
        let shorter = population.drop_last();
        assert forall|i: int| 0 <= i < shorter.len() implies class_of(
            rows,
            #[trigger] shorter[i],
            a,
            count as int,
        ) is Some by {
            assert(shorter[i] == population[i]);
        }
        lemma_slices_total(shorter, rows, a, count);
        lemma_first_slices_grow(population, rows, a, count as int, count);
        assert(class_of(rows, population[population.len() - 1], a, count as int) is Some);
    }
}

proof fn lemma_empty_slices(population: Seq<usize>, rows: Seq<Seq<Cell>>, a: int, count: int, m: nat)
    requires
        population.len() == 0,
    ensures
        total_size(first_slices(population, rows, a, count, m)) == 0,
    decreases m,
{
    if m > 0 {
        lemma_empty_slices(population, rows, a, count, (m - 1) as nat);
        assert(first_slices(population, rows, a, count, m).drop_last() =~= first_slices(
            population,
            rows,
            a,
            count,
            (m - 1) as nat,
        ));
    }
}

/// The record ids of the samples, place by place.
pub proof fn lemma_record_ids(data: Seq<(u32, usize)>, m: nat)
    requires
        m <= data.len(),
    ensures
        record_ids(data, m).len() == m,
        forall|i: int| 0 <= i < m ==> #[trigger] record_ids(data, m)[i] == data[i].1,
    decreases m,
{
    if m > 0 {
        lemma_record_ids(data, (m - 1) as nat);
    }
}

proof fn lemma_unresolved_stays(
    population: Seq<usize>,
    rows: Seq<Seq<Cell>>,
    a: int,
    count: int,
    m: int,
)
    requires
        0 <= m <= population.len(),
        unresolved(population.take(m), rows, a, count) is Some,
    ensures
        unresolved(population, rows, a, count) == unresolved(population.take(m), rows, a, count),
    decreases population.len() - m,
{
    if m < population.len() {
        assert(population.take(m + 1).drop_last() =~= population.take(m));
        lemma_unresolved_stays(population, rows, a, count, m + 1);
    } else {
        assert(population.take(m) =~= population);
    }
}

/// Splits a population by the token that each of its records holds for
/// the attribute `class_att`, which has `n_slices` tokens.
pub fn slice(pop: &Population, content: &ArffContent, class_att: usize, n_slices: usize) -> (r: Result<
    Vec<Population>,
    QueryError,
>)
    ensures
        population_lists(r) == slices(pop@, content@.rows, class_att as int, n_slices as nat),
{
    let mut result = empty_populations(n_slices);
    let ghost rows = content@.rows;
    proof {
        assert(pop@.take(0) =~= Seq::empty());
        assert(memberships(result@) =~= Seq::new(
            n_slices as nat,
            |k: int| sliced(pop@.take(0), rows, class_att as int, n_slices as int, k),
        ));
    }
    for i in 0..pop.0.len()
        invariant
            rows == content@.rows,
            result.len() == n_slices,
            unresolved(pop@.take(i as int), rows, class_att as int, n_slices as int) is None,
            memberships(result@) == Seq::new(
                n_slices as nat,
                |k: int| sliced(pop@.take(i as int), rows, class_att as int, n_slices as int, k),
            ),
    {
        let id = pop.0[i];
        let ghost was = memberships(result@);
        proof {
            assert(pop@.take(i + 1).drop_last() =~= pop@.take(i as int));
            assert(pop@.take(i + 1).last() == id);
        }
        let class = if id < content.data.len() && class_att < content.data[id].values.len() {
            match content.data[id].values[class_att].text() {
                Some(k) => if k < n_slices {
                    Some(k)
                } else {
                    None
                },
                None => None,
            }
        } else {
            None
        };
        proof {
            assert(match class {
                Some(k) => class_of(rows, id, class_att as int, n_slices as int) == Some(k as int),
                None => class_of(rows, id, class_att as int, n_slices as int) is None,
            });
        }
        match class {
            Some(k) => {
                result[k].0.push(id);
                proof {
                    assert(memberships(result@) =~= was.update(k as int, was[k as int].push(id)));
                    assert(memberships(result@) =~= Seq::new(
                        n_slices as nat,
                        |k: int| sliced(pop@.take(i + 1), rows, class_att as int, n_slices as int, k),
                    ));
                }
            },
            None => {
                proof {
                    lemma_unresolved_stays(pop@, rows, class_att as int, n_slices as int, i + 1);
                }
                return Err(QueryError::UnresolvedClass { record: id });
            },
        }
    }
    proof {
        assert(pop@.take(pop@.len() as int) =~= pop@);
    }
    Ok(result)
}

} // verus!
