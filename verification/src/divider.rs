//! The bucket count that suits a span: where the span is a whole number, a
//! count one above a divisor of it gives buckets of a tidy width.

use vstd::prelude::*;

verus! {

/// The divisors `k` of `n` with `1 <= k <= m` and `k * k <= n`, ascending.
pub open spec fn low_divisors(n: nat, m: nat) -> Seq<int>
    decreases m,
{
    if m == 0 {
        Seq::empty()
    } else {
        let below = low_divisors(n, (m - 1) as nat);
        if m * m <= n && n % m == 0 {
            below.push(m as int)
        } else {
            below
        }
    }
}

/// The divisors of `n` in the order of the search: those up to the square
/// root, ascending, and then the quotient of `n` by each of them, from the
/// last one found back to the first. The root of a square stands twice.
pub open spec fn divisors(n: nat) -> Seq<int> {
    let low = low_divisors(n, n);
    low + Seq::new(low.len(), |i: int| n as int / low[low.len() - 1 - i])
}

/// The numbers held by a list.
pub open spec fn integers(v: Seq<usize>) -> Seq<int> {
    Seq::new(v.len(), |i: int| v[i] as int)
}

proof fn lemma_square_bound(k: nat, n: nat)
    requires
        k >= 1,
    ensures
        k * k <= n <==> k <= n / k,
{
    if k <= n / k {
        assert(k * k <= (n / k) * k) by (nonlinear_arith)
            requires
                k <= n / k,
        ;
        assert((n / k) * k <= n) by (nonlinear_arith)
            requires
                k >= 1,
        ;
    } else {
        assert(n < (n / k + 1) * k) by (nonlinear_arith)
            requires
                k >= 1,
        ;
        assert((n / k + 1) * k <= k * k) by (nonlinear_arith)
            requires
                n / k + 1 <= k,
        ;
    }
}

/// Beyond the square root nothing is added to the low divisors.
proof fn lemma_low_divisors_stop(n: nat, k: nat, m: nat)
    requires
        k * k > n,
        k <= m,
    ensures
        low_divisors(n, m) == low_divisors(n, (k - 1) as nat),
    decreases m,
{
    assert(m * m > n && m >= 1) by (nonlinear_arith)
        requires
            m >= k,
            k * k > n,
    ;
    assert(low_divisors(n, m) == low_divisors(n, (m - 1) as nat));
    if m > k {
        lemma_low_divisors_stop(n, k, (m - 1) as nat);
    }
}

/// Every low divisor is at least 1, at most `m`, and divides `n`.
proof fn lemma_low_divisors_range(n: nat, m: nat)
    ensures
        low_divisors(n, m).len() <= m,
        forall|i: int|
            0 <= i < low_divisors(n, m).len() ==> 1 <= #[trigger] low_divisors(n, m)[i] <= m
                && low_divisors(n, m)[i] <= n,
    decreases m,
{
    if m > 0 {
        lemma_low_divisors_range(n, (m - 1) as nat);
        if m * m <= n {
            assert(m <= n) by (nonlinear_arith)
                requires
                    m * m <= n,
                    m >= 1,
            ;
        }
    }
}

/// The divisors place by place.
proof fn lemma_divisors_places(n: nat)
    ensures
        divisors(n).len() == 2 * low_divisors(n, n).len(),
        forall|j: int|
            0 <= j < low_divisors(n, n).len() ==> #[trigger] divisors(n)[j] == low_divisors(n, n)[j],
        forall|j: int|
            low_divisors(n, n).len() <= j < 2 * low_divisors(n, n).len() ==> #[trigger] divisors(
                n,
            )[j] == n as int / low_divisors(n, n)[2 * low_divisors(n, n).len() - 1 - j],
{
}

/// Lists the divisors of `n` in the order of the search.
pub fn dividers(n: usize) -> (divs: Vec<usize>)
    ensures
        integers(divs@) == divisors(n as nat),
{
    let mut divs: Vec<usize> = Vec::new();
    let mut k: usize = 1;
    while k <= n / k
        invariant
            1 <= k,
            k <= n + 1,
            integers(divs@) == low_divisors(n as nat, (k - 1) as nat),
        decreases n + 1 - k,
    {
        proof {
            lemma_square_bound(k as nat, n as nat);
            assert(k <= n && k < usize::MAX) by (nonlinear_arith)
                requires
                    k * k <= n,
                    k >= 1,
                    n <= usize::MAX,
                    usize::MAX >= 2,
            ;
        }
        if n % k == 0 {
            let ghost was = integers(divs@);
            divs.push(k);
            proof {
                assert(integers(divs@) =~= was.push(k as int));
            }
        }
        k += 1;
    }
    proof {
        lemma_square_bound(k as nat, n as nat);
        if k <= n {
            lemma_low_divisors_stop(n as nat, k as nat, n as nat);
        }
        lemma_low_divisors_range(n as nat, n as nat);
    }
    let ghost low = integers(divs@);
    let found = divs.len();
    let mut i: usize = 0;
    while i < found
        invariant
            i <= found,
            found <= divs.len(),
            divs.len() == found + i,
            low == low_divisors(n as nat, n as nat),
            low.len() == found,
            integers(divs@).take(found as int) == low,
            forall|j: int| 0 <= j < low.len() ==> 1 <= #[trigger] low[j],
            forall|j: int|
                0 <= j < i ==> #[trigger] integers(divs@)[found + j] == n as int / low[found - 1 - j],
        decreases found - i,
    {
        let ghost was = integers(divs@);
        let d = divs[found - 1 - i];
        proof {
            assert(was.take(found as int)[found - 1 - i] == was[found - 1 - i]);
            assert(d as int == low[found - 1 - i]);
        }
        divs.push(n / d);
        proof {
            assert(integers(divs@) =~= was.push((n / d) as int));
            assert(integers(divs@).take(found as int) =~= was.take(found as int));
        }
        i += 1;
    }
    proof {
        let all = integers(divs@);
        let want = divisors(n as nat);
        lemma_divisors_places(n as nat);
        assert(all.len() == want.len());
        assert forall|j: int| 0 <= j < all.len() implies all[j] == want[j] by {
            if j < found {
                assert(all.take(found as int)[j] == all[j]);
            } else {
                assert(all[found + (j - found)] == n as int / low[found - 1 - (j - found)]);
            }
        }
        assert(all =~= want);
    }
    divs
}

/// How far apart two counts are.
pub open spec fn distance(k: int, n: int) -> int {
    if k > n {
        k - n
    } else {
        n - k
    }
}

/// Computes how far apart two counts are.
pub fn dist(k: usize, n: usize) -> (d: usize)
    ensures
        d == distance(k as int, n as int),
{
    if k > n {
        k - n
    } else {
        n - k
    }
}

/// Whether `candidates[i]` is the first candidate that no other candidate
/// beats in closeness to `target`.
pub open spec fn is_closest(candidates: Seq<int>, target: int, i: int) -> bool {
    &&& 0 <= i < candidates.len()
    &&& forall|j: int|
        0 <= j < candidates.len() ==> distance(candidates[i], target) <= distance(
            #[trigger] candidates[j],
            target,
        )
    &&& forall|j: int|
        0 <= j < i ==> distance(candidates[i], target) < distance(
            #[trigger] candidates[j],
            target,
        )
}

/// The first candidate that no other candidate beats in closeness to
/// `target`.
pub open spec fn closest(candidates: Seq<int>, target: int) -> int {
    candidates[choose|i: int| is_closest(candidates, target, i)]
}

/// The bucket count to use when `value` buckets are asked for over a span.
/// `span` is the span where it is a whole number, `None` where it is not.
/// The divisor of the span that lies closest to `value`, the first such in
/// the order of the search, replaces it, raised by one, where it lies
/// closer than a third of `value`. A count that would not fit the machine's
/// word is not taken.
pub open spec fn tidy_count(value: nat, span: Option<nat>) -> int {
    match span {
        Some(n) if divisors(n).len() > 0 => {
            let near = closest(divisors(n), value as int);
            if distance(near, value as int) < value / 3 && near + 1 <= usize::MAX {
                near + 1
            } else {
                value as int
            }
        },
        _ => value as int,
    }
}

/// The span as a natural number.
pub open spec fn whole(span: Option<usize>) -> Option<nat> {
    match span {
        Some(n) => Some(n as nat),
        None => None,
    }
}

/// Picks the bucket count for a request of `value` buckets over a span;
/// `span` is `None` where the span is no whole number.
pub fn round_to_divider(value: usize, span: Option<usize>) -> (count: usize)
    ensures
        count == tidy_count(value as nat, whole(span)),
{
    let n = match span {
        Some(n) => n,
        None => {
            return value;
        },
    };
    let divs = dividers(n);
    if divs.len() == 0 {
        return value;
    }
    let ghost all = integers(divs@);
    let mut best: usize = 0;
    let mut i: usize = 1;
    while i < divs.len()
        invariant
            1 <= i <= divs.len(),
            all == integers(divs@),
            best < i,
            forall|j: int|
                0 <= j < i ==> distance(all[best as int], value as int) <= distance(
                    #[trigger] all[j],
                    value as int,
                ),
            forall|j: int|
                0 <= j < best ==> distance(all[best as int], value as int) < distance(
                    #[trigger] all[j],
                    value as int,
                ),
        decreases divs.len() - i,
    {
        if dist(divs[i], value) < dist(divs[best], value) {
            best = i;
        }
        i += 1;
    }
    let near = divs[best];
    proof {
        assert(is_closest(all, value as int, best as int));
        let chosen = choose|i: int| is_closest(all, value as int, i);
        lemma_closest_unique(all, value as int, chosen, best as int);
    }
    if dist(near, value) < value / 3 {
        match near.checked_add(1) {
            Some(raised) => raised,
            None => value,
        }
    } else {
        value
    }
}

/// No two places of a list are both the first closest one.
pub proof fn lemma_closest_unique(candidates: Seq<int>, target: int, i: int, j: int)
    requires
        is_closest(candidates, target, i),
        is_closest(candidates, target, j),
    ensures
        i == j,
{
    if i < j {
        assert(distance(candidates[j], target) < distance(candidates[i], target));
        assert(distance(candidates[i], target) <= distance(candidates[j], target));
    }
    if j < i {
        assert(distance(candidates[i], target) < distance(candidates[j], target));
        assert(distance(candidates[j], target) <= distance(candidates[i], target));
    }
}

} // verus!
