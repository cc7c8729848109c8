//! Ordering the samples of a numeric attribute by value, those of equal
//! value by the id of their record.

use crate::number::{key_of, order_key};
use vstd::prelude::*;
use vstd::seq_lib::lemma_multiset_commutative;

verus! {

/// Whether sample `a` may stand before sample `b`: its value is lower, or
/// the values are the same number and its record came no later.
pub open spec fn precedes(a: (u32, usize), b: (u32, usize)) -> bool {
    order_key(a.0) < order_key(b.0) || (order_key(a.0) == order_key(b.0) && a.1 <= b.1)
}

/// Whether every sample of the list may stand before those behind it.
pub open spec fn ordered(s: Seq<(u32, usize)>) -> bool {
    forall|i: int, j: int| 0 <= i < j < s.len() ==> precedes(#[trigger] s[i], #[trigger] s[j])
}

fn may_precede(a: (u32, usize), b: (u32, usize)) -> (r: bool)
    ensures
        r == precedes(a, b),
{
    let x = key_of(a.0);
    let y = key_of(b.0);
    x < y || (x == y && a.1 <= b.1)
}

/// Merges two ordered lists into one.
fn merge(a: &Vec<(u32, usize)>, b: &Vec<(u32, usize)>) -> (r: Vec<(u32, usize)>)
    requires
        ordered(a@),
        ordered(b@),
    ensures
        ordered(r@),
        r@.to_multiset() == a@.to_multiset().add(b@.to_multiset()),
{
    let mut r: Vec<(u32, usize)> = Vec::new();
    let mut i: usize = 0;
    let mut j: usize = 0;
    proof {
        broadcast use vstd::seq_lib::group_to_multiset_ensures;

        assert(a@.take(0) =~= Seq::empty());
        assert(b@.take(0) =~= Seq::empty());
        assert(r@ =~= Seq::empty());
        assert forall|x: (u32, usize)| r@.to_multiset().count(x) == 0 by {
            assert(!r@.contains(x));
        }
        assert(r@.to_multiset() =~= a@.take(0).to_multiset().add(b@.take(0).to_multiset()));
    }
    while i < a.len() || j < b.len()
        invariant
            i <= a.len(),
            j <= b.len(),
            ordered(a@),
            ordered(b@),
            ordered(r@),
            r@.to_multiset() == a@.take(i as int).to_multiset().add(b@.take(j as int).to_multiset()),
            forall|x: int, k: int| 0 <= x < r.len() && i <= k < a.len() ==> precedes(#[trigger] r[x], #[trigger] a[k]),
            forall|x: int, k: int| 0 <= x < r.len() && j <= k < b.len() ==> precedes(#[trigger] r[x], #[trigger] b[k]),
        decreases a.len() - i + b.len() - j,
    {
        broadcast use vstd::seq_lib::group_to_multiset_ensures;

        let ghost was = r@;
        if j >= b.len() || (i < a.len() && may_precede(a[i], b[j])) {
            let item = a[i];
            r.push(item);
            proof {
                assert(a@.take(i + 1) =~= a@.take(i as int).push(item));
                assert(r@.to_multiset() =~= a@.take(i + 1).to_multiset().add(
                    b@.take(j as int).to_multiset(),
                ));
                assert forall|x: int, y: int| 0 <= x < y < r.len() implies precedes(
                    #[trigger] r[x],
                    #[trigger] r[y],
                ) by {
                    if y < was.len() {
                        assert(r[x] == was[x] && r[y] == was[y]);
                    } else {
                        assert(r[x] == was[x]);
                    }
                }
            }
            i += 1;
        } else {
            let item = b[j];
            r.push(item);
            proof {
                assert(b@.take(j + 1) =~= b@.take(j as int).push(item));
                assert(r@.to_multiset() =~= a@.take(i as int).to_multiset().add(
                    b@.take(j + 1).to_multiset(),
                ));
                assert forall|x: int, y: int| 0 <= x < y < r.len() implies precedes(
                    #[trigger] r[x],
                    #[trigger] r[y],
                ) by {
                    if y < was.len() {
                        assert(r[x] == was[x] && r[y] == was[y]);
                    } else {
                        assert(r[x] == was[x]);
                    }
                }
            }
            j += 1;
        }
    }
    proof {
        assert(a@.take(a.len() as int) =~= a@);
        assert(b@.take(b.len() as int) =~= b@);
    }
    r
}

/// Orders the samples that stand at the places from `lo` up to `hi`.
fn sort_range(v: &Vec<(u32, usize)>, lo: usize, hi: usize) -> (r: Vec<(u32, usize)>)
    requires
        lo <= hi <= v.len(),
    ensures
        ordered(r@),
        r@.to_multiset() == v@.subrange(lo as int, hi as int).to_multiset(),
    decreases hi - lo,
{
    if hi - lo <= 1 {
        let mut r: Vec<(u32, usize)> = Vec::new();
        if hi - lo == 1 {
            r.push(v[lo]);
        }
        proof {
            assert(r@ =~= v@.subrange(lo as int, hi as int));
        }
        return r;
    }
    let mid = lo + (hi - lo) / 2;
    let left = sort_range(v, lo, mid);
    let right = sort_range(v, mid, hi);
    proof {
        let whole = v@.subrange(lo as int, hi as int);
        assert(whole =~= v@.subrange(lo as int, mid as int) + v@.subrange(mid as int, hi as int));
        lemma_multiset_commutative(v@.subrange(lo as int, mid as int), v@.subrange(mid as int, hi as int));
    }
    merge(&left, &right)
}

/// Orders samples by value; samples of the same value come in the order of
/// their record ids.
pub fn sort_samples(list: &Vec<(u32, usize)>) -> (r: Vec<(u32, usize)>)
    ensures
        ordered(r@),
        r@.to_multiset() == list@.to_multiset(),
{
    proof {
        assert(list@.subrange(0, list.len() as int) =~= list@);
    }
    sort_range(list, 0, list.len())
}

} // verus!
