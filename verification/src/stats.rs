//! Order statistics over small samples: sorting and the median.
//!
//! The median of a sample is the element at index `len / 2` of the sample
//! sorted in ascending order (the upper median for an even count).
use vstd::prelude::*;
use vstd::relations::*;
use vstd::seq_lib::*;

verus! {

pub open spec fn le_u8(a: u8, b: u8) -> bool {
    a <= b
}

pub open spec fn le_i64(a: i64, b: i64) -> bool {
    a <= b
}

/// The sample sorted in ascending order.
pub open spec fn sorted_u8(s: Seq<u8>) -> Seq<u8> {
    s.sort_by(|a: u8, b: u8| le_u8(a, b))
}

pub open spec fn sorted_i64(s: Seq<i64>) -> Seq<i64> {
    s.sort_by(|a: i64, b: i64| le_i64(a, b))
}

/// The median of a non-empty sample: its middle element once sorted.
pub open spec fn median_u8(s: Seq<u8>) -> u8 {
    sorted_u8(s)[(s.len() / 2) as int]
}

pub open spec fn median_i64(s: Seq<i64>) -> i64 {
    sorted_i64(s)[(s.len() / 2) as int]
}

proof fn lemma_le_u8_total()
    ensures
        total_ordering(|a: u8, b: u8| le_u8(a, b)),
{
}

proof fn lemma_le_i64_total()
    ensures
        total_ordering(|a: i64, b: i64| le_i64(a, b)),
{
}

/// A sequence that is sorted and holds the same elements as `s` is the
/// sorted `s`; its length is that of `s`.
proof fn lemma_sorted_u8_is(s: Seq<u8>, r: Seq<u8>)
    requires
        sorted_by(r, |a: u8, b: u8| le_u8(a, b)),
        r.to_multiset() == s.to_multiset(),
    ensures
        r == sorted_u8(s),
        r.len() == s.len(),
{
    let leq = |a: u8, b: u8| le_u8(a, b);
    lemma_le_u8_total();
    s.lemma_sort_by_ensures(leq);
    lemma_sorted_unique(r, s.sort_by(leq), leq);
    to_multiset_len(s);
    to_multiset_len(r);
}

proof fn lemma_sorted_i64_is(s: Seq<i64>, r: Seq<i64>)
    requires
        sorted_by(r, |a: i64, b: i64| le_i64(a, b)),
        r.to_multiset() == s.to_multiset(),
    ensures
        r == sorted_i64(s),
        r.len() == s.len(),
{
    let leq = |a: i64, b: i64| le_i64(a, b);
    lemma_le_i64_total();
    s.lemma_sort_by_ensures(leq);
    lemma_sorted_unique(r, s.sort_by(leq), leq);
    to_multiset_len(s);
    to_multiset_len(r);
}

/// Sorts a sample of bytes in ascending order (insertion sort).
pub fn sort_u8(v: &Vec<u8>) -> (r: Vec<u8>)
    ensures
        r@ == sorted_u8(v@),
        r@.len() == v@.len(),
{
    let mut out: Vec<u8> = Vec::new();
    let mut i: usize = 0;
    proof {
        assert(out@ =~= v@.subrange(0, 0));
    }
    while i < v.len()
        invariant
            0 <= i <= v.len(),
            forall|p: int, q: int| 0 <= p < q < out@.len() ==> out@[p] <= out@[q],
            out@.to_multiset() == v@.subrange(0, i as int).to_multiset(),
        decreases v.len() - i,
    {
        let x = v[i];
        let ghost before = out@;
        // find the insertion point: first element greater than x
        let mut j: usize = 0;
        while j < out.len() && out[j] <= x
            invariant
                0 <= j <= out@.len(),
                out@ == before,
                forall|k: int| 0 <= k < j ==> out@[k] <= x,
            decreases out@.len() - j,
        {
            j = j + 1;
        }
        out.insert(j, x);
        proof {
            assert(out@ == before.insert(j as int, x));
            assert forall|a: int, b: int| 0 <= a < b < out@.len() implies out@[a] <= out@[b] by {
                if b < j {
                    assert(before[a] <= before[b]);
                } else if b == j {
                } else if a < j {
                    assert(before[a] <= before[b - 1]);
                } else if a == j {
                    assert(!(before[j as int] <= x));
                    if b - 1 > j {
                        assert(before[j as int] <= before[b - 1]);
                    }
                } else {
                    assert(before[a - 1] <= before[b - 1]);
                }
            }
            assert(v@.subrange(0, i + 1) == v@.subrange(0, i as int).push(x));
            to_multiset_insert(before, j as int, x);
            to_multiset_build(v@.subrange(0, i as int), x);
        }
        i = i + 1;
    }
    proof {
        assert(v@.subrange(0, v@.len() as int) == v@);
        assert(sorted_by(out@, |a: u8, b: u8| le_u8(a, b)));
        lemma_sorted_u8_is(v@, out@);
    }
    out
}

/// Sorts a sample of numbers in ascending order (insertion sort).
pub fn sort_i64(v: &Vec<i64>) -> (r: Vec<i64>)
    ensures
        r@ == sorted_i64(v@),
        r@.len() == v@.len(),
{
    let mut out: Vec<i64> = Vec::new();
    let mut i: usize = 0;
    proof {
        assert(out@ =~= v@.subrange(0, 0));
    }
    while i < v.len()
        invariant
            0 <= i <= v.len(),
            forall|p: int, q: int| 0 <= p < q < out@.len() ==> out@[p] <= out@[q],
            out@.to_multiset() == v@.subrange(0, i as int).to_multiset(),
        decreases v.len() - i,
    {
        let x = v[i];
        let ghost before = out@;
        // find the insertion point: first element greater than x
        let mut j: usize = 0;
        while j < out.len() && out[j] <= x
            invariant
                0 <= j <= out@.len(),
                out@ == before,
                forall|k: int| 0 <= k < j ==> out@[k] <= x,
            decreases out@.len() - j,
        {
            j = j + 1;
        }
        out.insert(j, x);
        proof {
            assert(out@ == before.insert(j as int, x));
            assert forall|a: int, b: int| 0 <= a < b < out@.len() implies out@[a] <= out@[b] by {
                if b < j {
                    assert(before[a] <= before[b]);
                } else if b == j {
                } else if a < j {
                    assert(before[a] <= before[b - 1]);
                } else if a == j {
                    assert(!(before[j as int] <= x));
                    if b - 1 > j {
                        assert(before[j as int] <= before[b - 1]);
                    }
                } else {
                    assert(before[a - 1] <= before[b - 1]);
                }
            }
            assert(v@.subrange(0, i + 1) == v@.subrange(0, i as int).push(x));
            to_multiset_insert(before, j as int, x);
            to_multiset_build(v@.subrange(0, i as int), x);
        }
        i = i + 1;
    }
    proof {
        assert(v@.subrange(0, v@.len() as int) == v@);
        assert(sorted_by(out@, |a: i64, b: i64| le_i64(a, b)));
        lemma_sorted_i64_is(v@, out@);
    }
    out
}

/// The median of a non-empty sample of bytes.
pub fn median_of_u8(v: &Vec<u8>) -> (m: u8)
    requires
        v@.len() > 0,
    ensures
        m == median_u8(v@),
{
    let s = sort_u8(v);
    s[s.len() / 2]
}

/// The median of a non-empty sample of numbers.
pub fn median_of_i64(v: &Vec<i64>) -> (m: i64)
    requires
        v@.len() > 0,
    ensures
        m == median_i64(v@),
{
    let s = sort_i64(v);
    s[s.len() / 2]
}

/// The median is one of the sample's elements.
pub proof fn lemma_median_i64_is_element(s: Seq<i64>)
    requires
        s.len() > 0,
    ensures
        s.contains(median_i64(s)),
{
    let leq = |a: i64, b: i64| le_i64(a, b);
    lemma_le_i64_total();
    s.lemma_sort_by_ensures(leq);
    to_multiset_len(s);
    to_multiset_len(s.sort_by(leq));
    let m = median_i64(s);
    assert(s.sort_by(leq).contains(m)) by {
        assert(s.sort_by(leq)[(s.len() / 2) as int] == m);
    }
}

/// Number of positions of a sequence that hold `v`.
proof fn lemma_count_four(s: Seq<u8>, v: u8)
    requires
        s.len() == 4,
    ensures
        s.to_multiset().count(v) == (if s[0] == v { 1int } else { 0int }) + (if s[1] == v {
            1int
        } else {
            0int
        }) + (if s[2] == v { 1int } else { 0int }) + (if s[3] == v { 1int } else { 0int }),
{
    broadcast use vstd::multiset::group_multiset_axioms;

    let e = Seq::<u8>::empty();
    assert(s =~= e.push(s[0]).push(s[1]).push(s[2]).push(s[3]));
    e.to_multiset_ensures();
    e.push(s[0]).to_multiset_ensures();
    e.push(s[0]).push(s[1]).to_multiset_ensures();
    e.push(s[0]).push(s[1]).push(s[2]).to_multiset_ensures();
    assert(e.to_multiset() =~= vstd::multiset::Multiset::empty());
}

/// The median of four values of which three are equal is that value: one
/// outlier does not move it.
pub proof fn lemma_median_ignores_one_outlier(s: Seq<u8>, k: int, v: u8)
    requires
        s.len() == 4,
        0 <= k < 4,
        forall|j: int| 0 <= j < 4 && j != k ==> s[j] == v,
    ensures
        median_u8(s) == v,
{
    let leq = |a: u8, b: u8| le_u8(a, b);
    lemma_le_u8_total();
    s.lemma_sort_by_ensures(leq);
    let r = sorted_u8(s);
    to_multiset_len(s);
    to_multiset_len(r);
    lemma_count_four(s, v);
    lemma_count_four(r, v);
    assert(s.to_multiset().count(v) >= 3);
    assert(r.to_multiset().count(v) >= 3);
    assert(leq(r[1], r[2]));
    assert(leq(r[2], r[3]));
    assert(leq(r[0], r[1]));
    assert(leq(r[0], r[3]));
    assert(leq(r[1], r[3]));
}

} // verus!
