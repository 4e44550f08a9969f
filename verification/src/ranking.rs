//! The order in which the candidates of a search are taken.

use vstd::prelude::*;
use vstd::relations::{sorted_by, total_ordering};
use vstd::seq_lib::{lemma_sorted_unique, to_multiset_build, to_multiset_insert};
use crate::model::Neighbour;

verus! {

/// A number that orders the bit patterns of single-precision numbers as the
/// numbers themselves are ordered: a pattern with the sign bit has all its
/// bits flipped, any other only gets the sign bit.
pub open spec fn order_key(bits: u32) -> u32 {
    if bits & 0x8000_0000 != 0 {
        !bits
    } else {
        bits | 0x8000_0000
    }
}

/// Whether candidate `a` is to come before `b`, or is `b`: it is closer to
/// the query, or as close and has no greater internal identifier.
pub open spec fn comes_before(a: Neighbour, b: Neighbour) -> bool {
    order_key(a.distance) < order_key(b.distance) || (order_key(a.distance) == order_key(
        b.distance,
    ) && a.internal_id <= b.internal_id)
}

/// `comes_before` as a function value.
pub open spec fn by_distance() -> spec_fn(Neighbour, Neighbour) -> bool {
    |a: Neighbour, b: Neighbour| comes_before(a, b)
}

/// The candidates in ascending order of distance, those of one distance in
/// ascending order of internal identifier.
pub open spec fn arranged(neighbours: Seq<Neighbour>) -> Seq<Neighbour> {
    neighbours.sort_by(by_distance())
}

/// Two patterns with one key are one pattern.
pub proof fn lemma_order_key_injective(a: u32, b: u32)
    requires
        order_key(a) == order_key(b),
    ensures
        a == b,
{
    assert((if a & 0x8000_0000 != 0 {
        !a
    } else {
        a | 0x8000_0000
    }) == (if b & 0x8000_0000 != 0 {
        !b
    } else {
        b | 0x8000_0000
    }) ==> a == b) by (bit_vector);
}

/// Among patterns without the sign bit the keys ascend as the patterns do,
/// and every pattern with the sign bit has a key below theirs.
pub proof fn lemma_order_key_ascends(a: u32, b: u32)
    ensures
        a < 0x8000_0000 && b < 0x8000_0000 ==> (order_key(a) <= order_key(b) <==> a <= b),
        a >= 0x8000_0000 && b < 0x8000_0000 ==> order_key(a) < order_key(b),
        a >= 0x8000_0000 && b >= 0x8000_0000 ==> (order_key(a) <= order_key(b) <==> b <= a),
{
    assert(a < 0x8000_0000 && b < 0x8000_0000 ==> (((a | 0x8000_0000) <= (b | 0x8000_0000)) <==> a
        <= b) && a & 0x8000_0000 == 0 && b & 0x8000_0000 == 0) by (bit_vector);
    assert(a >= 0x8000_0000 && b < 0x8000_0000 ==> !a < (b | 0x8000_0000) && a & 0x8000_0000 != 0
        && b & 0x8000_0000 == 0) by (bit_vector);
    assert(a >= 0x8000_0000 && b >= 0x8000_0000 ==> ((!a <= !b) <==> b <= a) && a & 0x8000_0000
        != 0 && b & 0x8000_0000 != 0) by (bit_vector);
}

/// The order of the candidates is total.
pub proof fn lemma_by_distance_total()
    ensures
        total_ordering(by_distance()),
{
    let r = by_distance();
    assert forall|x: Neighbour, y: Neighbour| #[trigger] r(x, y) && #[trigger] r(y, x) implies x
        == y by {
        lemma_order_key_injective(x.distance, y.distance);
    }
}

/// The arrangement of the candidates holds each of them as often as they
/// were given, and is in order.
pub proof fn lemma_arranged(neighbours: Seq<Neighbour>)
    ensures
        arranged(neighbours).to_multiset() == neighbours.to_multiset(),
        arranged(neighbours).len() == neighbours.len(),
        forall|i: int, j: int|
            0 <= i < j < arranged(neighbours).len() ==> comes_before(
                #[trigger] arranged(neighbours)[i],
                #[trigger] arranged(neighbours)[j],
            ),
        forall|n: Neighbour| arranged(neighbours).contains(n) <==> neighbours.contains(n),
{
    lemma_by_distance_total();
    neighbours.lemma_sort_by_ensures(by_distance());
    vstd::seq_lib::to_multiset_len(neighbours);
    vstd::seq_lib::to_multiset_len(arranged(neighbours));
    let sorted = arranged(neighbours);
    assert forall|i: int, j: int| 0 <= i < j < sorted.len() implies comes_before(
        #[trigger] sorted[i],
        #[trigger] sorted[j],
    ) by {
        assert(by_distance()(sorted[i], sorted[j]));
    }
    assert forall|n: Neighbour| arranged(neighbours).contains(n) <==> neighbours.contains(n) by {
        vstd::seq_lib::to_multiset_contains(neighbours, n);
        vstd::seq_lib::to_multiset_contains(arranged(neighbours), n);
    }
}

/// The key that orders the pattern `bits`.
pub fn distance_key(bits: u32) -> (key: u32)
    ensures
        key == order_key(bits),
{
    if bits & 0x8000_0000 != 0 {
        !bits
    } else {
        bits | 0x8000_0000
    }
}

/// Whether `a` is to come before `b`, or is `b`.
fn precedes(a: &Neighbour, b: &Neighbour) -> (r: bool)
    ensures
        r == comes_before(*a, *b),
{
    let ka: u32 = distance_key(a.distance);
    let kb: u32 = distance_key(b.distance);
    ka < kb || (ka == kb && a.internal_id <= b.internal_id)
}

/// The candidates in ascending order of distance, those of one distance in
/// ascending order of internal identifier.
pub fn arrange(neighbours: &Vec<Neighbour>) -> (out: Vec<Neighbour>)
    ensures
        out@ == arranged(neighbours@),
{
    let mut out: Vec<Neighbour> = Vec::new();
    let mut i: usize = 0;
    assert(neighbours@.take(0) =~= out@);
    while i < neighbours.len()
        invariant
            i <= neighbours.len(),
            sorted_by(out@, by_distance()),
            out@.to_multiset() == neighbours@.take(i as int).to_multiset(),
        decreases neighbours.len() - i,
    {
        let n: Neighbour = neighbours[i];
        let ghost before = out@;
        let mut p: usize = out.len();
        while p > 0 && !precedes(&out[p - 1], &n)
            invariant
                p <= out.len(),
                out@ == before,
                forall|t: int| p <= t < out.len() ==> !comes_before(#[trigger] out@[t], n),
            decreases p,
        {
            p -= 1;
        }
        out.insert(p, n);
        proof {
            to_multiset_insert(before, p as int, n);
            to_multiset_build(neighbours@.take(i as int), n);
            assert(neighbours@.take(i as int).push(n) =~= neighbours@.take(i + 1));
            let after = out@;
            assert forall|a: int, b: int| 0 <= a < b < after.len() implies by_distance()(
                after[a],
                after[b],
            ) by {
                if b == p {
                    assert(by_distance()(before[a], before[p - 1]) || a == p - 1);
                }
            }
        }
        i += 1;
    }
    proof {
        assert(neighbours@.take(neighbours.len() as int) =~= neighbours@);
        lemma_by_distance_total();
        neighbours@.lemma_sort_by_ensures(by_distance());
        lemma_sorted_unique(out@, arranged(neighbours@), by_distance());
    }
    out
}

} // verus!
