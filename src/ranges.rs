use std::ops::RangeInclusive;
use vstd::prelude::*;
use vstd::set_lib::{lemma_int_range, lemma_len_subset, lemma_set_disjoint_lens, set_int_range};

verus! {

/// Relies on `RangeInclusive::start`, which returns a reference to the stored lower bound.
pub assume_specification<Idx>[ RangeInclusive::<Idx>::start ](r: &RangeInclusive<Idx>) -> (res: &Idx)
    ensures
        *res == r@.start,
;

/// Relies on `RangeInclusive::end`, which returns a reference to the stored upper bound.
pub assume_specification<Idx>[ RangeInclusive::<Idx>::end ](r: &RangeInclusive<Idx>) -> (res: &Idx)
    ensures
        *res == r@.end,
;

/// The inclusive bounds `(low, high)` of a byte range.
pub open spec fn bounds(r: RangeInclusive<u8>) -> (u8, u8) {
    (r@.start, r@.end)
}

/// The bounds of each range of a sequence, in order.
pub open spec fn bounds_of(rs: Seq<RangeInclusive<u8>>) -> Seq<(u8, u8)> {
    rs.map_values(|r: RangeInclusive<u8>| bounds(r))
}

/// Whether the byte value `x` lies in the range `(low, high)`.
pub open spec fn in_range(r: (u8, u8), x: int) -> bool {
    r.0 <= x <= r.1
}

/// Number of byte values in the range (zero when the bounds are reversed).
pub open spec fn range_len(r: (u8, u8)) -> nat {
    if r.0 <= r.1 {
        (r.1 - r.0 + 1) as nat
    } else {
        0
    }
}

/// Two ranges overlap unless one ends before the other starts.
pub open spec fn overlap(r1: (u8, u8), r2: (u8, u8)) -> bool {
    !(r1.1 < r2.0 || r1.0 > r2.1)
}

/// Sum of the lengths of the ranges.
pub open spec fn total_len(rs: Seq<(u8, u8)>) -> nat
    decreases rs.len(),
{
    if rs.len() == 0 {
        0
    } else {
        range_len(rs[0]) + total_len(rs.drop_first())
    }
}

/// No two ranges of the sequence overlap.
pub open spec fn no_overlaps(rs: Seq<(u8, u8)>) -> bool {
    forall|i: int, j: int| 0 <= i < j < rs.len() ==> !overlap(#[trigger] rs[i], #[trigger] rs[j])
}

/// Byte values covered by at least one range.
pub open spec fn covered(rs: Seq<(u8, u8)>) -> Set<int>
    decreases rs.len(),
{
    if rs.len() == 0 {
        Set::empty()
    } else {
        set_int_range(rs[0].0 as int, rs[0].1 + 1).union(covered(rs.drop_first()))
    }
}

/// Tells whether two ranges overlap: neither ends before the other starts.
pub fn ranges_overlap(r1: &RangeInclusive<u8>, r2: &RangeInclusive<u8>) -> (res: bool)
    ensures
        res == overlap(bounds(*r1), bounds(*r2)),
{
    !(*r1.end() < *r2.start() || *r1.start() > *r2.end())
}

/// The total length is additive over concatenation.
pub proof fn lemma_total_len_append(a: Seq<(u8, u8)>, b: Seq<(u8, u8)>)
    ensures
        total_len(a + b) == total_len(a) + total_len(b),
    decreases a.len(),
{
    if a.len() == 0 {
        assert(a + b =~= b);
    } else {
        assert((a + b).drop_first() =~= a.drop_first() + b);
        lemma_total_len_append(a.drop_first(), b);
    }
}

/// The prefix sums of range lengths grow by one range at a time.
pub proof fn lemma_total_len_take(rs: Seq<(u8, u8)>, i: int)
    requires
        0 <= i < rs.len(),
    ensures
        total_len(rs.take(i + 1)) == total_len(rs.take(i)) + range_len(rs[i]),
{
    assert(rs.take(i + 1) =~= rs.take(i) + seq![rs[i]]);
    lemma_total_len_append(rs.take(i), seq![rs[i]]);
    assert(seq![rs[i]].drop_first() =~= Seq::<(u8, u8)>::empty());
    assert(total_len(seq![rs[i]]) == range_len(rs[i]) + total_len(seq![rs[i]].drop_first()));
}

/// A prefix and the matching suffix share out the total length.
pub proof fn lemma_total_len_split(rs: Seq<(u8, u8)>, i: int)
    requires
        0 <= i <= rs.len(),
    ensures
        total_len(rs.take(i)) + total_len(rs.skip(i)) == total_len(rs),
{
    assert(rs =~= rs.take(i) + rs.skip(i));
    lemma_total_len_append(rs.take(i), rs.skip(i));
}

/// A byte value is covered exactly when some range holds it.
pub proof fn lemma_covered_members(rs: Seq<(u8, u8)>, x: int)
    ensures
        covered(rs).contains(x) <==> exists|k: int| 0 <= k < rs.len() && in_range(#[trigger] rs[k], x),
    decreases rs.len(),
{
    if rs.len() > 0 {
        lemma_covered_members(rs.drop_first(), x);
        if covered(rs).contains(x) && !in_range(rs[0], x) {
            let k = choose|k: int| 0 <= k < rs.drop_first().len() && in_range(#[trigger] rs.drop_first()[k], x);
            assert(in_range(rs[k + 1], x));
        }
        if exists|k: int| 0 <= k < rs.len() && in_range(#[trigger] rs[k], x) {
            let k = choose|k: int| 0 <= k < rs.len() && in_range(#[trigger] rs[k], x);
            if k > 0 {
                assert(in_range(rs.drop_first()[k - 1], x));
            }
        }
    }
}

/// Ranges that do not overlap cover as many byte values as their lengths add up to.
pub proof fn lemma_covered_len(rs: Seq<(u8, u8)>)
    requires
        no_overlaps(rs),
    ensures
        covered(rs).finite(),
        covered(rs).len() == total_len(rs),
        covered(rs).subset_of(set_int_range(0, 256)),
    decreases rs.len(),
{
    if rs.len() > 0 {
        let first = set_int_range(rs[0].0 as int, rs[0].1 + 1);
        let rest = rs.drop_first();
        assert(no_overlaps(rest)) by {
            assert forall|i: int, j: int| 0 <= i < j < rest.len() implies !overlap(
                #[trigger] rest[i],
                #[trigger] rest[j],
            ) by {
                assert(rest[i] == rs[i + 1] && rest[j] == rs[j + 1]);
            }
        }
        lemma_covered_len(rest);
        if rs[0].0 <= rs[0].1 {
            lemma_int_range(rs[0].0 as int, rs[0].1 + 1);
        } else {
            assert(first =~= Set::empty());
        }
        assert(first.disjoint(covered(rest))) by {
            assert forall|x: int| first.contains(x) implies !covered(rest).contains(x) by {
                lemma_covered_members(rest, x);
                if covered(rest).contains(x) {
                    let k = choose|k: int| 0 <= k < rest.len() && in_range(#[trigger] rest[k], x);
                    assert(rest[k] == rs[k + 1]);
                    assert(!overlap(rs[0], rs[k + 1]));
                }
            }
        }
        lemma_set_disjoint_lens(first, covered(rest));
    }
}

/// Ranges that do not overlap have lengths that add up to at most 256.
pub proof fn lemma_total_len_bound(rs: Seq<(u8, u8)>)
    requires
        no_overlaps(rs),
    ensures
        total_len(rs) <= 256,
{
    lemma_covered_len(rs);
    lemma_int_range(0, 256);
    lemma_len_subset(covered(rs), set_int_range(0, 256));
}

} // verus!
