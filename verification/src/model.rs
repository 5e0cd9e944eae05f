//! The mathematical model: what a built converter looks like and what a
//! query returns, stated over sequences and unbounded integers.

use vstd::prelude::*;

use crate::encoder::ConverterError;
use crate::encoder::LongConverter;
use crate::encoder::MemberMap;

verus! {

/// The minimum of a non-empty sequence of declared values.
pub open spec fn seq_min(s: Seq<u32>) -> u32
    recommends
        s.len() >= 1,
    decreases s.len(),
{
    if s.len() <= 1 {
        s[0]
    } else {
        let m = seq_min(s.drop_last());
        if s.last() < m {
            s.last()
        } else {
            m
        }
    }
}

/// The maximum of a non-empty sequence of declared values.
pub open spec fn seq_max(s: Seq<u32>) -> u32
    recommends
        s.len() >= 1,
    decreases s.len(),
{
    if s.len() <= 1 {
        s[0]
    } else {
        let m = seq_max(s.drop_last());
        if s.last() > m {
            s.last()
        } else {
            m
        }
    }
}

/// A dimension is ranged when it declares two or more values.
pub open spec fn ranged(d: Seq<u32>) -> bool {
    d.len() >= 2
}

/// The number of distinct offsets a ranged dimension contributes:
/// `max - min + 1` over its declared values.
pub open spec fn range_size(d: Seq<u32>) -> int {
    seq_max(d) - seq_min(d) + 1
}

/// The views of a list of declared dimensions, as a sequence of sequences.
pub open spec fn declared_views(ds: Seq<Vec<u32>>) -> Seq<Seq<u32>> {
    Seq::new(ds.len(), |i: int| ds[i]@)
}

/// The product of the range sizes of the ranged dimensions at positions
/// `i` and later: the size of the addressable space they span.
pub open spec fn prod_from(dims: Seq<Seq<u32>>, i: int) -> int
    decreases dims.len() - i,
{
    if i < 0 || i >= dims.len() {
        1
    } else if ranged(dims[i]) {
        range_size(dims[i]) * prod_from(dims, i + 1)
    } else {
        prod_from(dims, i + 1)
    }
}

/// The total addressable space: the product of every ranged dimension's
/// range size.
pub open spec fn dims_product(dims: Seq<Seq<u32>>) -> int {
    prod_from(dims, 0)
}

/// The plans built from the dimensions at positions `i` and later, when
/// the stride accumulated so far is `carry`.
pub open spec fn plans_from(dims: Seq<Seq<u32>>, i: int, carry: int) -> Seq<MemberMap>
    decreases dims.len() - i,
{
    if i < 0 || i >= dims.len() {
        Seq::empty()
    } else if ranged(dims[i]) {
        let m = MemberMap {
            carry: carry as u64,
            dimension_position: i as usize,
            min_value: seq_min(dims[i]),
            max_value: seq_max(dims[i]),
        };
        seq![m] + plans_from(dims, i + 1, carry * range_size(dims[i]))
    } else {
        plans_from(dims, i + 1, carry)
    }
}

/// The full plan sequence of a build: one plan per ranged dimension, in
/// declaration order, with strides accumulated from 1.
pub open spec fn plans_of(dims: Seq<Seq<u32>>) -> Seq<MemberMap> {
    plans_from(dims, 0, 1)
}

/// The range size of one plan: `max_value - min_value + 1`.
pub open spec fn step_int(m: MemberMap) -> int {
    m.max_value - m.min_value + 1
}

/// The term one plan adds to the index: stride times the coordinate's
/// offset from the plan's minimum.
pub open spec fn contribution(m: MemberMap, y: Seq<u32>) -> int {
    m.carry * (y[m.dimension_position as int] - m.min_value)
}

/// The encoded index: the sum of every plan's contribution.
pub open spec fn encode_sum(plans: Seq<MemberMap>, y: Seq<u32>) -> int
    decreases plans.len(),
{
    if plans.len() == 0 {
        0
    } else {
        encode_sum(plans.drop_last(), y) + contribution(plans.last(), y)
    }
}

/// The product of the range sizes of a plan sequence.
pub open spec fn prod_of(plans: Seq<MemberMap>) -> int
    decreases plans.len(),
{
    if plans.len() == 0 {
        1
    } else {
        prod_of(plans.drop_last()) * step_int(plans.last())
    }
}

/// The coordinate a plan reads lies within the plan's bounds.
pub open spec fn plan_in_range(m: MemberMap, y: Seq<u32>) -> bool {
    m.min_value <= y[m.dimension_position as int] <= m.max_value
}

/// Every plan's coordinate lies within its bounds.
pub open spec fn all_in_range(plans: Seq<MemberMap>, y: Seq<u32>) -> bool {
    forall|j: int| 0 <= j < plans.len() ==> plan_in_range(#[trigger] plans[j], y)
}

/// Every plan reads a coordinate position below `n`.
pub open spec fn plans_fit(plans: Seq<MemberMap>, n: int) -> bool {
    forall|j: int| 0 <= j < plans.len() ==> (#[trigger] plans[j]).dimension_position < n
}

/// Every plan's bounds are ordered: `min_value <= max_value`.
pub open spec fn bounds_ordered(plans: Seq<MemberMap>) -> bool {
    forall|j: int| 0 <= j < plans.len() ==> (#[trigger] plans[j]).min_value <= plans[j].max_value
}

/// The plans are a well-formed mixed-radix layout: ordered bounds, and
/// each stride equal to the product of the range sizes of the plans
/// before it.
pub open spec fn mixed_radix(plans: Seq<MemberMap>) -> bool {
    &&& bounds_ordered(plans)
    &&& forall|j: int| 0 <= j < plans.len() ==> (#[trigger] plans[j]).carry == prod_of(plans.take(j))
}

/// Plan `j` is the first whose coordinate is out of bounds.
pub open spec fn is_first_violation(plans: Seq<MemberMap>, y: Seq<u32>, j: int) -> bool {
    &&& 0 <= j < plans.len()
    &&& !plan_in_range(plans[j], y)
    &&& forall|k: int| 0 <= k < j ==> plan_in_range(#[trigger] plans[k], y)
}

/// Everything a query promises: it succeeds exactly when every ranged
/// coordinate is in bounds, a success carries the encoded sum, and a
/// failure reports the position and value of the first out-of-bounds
/// coordinate.
pub open spec fn to_x_post(plans: Seq<MemberMap>, y: Seq<u32>, r: Result<u64, ConverterError>) -> bool {
    &&& (all_in_range(plans, y) <==> r is Ok)
    &&& (r matches Ok(v) ==> v == encode_sum(plans, y))
    &&& (r matches Err(e) ==> exists|j: int|
        #[trigger] is_first_violation(plans, y, j) && e == ConverterError::OutOfRange(
            plans[j].dimension_position,
            y[plans[j].dimension_position as int],
        ))
}

/// Everything a build promises: it fails exactly when some dimension
/// declares no values, and a success is well formed, records each fixed
/// dimension's single value (zero in ranged slots), and holds exactly the
/// plans of the declared dimensions.
pub open spec fn new_post(dims: Seq<Seq<u32>>, r: Result<LongConverter, ConverterError>) -> bool {
    &&& ((exists|i: int| 0 <= i < dims.len() && (#[trigger] dims[i]).len() == 0) <==> r is Err)
    &&& (r matches Err(e) ==> e == ConverterError::EmptyDimension)
    &&& (r matches Ok(c) ==> {
        &&& c.wf()
        &&& c.fixed_members@.len() == dims.len()
        &&& forall|i: int|
            0 <= i < dims.len() && (#[trigger] dims[i]).len() == 1 ==> c.fixed_members@[i]
                == dims[i][0]
        &&& forall|i: int|
            0 <= i < dims.len() && (#[trigger] dims[i]).len() != 1 ==> c.fixed_members@[i] == 0
        &&& c.mappings@ == plans_of(dims)
    })
}

/// The minimum of a non-empty sequence never exceeds its maximum.
pub proof fn lemma_seq_min_le_max(s: Seq<u32>)
    requires
        s.len() >= 1,
    ensures
        seq_min(s) <= seq_max(s),
    decreases s.len(),
{
    if s.len() > 1 {
        lemma_seq_min_le_max(s.drop_last());
    }
}

/// The addressable space spanned by the dimensions at `i` and later is
/// never empty.
pub proof fn lemma_prod_from_pos(dims: Seq<Seq<u32>>, i: int)
    ensures
        prod_from(dims, i) >= 1,
    decreases dims.len() - i,
{
    if 0 <= i && i < dims.len() {
        lemma_prod_from_pos(dims, i + 1);
        if ranged(dims[i]) {
            lemma_seq_min_le_max(dims[i]);
            assert(range_size(dims[i]) * prod_from(dims, i + 1) >= 1) by (nonlinear_arith)
                requires
                    range_size(dims[i]) >= 1,
                    prod_from(dims, i + 1) >= 1,
            ;
        }
    }
}

/// A plan sequence with ordered bounds spans a non-empty space.
pub proof fn lemma_prod_of_pos(plans: Seq<MemberMap>)
    requires
        bounds_ordered(plans),
    ensures
        prod_of(plans) >= 1,
    decreases plans.len(),
{
    if plans.len() > 0 {
        assert(bounds_ordered(plans.drop_last()));
        lemma_prod_of_pos(plans.drop_last());
        assert(prod_of(plans.drop_last()) * step_int(plans.last()) >= 1) by (nonlinear_arith)
            requires
                prod_of(plans.drop_last()) >= 1,
                step_int(plans.last()) >= 1,
        ;
    }
}

/// Taking one more plan multiplies the spanned space by that plan's
/// range size.
pub proof fn lemma_prod_of_take_succ(plans: Seq<MemberMap>, j: int)
    requires
        0 <= j < plans.len(),
    ensures
        prod_of(plans.take(j + 1)) == prod_of(plans.take(j)) * step_int(plans[j]),
{
    assert(plans.take(j + 1).drop_last() =~= plans.take(j));
    assert(plans.take(j + 1).last() == plans[j]);
}

/// The space spanned by a prefix of the plans never exceeds the space
/// spanned by all of them.
pub proof fn lemma_prod_of_take_le(plans: Seq<MemberMap>, j: int)
    requires
        bounds_ordered(plans),
        0 <= j <= plans.len(),
    ensures
        prod_of(plans.take(j)) <= prod_of(plans),
    decreases plans.len() - j,
{
    if j == plans.len() {
        assert(plans.take(j) =~= plans);
    } else {
        assert(bounds_ordered(plans.take(j)));
        lemma_prod_of_pos(plans.take(j));
        lemma_prod_of_take_succ(plans, j);
        assert(prod_of(plans.take(j)) <= prod_of(plans.take(j)) * step_int(plans[j]))
            by (nonlinear_arith)
            requires
                prod_of(plans.take(j)) >= 1,
                step_int(plans[j]) >= 1,
        ;
        lemma_prod_of_take_le(plans, j + 1);
    }
}

/// Appending a plan multiplies the spanned space by its range size.
pub proof fn lemma_prod_of_push(plans: Seq<MemberMap>, m: MemberMap)
    ensures
        prod_of(plans.push(m)) == prod_of(plans) * step_int(m),
{
    assert(plans.push(m).drop_last() =~= plans);
    assert(plans.push(m).last() == m);
}

/// Appending a plan leaves every proper prefix unchanged.
pub proof fn lemma_take_of_push(plans: Seq<MemberMap>, m: MemberMap, j: int)
    requires
        0 <= j <= plans.len(),
    ensures
        plans.push(m).take(j) == plans.take(j),
{
    assert(plans.push(m).take(j) =~= plans.take(j));
}

/// A well-formed mixed-radix layout stays well formed when a plan whose
/// stride is the space spanned so far is appended.
pub proof fn lemma_mixed_radix_push(plans: Seq<MemberMap>, m: MemberMap)
    requires
        mixed_radix(plans),
        m.min_value <= m.max_value,
        m.carry == prod_of(plans),
    ensures
        mixed_radix(plans.push(m)),
{
    let pushed = plans.push(m);
    assert forall|j: int| 0 <= j < pushed.len() implies (#[trigger] pushed[j]).min_value
        <= pushed[j].max_value by {
        if j < plans.len() {
            assert(pushed[j] == plans[j]);
        }
    }
    assert forall|j: int| 0 <= j < pushed.len() implies (#[trigger] pushed[j]).carry == prod_of(
        pushed.take(j),
    ) by {
        lemma_take_of_push(plans, m, j);
        if j == plans.len() {
            assert(plans.take(j) =~= plans);
        } else {
            assert(pushed[j] == plans[j]);
        }
    }
}

/// Summing one more plan adds that plan's contribution.
pub proof fn lemma_encode_sum_take_succ(plans: Seq<MemberMap>, y: Seq<u32>, j: int)
    requires
        0 <= j < plans.len(),
    ensures
        encode_sum(plans.take(j + 1), y) == encode_sum(plans.take(j), y) + contribution(
            plans[j],
            y,
        ),
{
    assert(plans.take(j + 1).drop_last() =~= plans.take(j));
    assert(plans.take(j + 1).last() == plans[j]);
}

} // verus!
