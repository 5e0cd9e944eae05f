//! General properties of the encoding, stated and proved over the model.

use vstd::prelude::*;

use crate::encoder::ConverterError;
use crate::encoder::MemberMap;
use crate::model::all_in_range;
use crate::model::contribution;
use crate::model::dims_product;
use crate::model::encode_sum;
use crate::model::is_first_violation;
use crate::model::lemma_prod_of_pos;
use crate::model::mixed_radix;
use crate::model::plan_in_range;
use crate::model::plans_from;
use crate::model::plans_of;
use crate::model::prod_from;
use crate::model::prod_of;
use crate::model::range_size;
use crate::model::ranged;
use crate::model::seq_max;
use crate::model::seq_min;
use crate::model::step_int;
use crate::model::to_x_post;

verus! {

/// A well-formed mixed-radix layout stays well formed when its last plan
/// is dropped.
proof fn lemma_mixed_radix_drop_last(plans: Seq<MemberMap>)
    requires
        mixed_radix(plans),
        plans.len() >= 1,
    ensures
        mixed_radix(plans.drop_last()),
{
    let rest = plans.drop_last();
    assert forall|j: int| 0 <= j < rest.len() implies (#[trigger] rest[j]).min_value
        <= rest[j].max_value by {
        assert(rest[j] == plans[j]);
    }
    assert forall|j: int| 0 <= j < rest.len() implies (#[trigger] rest[j]).carry == prod_of(
        rest.take(j),
    ) by {
        assert(rest[j] == plans[j]);
        assert(rest.take(j) =~= plans.take(j));
    }
}

/// When the dimensions are all fixed, the plan sequence is empty, so a
/// query on any coordinate tuple returns zero.
pub proof fn lemma_all_fixed_encodes_zero(dims: Seq<Seq<u32>>, y: Seq<u32>)
    requires
        forall|i: int| 0 <= i < dims.len() ==> (#[trigger] dims[i]).len() == 1,
    ensures
        plans_of(dims).len() == 0,
        encode_sum(plans_of(dims), y) == 0,
        forall|r: Result<u64, ConverterError>| #[trigger]
            to_x_post(plans_of(dims), y, r) ==> r == Ok::<u64, ConverterError>(0u64),
{
    lemma_plans_from_all_fixed(dims, 0, 1);
    assert forall|r: Result<u64, ConverterError>| #[trigger]
        to_x_post(plans_of(dims), y, r) implies r == Ok::<u64, ConverterError>(0u64) by {
        assert(all_in_range(plans_of(dims), y));
    }
}

proof fn lemma_plans_from_all_fixed(dims: Seq<Seq<u32>>, i: int, carry: int)
    requires
        forall|k: int| 0 <= k < dims.len() ==> (#[trigger] dims[k]).len() == 1,
    ensures
        plans_from(dims, i, carry).len() == 0,
    decreases dims.len() - i,
{
    if 0 <= i && i < dims.len() {
        assert(!ranged(dims[i]));
        lemma_plans_from_all_fixed(dims, i + 1, carry);
    }
}

/// The encoded index of an in-range tuple lies between 0 and the size of
/// the addressable space minus one.
pub proof fn lemma_encode_sum_bound(plans: Seq<MemberMap>, y: Seq<u32>)
    requires
        mixed_radix(plans),
        all_in_range(plans, y),
    ensures
        0 <= encode_sum(plans, y) <= prod_of(plans) - 1,
    decreases plans.len(),
{
    if plans.len() > 0 {
        let rest = plans.drop_last();
        let last = plans.last();
        lemma_mixed_radix_drop_last(plans);
        assert forall|j: int| 0 <= j < rest.len() implies plan_in_range(
            #[trigger] rest[j],
            y,
        ) by {
            assert(rest[j] == plans[j]);
        }
        lemma_encode_sum_bound(rest, y);
        assert(plans.take(plans.len() - 1) =~= rest);
        let c = last.carry as int;
        let s = step_int(last);
        let off = y[last.dimension_position as int] - last.min_value;
        assert(plan_in_range(last, y));
        lemma_prod_of_pos(rest);
        assert(0 <= c * off && c * off <= c * (s - 1) && (c - 1) + c * (s - 1) == c * s - 1)
            by (nonlinear_arith)
            requires
                c >= 1,
                0 <= off <= s - 1,
        ;
    }
}

/// Two sums that differ in their top digit differ, whatever their lower
/// parts: the lower parts stay below the top digit's stride.
proof fn lemma_top_digit_separates(e1: int, e2: int, c: int, o1: int, o2: int)
    by (nonlinear_arith)
    requires
        0 <= e1 <= c - 1,
        0 <= e2 <= c - 1,
        c >= 1,
        o1 >= 0,
        o2 >= 0,
        o1 != o2,
    ensures
        e1 + c * o1 != e2 + c * o2,
{
}

/// The encoding is injective over in-range tuples: two tuples that differ
/// at some position a plan reads encode to different indices.
#[verifier::rlimit(50)]
pub proof fn lemma_encode_injective(plans: Seq<MemberMap>, y1: Seq<u32>, y2: Seq<u32>)
    requires
        mixed_radix(plans),
        all_in_range(plans, y1),
        all_in_range(plans, y2),
        exists|j: int|
            0 <= j < plans.len() && y1[(#[trigger] plans[j]).dimension_position as int]
                != y2[plans[j].dimension_position as int],
    ensures
        encode_sum(plans, y1) != encode_sum(plans, y2),
    decreases plans.len(),
{
    let j = choose|j: int|
        0 <= j < plans.len() && y1[(#[trigger] plans[j]).dimension_position as int]
            != y2[plans[j].dimension_position as int];
    let rest = plans.drop_last();
    let last = plans.last();
    let pos = last.dimension_position as int;
    let c = last.carry as int;
    let s = step_int(last);
    lemma_mixed_radix_drop_last(plans);
    assert forall|k: int| 0 <= k < rest.len() implies plan_in_range(#[trigger] rest[k], y1) by {
        assert(rest[k] == plans[k]);
    }
    assert forall|k: int| 0 <= k < rest.len() implies plan_in_range(#[trigger] rest[k], y2) by {
        assert(rest[k] == plans[k]);
    }
    lemma_encode_sum_bound(rest, y1);
    lemma_encode_sum_bound(rest, y2);
    assert(plans.take(plans.len() - 1) =~= rest);
    lemma_prod_of_pos(rest);
    let e1 = encode_sum(rest, y1);
    let e2 = encode_sum(rest, y2);
    let o1 = y1[pos] - last.min_value;
    let o2 = y2[pos] - last.min_value;
    assert(plan_in_range(last, y1) && plan_in_range(last, y2));
    if o1 == o2 {
        assert(plans[j] == rest[j]);
        lemma_encode_injective(rest, y1, y2);
        assert(encode_sum(plans, y1) == e1 + c * o1);
        assert(encode_sum(plans, y2) == e2 + c * o2);
    } else {
        lemma_top_digit_separates(e1, e2, c, o1, o2);
        assert(encode_sum(plans, y1) == e1 + c * o1);
        assert(encode_sum(plans, y2) == e2 + c * o2);
    }
}

/// A query's contract determines its result: two results that both meet
/// it, for the same plans and the same tuple, are equal.
pub proof fn lemma_to_x_deterministic(
    plans: Seq<MemberMap>,
    y: Seq<u32>,
    r1: Result<u64, ConverterError>,
    r2: Result<u64, ConverterError>,
)
    requires
        to_x_post(plans, y, r1),
        to_x_post(plans, y, r2),
    ensures
        r1 == r2,
{
    if !all_in_range(plans, y) {
        let e1 = r1->Err_0;
        let e2 = r2->Err_0;
        let j1 = choose|j: int|
            #[trigger] is_first_violation(plans, y, j) && e1 == ConverterError::OutOfRange(
                plans[j].dimension_position,
                y[plans[j].dimension_position as int],
            );
        let j2 = choose|j: int|
            #[trigger] is_first_violation(plans, y, j) && e2 == ConverterError::OutOfRange(
                plans[j].dimension_position,
                y[plans[j].dimension_position as int],
            );
        if j1 < j2 {
            assert(plan_in_range(plans[j1], y));
        }
        if j2 < j1 {
            assert(plan_in_range(plans[j2], y));
        }
        assert(j1 == j2);
    }
}

/// A coordinate at a plan's minimum contributes nothing; one at its
/// maximum contributes the plan's stride times its range size minus one.
pub proof fn lemma_boundary_contribution(m: MemberMap, y: Seq<u32>)
    requires
        m.min_value <= m.max_value,
    ensures
        y[m.dimension_position as int] == m.min_value ==> contribution(m, y) == 0,
        y[m.dimension_position as int] == m.max_value ==> contribution(m, y) == m.carry * (
        step_int(m) - 1),
{
}

/// A tuple that sits at every plan's maximum encodes to the size of the
/// addressable space minus one: the largest index any in-range tuple can
/// reach.
pub proof fn lemma_encode_max_attained(plans: Seq<MemberMap>, y: Seq<u32>)
    requires
        mixed_radix(plans),
        forall|j: int|
            0 <= j < plans.len() ==> y[(#[trigger] plans[j]).dimension_position as int]
                == plans[j].max_value,
    ensures
        encode_sum(plans, y) == prod_of(plans) - 1,
    decreases plans.len(),
{
    if plans.len() > 0 {
        let rest = plans.drop_last();
        let last = plans.last();
        lemma_mixed_radix_drop_last(plans);
        assert forall|j: int| 0 <= j < rest.len() implies y[(#[trigger] rest[j]).dimension_position
            as int] == rest[j].max_value by {
            assert(rest[j] == plans[j]);
        }
        lemma_encode_max_attained(rest, y);
        assert(plans.take(plans.len() - 1) =~= rest);
        lemma_prod_of_pos(rest);
        let c = last.carry as int;
        let s = step_int(last);
        assert((c - 1) + c * (s - 1) == c * s - 1) by (nonlinear_arith);
    }
}

/// The stride product accumulated by a build equals the product of every
/// ranged dimension's range size: the size of the addressable space.
pub proof fn lemma_total_stride_product(dims: Seq<Seq<u32>>)
    ensures
        prod_of(plans_of(dims)) == dims_product(dims),
{
    lemma_plans_from_prod(dims, 0, 1);
}

proof fn lemma_plans_from_prod(dims: Seq<Seq<u32>>, i: int, carry: int)
    ensures
        prod_of(plans_from(dims, i, carry)) == prod_from(dims, i),
    decreases dims.len() - i,
{
    if 0 <= i && i < dims.len() {
        if ranged(dims[i]) {
            let m = MemberMap {
                carry: carry as u64,
                dimension_position: i as usize,
                min_value: seq_min(dims[i]),
                max_value: seq_max(dims[i]),
            };
            let rest = plans_from(dims, i + 1, carry * range_size(dims[i]));
            lemma_plans_from_prod(dims, i + 1, carry * range_size(dims[i]));
            lemma_prod_of_prepend(m, rest);
        } else {
            lemma_plans_from_prod(dims, i + 1, carry);
        }
    }
}

proof fn lemma_prod_of_prepend(m: MemberMap, rest: Seq<MemberMap>)
    ensures
        prod_of(seq![m] + rest) == step_int(m) * prod_of(rest),
    decreases rest.len(),
{
    if rest.len() == 0 {
        assert(seq![m] + rest =~= seq![m]);
        assert(seq![m].drop_last() =~= Seq::<MemberMap>::empty());
        assert(seq![m].last() == m);
        assert(prod_of(Seq::<MemberMap>::empty()) == 1);
        assert(prod_of(seq![m]) == 1 * step_int(m));
    } else {
        let s = seq![m] + rest;
        assert(s.drop_last() =~= seq![m] + rest.drop_last());
        assert(s.last() == rest.last());
        lemma_prod_of_prepend(m, rest.drop_last());
        assert(prod_of(s) == (step_int(m) * prod_of(rest.drop_last())) * step_int(rest.last()));
        assert((step_int(m) * prod_of(rest.drop_last())) * step_int(rest.last()) == step_int(m) * (
        prod_of(rest.drop_last()) * step_int(rest.last()))) by (nonlinear_arith);
        assert(prod_of(rest) == prod_of(rest.drop_last()) * step_int(rest.last()));
    }
}

} // verus!

