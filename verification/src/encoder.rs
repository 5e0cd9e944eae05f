//! The encoder types: per-dimension plans and the top-level converter.

use vstd::prelude::*;

use crate::model::all_in_range;
use crate::model::contribution;
use crate::model::declared_views;
use crate::model::dims_product;
use crate::model::encode_sum;
use crate::model::is_first_violation;
use crate::model::lemma_encode_sum_take_succ;
use crate::model::lemma_mixed_radix_push;
use crate::model::lemma_prod_from_pos;
use crate::model::lemma_prod_of_pos;
use crate::model::lemma_prod_of_push;
use crate::model::lemma_prod_of_take_le;
use crate::model::lemma_prod_of_take_succ;
use crate::model::lemma_seq_min_le_max;
use crate::model::mixed_radix;
use crate::model::new_post;
use crate::model::plan_in_range;
use crate::model::plans_fit;
use crate::model::plans_from;
use crate::model::plans_of;
use crate::model::prod_from;
use crate::model::prod_of;
use crate::model::range_size;
use crate::model::ranged;
use crate::model::seq_max;
use crate::model::seq_min;
use crate::model::step_int;
use crate::model::to_x_post;

verus! {

/// The ways a build or a query can fail.
///
/// `EmptyDimension` is raised at build time when a declared dimension has no
/// allowed values. `OutOfRange(dimension_index, value)` is raised at query
/// time when a coordinate for a ranged dimension falls outside the numeric
/// bounds of that dimension's declared values.
#[derive(Debug, Clone, Copy, PartialEq, Eq, Structural)]
pub enum ConverterError {
    EmptyDimension,
    OutOfRange(usize, u32),
}

/// The plan for one ranged dimension: where it sits in the coordinate
/// tuple, the numeric bounds of its declared values, and the stride
/// (`carry`) its offset is scaled by.
#[derive(Debug)]
pub struct MemberMap {
    pub carry: u64,
    pub dimension_position: usize,
    pub min_value: u32,
    pub max_value: u32,
}

/// The converter: built once from the declared dimensions, then queried
/// read-only. `fixed_members` has one slot per dimension and holds the
/// single allowed value of each fixed dimension (zero in ranged slots);
/// `mappings` holds the plans of the ranged dimensions in declaration
/// order.
#[derive(Debug)]
pub struct LongConverter {
    pub fixed_members: Vec<u32>,
    pub mappings: Vec<MemberMap>,
}

impl MemberMap {
    /// Classify one ranged dimension: record its position, the bounds of
    /// its declared values, and the stride accumulated so far.
    pub fn new(dimension_position: usize, members: &Vec<u32>, carry: u64) -> (r: MemberMap)
        requires
            members@.len() >= 1,
        ensures
            r.carry == carry,
            r.dimension_position == dimension_position,
            r.min_value == seq_min(members@),
            r.max_value == seq_max(members@),
    {
        let mut min_value: u32 = members[0];
        let mut max_value: u32 = members[0];
        let mut i: usize = 1;
        while i < members.len()
            invariant
                1 <= i <= members@.len(),
                min_value == seq_min(members@.take(i as int)),
                max_value == seq_max(members@.take(i as int)),
            decreases members@.len() - i,
        {
            proof {
                assert(members@.take(i + 1).drop_last() =~= members@.take(i as int));
            }
            let v = members[i];
            if v < min_value {
                min_value = v;
            }
            if v > max_value {
                max_value = v;
            }
            i = i + 1;
        }
        proof {
            assert(members@.take(members@.len() as int) =~= members@);
        }
        MemberMap { carry, dimension_position, min_value, max_value }
    }

    /// The number of distinct offsets this dimension contributes.
    pub fn step(&self) -> (r: u64)
        requires
            self.min_value <= self.max_value,
        ensures
            r == step_int(*self),
    {
        (self.max_value as u64) - (self.min_value as u64) + 1u64
    }

    /// This dimension's term of the index: stride times the coordinate's
    /// offset from the minimum declared value.
    pub fn to_x(&self, y: &Vec<u32>) -> (r: u64)
        requires
            self.dimension_position < y@.len(),
            self.min_value <= y@[self.dimension_position as int] <= self.max_value,
            contribution(*self, y@) <= u64::MAX,
        ensures
            r == contribution(*self, y@),
    {
        self.carry * ((y[self.dimension_position] - self.min_value) as u64)
    }
}

impl LongConverter {
    /// The structural invariant: every plan's bounds are ordered, every
    /// plan's stride is the product of the range sizes of the plans before
    /// it, every plan points into the coordinate tuple, and the total
    /// addressable space fits in `u64`.
    pub open spec fn wf(self) -> bool {
        &&& mixed_radix(self.mappings@)
        &&& plans_fit(self.mappings@, self.fixed_members@.len() as int)
        &&& prod_of(self.mappings@) <= u64::MAX
    }

    /// Build a converter from the declared dimensions: classify each one
    /// in order, record fixed values, and accumulate strides for the
    /// ranged ones. Fails with `EmptyDimension` when a dimension declares
    /// no values. The total addressable space must fit in `u64`, since the
    /// strides are held as `u64` values.
    #[verifier::loop_isolation(false)]
    pub fn new(dimension_info: &Vec<Vec<u32>>) -> (r: Result<LongConverter, ConverterError>)
        requires
            dims_product(declared_views(dimension_info@)) <= u64::MAX,
        ensures
            new_post(declared_views(dimension_info@), r),
    {
        let ghost ds = declared_views(dimension_info@);
        let mut fixed_members: Vec<u32> = Vec::new();
        let mut mappings: Vec<MemberMap> = Vec::new();
        let mut carry: u64 = 1;
        let mut i: usize = 0;
        while i < dimension_info.len()
            invariant
                0 <= i <= ds.len(),
                fixed_members@.len() == i,
                forall|k: int| 0 <= k < i ==> (#[trigger] ds[k]).len() >= 1,
                forall|k: int|
                    0 <= k < i && (#[trigger] ds[k]).len() == 1 ==> fixed_members@[k] == ds[k][0],
                forall|k: int|
                    0 <= k < i && (#[trigger] ds[k]).len() != 1 ==> fixed_members@[k] == 0,
                mixed_radix(mappings@),
                plans_fit(mappings@, i as int),
                carry >= 1,
                carry == prod_of(mappings@),
                carry * prod_from(ds, i as int) == dims_product(ds),
                plans_of(ds) == mappings@ + plans_from(ds, i as int, carry as int),
            decreases ds.len() - i,
        {
            let dim = &dimension_info[i];
            let n = dim.len();
            if n == 0 {
                proof {
                    assert(ds[i as int].len() == 0);
                }
                return Err(ConverterError::EmptyDimension);
            }
            if n == 1 {
                fixed_members.push(dim[0]);
            } else {
                let map = MemberMap::new(i, dim, carry);
                proof {
                    lemma_seq_min_le_max(dim@);
                }
                let step = map.step();
                proof {
                    let ii = i as int;
                    assert(ranged(ds[ii]));
                    assert(step == range_size(ds[ii]));
                    lemma_prod_from_pos(ds, ii + 1);
                    assert(prod_from(ds, ii) == range_size(ds[ii]) * prod_from(ds, ii + 1));
                    assert(carry * (step as int) <= u64::MAX && carry * (step as int) >= 1
                        && (carry * (step as int)) * prod_from(ds, ii + 1) == carry * prod_from(
                        ds,
                        ii,
                    )) by (nonlinear_arith)
                        requires
                            carry >= 1,
                            step as int == range_size(ds[ii]),
                            range_size(ds[ii]) >= 1,
                            prod_from(ds, ii + 1) >= 1,
                            prod_from(ds, ii) == range_size(ds[ii]) * prod_from(ds, ii + 1),
                            carry * prod_from(ds, ii) <= u64::MAX,
                    ;
                    lemma_mixed_radix_push(mappings@, map);
                    lemma_prod_of_push(mappings@, map);
                    assert(mappings@ + plans_from(ds, ii, carry as int) == mappings@.push(map)
                        + plans_from(ds, ii + 1, carry as int * range_size(ds[ii]))) by {
                        assert(plans_from(ds, ii, carry as int) == seq![map] + plans_from(
                            ds,
                            ii + 1,
                            carry as int * range_size(ds[ii]),
                        ));
                        assert(mappings@ + (seq![map] + plans_from(
                            ds,
                            ii + 1,
                            carry as int * range_size(ds[ii]),
                        )) =~= mappings@.push(map) + plans_from(
                            ds,
                            ii + 1,
                            carry as int * range_size(ds[ii]),
                        ));
                    }
                }
                fixed_members.push(0);
                carry = carry * step;
                mappings.push(map);
            }
            i = i + 1;
        }
        proof {
            assert(plans_from(ds, i as int, carry as int) =~= Seq::empty());
            assert(mappings@ + Seq::empty() =~= mappings@);
        }
        Ok(LongConverter { fixed_members, mappings })
    }

    /// Encode one coordinate tuple: the sum over the ranged dimensions of
    /// `stride * (coordinate - min_value)`. The tuple must cover every
    /// position a plan reads. Succeeds exactly when every ranged
    /// coordinate lies within its dimension's bounds; otherwise reports
    /// the first out-of-bounds position and value.
    #[verifier::loop_isolation(false)]
    pub fn to_x(&self, y: &Vec<u32>) -> (r: Result<u64, ConverterError>)
        requires
            self.wf(),
            forall|j: int|
                0 <= j < self.mappings@.len() ==> (#[trigger] self.mappings@[j]).dimension_position
                    < y@.len(),
        ensures
            to_x_post(self.mappings@, y@, r),
    {
        let ghost plans = self.mappings@;
        let mut result: u64 = 0;
        let mut j: usize = 0;
        while j < self.mappings.len()
            invariant
                0 <= j <= plans.len(),
                forall|k: int| 0 <= k < j ==> plan_in_range(#[trigger] plans[k], y@),
                result == encode_sum(plans.take(j as int), y@),
                result <= prod_of(plans.take(j as int)) - 1,
            decreases plans.len() - j,
        {
            let m = &self.mappings[j];
            let c = y[m.dimension_position];
            if c < m.min_value || c > m.max_value {
                proof {
                    assert(is_first_violation(plans, y@, j as int));
                    assert(!all_in_range(plans, y@));
                }
                return Err(ConverterError::OutOfRange(m.dimension_position, c));
            }
            proof {
                let jj = j as int;
                let p = prod_of(plans.take(jj));
                let s = step_int(plans[jj]);
                let off = y@[plans[jj].dimension_position as int] - plans[jj].min_value;
                assert(plans[jj].carry == p);
                lemma_prod_of_pos(plans.take(jj));
                lemma_prod_of_take_succ(plans, jj);
                lemma_prod_of_take_le(plans, jj + 1);
                assert(0 <= p * off && p * off <= p * (s - 1) && (p - 1) + p * (s - 1) == p * s
                    - 1) by (nonlinear_arith)
                    requires
                        p >= 1,
                        0 <= off <= s - 1,
                ;
                assert(contribution(plans[jj], y@) == p * off);
                lemma_encode_sum_take_succ(plans, y@, jj);
            }
            result = result + m.to_x(y);
            j = j + 1;
        }
        proof {
            assert(plans.take(plans.len() as int) =~= plans);
        }
        Ok(result)
    }
}

} // verus!
