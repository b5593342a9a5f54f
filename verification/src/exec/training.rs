//! The plain-value decisions of the training coordinator: the checks two
//! data views must pass before training starts, and the eviction rule that
//! keeps the total node count under the memory limit.

use vstd::prelude::*;

use crate::data::common::InputShape;
use crate::error::PrimeclueErr;

verus! {

/// The checks the two views must pass before training: both non-empty,
/// the same number of classes, and the same shape.
pub fn validate_views(
    training_empty: bool,
    verification_empty: bool,
    training_classes: usize,
    verification_classes: usize,
    training_shape: InputShape,
    verification_shape: InputShape,
) -> (r: Result<(), PrimeclueErr>)
    ensures
        r is Ok <==> (!training_empty && !verification_empty && training_classes
            == verification_classes && training_shape == verification_shape),
        training_empty ==> (r matches Err(e) && e.message() == "Data training set is empty"@),
        !training_empty && verification_empty ==> (r matches Err(e) && e.message()
            == "Data verification set is empty"@),
        !training_empty && !verification_empty && training_classes != verification_classes ==> (
        r matches Err(e) && e.message()
            == "Training and verification data differ in class count"@),
        !training_empty && !verification_empty && training_classes == verification_classes
            && training_shape != verification_shape ==> (r matches Err(e) && e.message()
            == "Training and verification data differ in data size"@),
{
    if training_empty {
        PrimeclueErr::result("Data training set is empty".to_owned())
    } else if verification_empty {
        PrimeclueErr::result("Data verification set is empty".to_owned())
    } else if training_classes != verification_classes {
        PrimeclueErr::result("Training and verification data differ in class count".to_owned())
    } else if !(training_shape == verification_shape) {
        PrimeclueErr::result("Training and verification data differ in data size".to_owned())
    } else {
        Ok(())
    }
}

/// The node total of the groups kept by the eviction rule among the first
/// `i` sizes: a group is kept when its size still fits over what was kept
/// before it.
pub open spec fn spec_kept_sum(sizes: Seq<usize>, limit: usize, i: int) -> int
    decreases i,
{
    if i <= 0 {
        0
    } else {
        let prev = spec_kept_sum(sizes, limit, i - 1);
        if prev + sizes[i - 1] <= limit {
            prev + sizes[i - 1]
        } else {
            prev
        }
    }
}

/// The eviction rule over group sizes listed smallest first: walk the
/// sizes, keep a group when it still fits over the kept total, evict it
/// otherwise; the kept total never passes the limit.
pub fn select_within_limit(sizes: &Vec<usize>, limit: usize) -> (keep: Vec<bool>)
    ensures
        keep@.len() == sizes@.len(),
        forall|i: int|
            0 <= i < sizes@.len() ==> (#[trigger] keep@[i]) == (spec_kept_sum(sizes@, limit, i)
                + sizes@[i] <= limit),
        spec_kept_sum(sizes@, limit, sizes@.len() as int) <= limit,
{
    let ghost sz = sizes@;
    let n = sizes.len();
    let mut keep: Vec<bool> = Vec::new();
    let mut so_far: usize = 0;
    let mut i: usize = 0;
    while i < n
        invariant
            sz == sizes@,
            n == sz.len(),
            i <= n,
            keep@.len() == i,
            so_far == spec_kept_sum(sz, limit, i as int),
            so_far <= limit,
            forall|j: int|
                0 <= j < i ==> (#[trigger] keep@[j]) == (spec_kept_sum(sz, limit, j) + sz[j]
                    <= limit),
        decreases n - i,
    {
        let size = sizes[i];
        if size <= limit - so_far {
            keep.push(true);
            so_far = so_far + size;
        } else {
            keep.push(false);
        }
        i = i + 1;
    }
    keep
}

} // verus!
