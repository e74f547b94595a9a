use vstd::prelude::*;

use crate::types::HasTime;

verus! {

/// The timestamps of `arr` never decrease.
pub open spec fn sorted_by_time<T: HasTime>(arr: Seq<T>) -> bool {
    forall|i: int, j: int| 0 <= i <= j < arr.len() ==> arr[i].spec_time() <= arr[j].spec_time()
}

/// Index of the last element of `arr` whose time is strictly before `t`.
pub open spec fn spec_last_before_index<T: HasTime>(arr: Seq<T>, t: int) -> Option<int> {
    if exists|i: int| 0 <= i < arr.len() && arr[i].spec_time() < t {
        Some(choose|i: int|
            0 <= i < arr.len() && arr[i].spec_time() < t && forall|j: int|
                i < j < arr.len() ==> arr[j].spec_time() >= t)
    } else {
        None
    }
}

/// Binary search for the last element whose time is strictly less than `t`.
/// Returns `None` if no such element exists.
pub fn last_before<T: HasTime>(arr: &[T], t: i64) -> (r: Option<&T>)
    requires
        sorted_by_time(arr@),
    ensures
        r is None <==> forall|i: int| 0 <= i < arr@.len() ==> arr@[i].spec_time() >= t,
        r matches Some(e) ==> exists|i: int|
            0 <= i < arr@.len() && arr@[i] == *e && e.spec_time() < t && forall|j: int|
                i < j < arr@.len() ==> arr@[j].spec_time() >= t,
{
    if arr.len() == 0 {
        return None;
    }
    let mut lo: usize = 0;
    let mut hi: usize = arr.len() - 1;
    let mut result: Option<usize> = None;
    while lo <= hi
        invariant
            sorted_by_time(arr@),
            arr@.len() > 0,
            hi < arr@.len(),
            lo <= arr@.len(),
            lo <= hi + 1,
            forall|k: int| 0 <= k < lo ==> arr@[k].spec_time() < t,
            forall|k: int| hi < k < arr@.len() ==> arr@[k].spec_time() >= t,
            result is None ==> lo == 0,
            result matches Some(ri) ==> ri + 1 == lo,
        ensures
            forall|k: int| 0 <= k < lo ==> arr@[k].spec_time() < t,
            forall|k: int| lo <= k < arr@.len() ==> arr@[k].spec_time() >= t,
            result is None ==> lo == 0,
            result matches Some(ri) ==> ri + 1 == lo,
        decreases hi + 1 - lo,
    {
        let mid = lo + (hi - lo) / 2;
        if arr[mid].time_ms() < t {
            result = Some(mid);
            lo = mid + 1;
        } else {
            if mid == 0 {
                assert forall|k: int| 0 <= k < arr@.len() implies arr@[k].spec_time() >= t by {
                    assert(arr@[0].spec_time() <= arr@[k].spec_time());
                }
                break;
            }
            hi = mid - 1;
        }
    }
    match result {
        Some(i) => Some(&arr[i]),
        None => None,
    }
}

} // verus!
