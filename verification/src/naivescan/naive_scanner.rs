//! Range scan over the plain column.
use vstd::prelude::*;
use bit_vec::BitVec;
use crate::bitvec_ops::{bits_of, bitvec_new, bitvec_push};

verus! {

/// The range test that a plain scan applies to one value.
pub open spec fn value_in_range(v: u32, c1: u32, c2: u32) -> bool {
    c1 < v && v < c2
}

/// The marks of a plain scan: one per value, set when `c1 < v < c2`.
pub open spec fn range_marks(arr: Seq<u32>, c1: u32, c2: u32) -> Seq<bool> {
    Seq::new(arr.len(), |i: int| value_in_range(arr[i], c1, c2))
}

/// Marks every value `v` of the column with `c1 < v < c2`, one bit per
/// value in column order.
pub fn scan_between(arr: &[u32], c1: u32, c2: u32) -> (result_bv: BitVec)
    ensures
        bits_of(result_bv) == range_marks(arr@, c1, c2),
        bits_of(result_bv).len() == arr.len(),
        forall|i: int| 0 <= i < arr.len() ==> #[trigger] bits_of(result_bv)[i] == (c1 < arr[i] && arr[i] < c2),
{
    let mut result_bv = bitvec_new();
    let mut i: usize = 0;
    while i < arr.len()
        invariant
            i <= arr.len(),
            bits_of(result_bv) == range_marks(arr@, c1, c2).take(i as int),
        decreases arr.len() - i,
    {
        if arr[i] > c1 && arr[i] < c2 {
            bitvec_push(&mut result_bv, true);
        } else {
            bitvec_push(&mut result_bv, false);
        }
        proof {
            assert(range_marks(arr@, c1, c2).take(i + 1) =~= range_marks(arr@, c1, c2).take(i as int).push(value_in_range(arr@[i as int], c1, c2)));
        }
        i += 1;
    }
    proof {
        assert(range_marks(arr@, c1, c2).take(arr.len() as int) =~= range_marks(arr@, c1, c2));
        law_range_marks_test_every_value(arr@, c1, c2);
    }
    result_bv
}

/// The plain scan marks every value of the column, and mark `i` is set
/// exactly when value `i` lies strictly between `c1` and `c2`, wherever `i`
/// stands in the column.
pub proof fn law_range_marks_test_every_value(arr: Seq<u32>, c1: u32, c2: u32)
    ensures
        range_marks(arr, c1, c2).len() == arr.len(),
        forall|i: int| 0 <= i < arr.len() ==> #[trigger] range_marks(arr, c1, c2)[i] == (c1 < arr[i] && arr[i] < c2),
{
}

} // verus!
