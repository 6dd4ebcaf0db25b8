//! Longest run of consecutively increasing integers.
//!
//! A run is a maximal stretch of positions where each value is exactly one
//! more than the one before it.  The scan reports the first and last value of
//! the first longest run; ties keep the earliest run, and an empty input
//! yields `(-1, -1)`.

use vstd::prelude::*;

verus! {

/// One step of the scan over the pair `(prev, cur)` of adjacent values.  The
/// state is `(max_start, max_end, cur_start, max_len, cur_len)`: the first
/// and last value of the best run so far, the first value of the current run,
/// and the two lengths.  The best end only moves when the current run
/// strictly beats the best length, so ties keep the earliest run.
pub open spec fn run_step(
    st: (int, int, int, int, int),
    prev: int,
    cur: int,
) -> (int, int, int, int, int) {
    if cur == prev + 1 {
        if st.4 + 1 > st.3 {
            (st.2, cur, st.2, st.4 + 1, st.4 + 1)
        } else {
            (st.0, st.1, st.2, st.3, st.4 + 1)
        }
    } else {
        (st.0, st.1, cur, st.3, 1)
    }
}

/// The scan state after processing positions `1 .. i` of `nums`.
pub open spec fn run_fold(
    nums: Seq<i32>,
    i: int,
    st: (int, int, int, int, int),
) -> (int, int, int, int, int)
    decreases nums.len() - i,
{
    if i < 1 || i >= nums.len() {
        st
    } else {
        run_fold(nums, i + 1, run_step(st, nums[i - 1] as int, nums[i] as int))
    }
}

/// The first and last value of the first longest consecutive run, or
/// `(-1, -1)` for an empty input.
pub open spec fn longest_seq_spec(nums: Seq<i32>) -> (int, int) {
    if nums.len() == 0 {
        (-1, -1)
    } else {
        let st = run_fold(
            nums,
            1,
            (nums[0] as int, nums[0] as int, nums[0] as int, 1, 1),
        );
        (st.0, st.1)
    }
}

/// Finds the first longest run of consecutively increasing values and
/// returns its first and last value; `(-1, -1)` for an empty input.
pub fn get_longest_seq(nums: Vec<i32>) -> (r: (i32, i32))
    ensures
        (r.0 as int, r.1 as int) == longest_seq_spec(nums@),
{
    if nums.len() == 0 {
        return (-1, -1);
    }
    let ghost init: (int, int, int, int, int) = (
        nums@[0] as int,
        nums@[0] as int,
        nums@[0] as int,
        1,
        1,
    );
    let mut max_start = nums[0];
    let mut max_end = nums[0];
    let mut current_start = nums[0];
    let mut max_length: usize = 1;
    let mut current_length: usize = 1;
    let mut i: usize = 1;
    while i < nums.len()
        invariant
            1 <= i <= nums@.len(),
            current_length <= i,
            max_length <= i,
            run_fold(nums@, 1, init) == run_fold(
                nums@,
                i as int,
                (
                    max_start as int,
                    max_end as int,
                    current_start as int,
                    max_length as int,
                    current_length as int,
                ),
            ),
        decreases nums@.len() - i,
    {
        let ghost st0: (int, int, int, int, int) = (
            max_start as int,
            max_end as int,
            current_start as int,
            max_length as int,
            current_length as int,
        );
        let ghost is = i as int;
        let prev = nums[i - 1];
        let cur = nums[i];
        if (cur as i64) == (prev as i64) + 1 {
            current_length += 1;
            if current_length > max_length {
                max_length = current_length;
                max_start = current_start;
                max_end = cur;
            }
        } else {
            current_start = cur;
            current_length = 1;
        }
        proof {
            assert(run_fold(nums@, is, st0) == run_fold(
                nums@,
                is + 1,
                run_step(st0, nums@[is - 1] as int, nums@[is] as int),
            ));
        }
        i += 1;
    }
    (max_start, max_end)
}

} // verus!
