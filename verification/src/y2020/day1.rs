//! Report repair: finding the expense entries that sum to 2020 and
//! multiplying them together.

use vstd::prelude::*;

verus! {

/// The entries are non-negative and small enough that any three of them can
/// be added without overflow.
pub open spec fn entries_ok(s: Seq<i64>) -> bool {
    forall|i: int| 0 <= i < s.len() ==> 0 <= #[trigger] s[i] <= i64::MAX / 3
}

/// The product of the first pair of entries, in scan order, that sums to
/// 2020; -1 when no pair does.  Both indices range over the whole list, so
/// an entry of exactly 1010 pairs with itself.
pub fn find_pair_result(nums: &Vec<i64>) -> (r: i64)
    requires
        entries_ok(nums@),
    ensures
        r == -1 ==> forall|i: int, j: int|
            0 <= i < nums@.len() && 0 <= j < nums@.len() ==> nums@[i] + nums@[j] != 2020,
        r != -1 ==> exists|i: int, j: int|
            #![trigger nums@[i], nums@[j]]
            {
                &&& 0 <= i < nums@.len() && 0 <= j < nums@.len()
                &&& nums@[i] + nums@[j] == 2020
                &&& r == nums@[i] * nums@[j]
            },
{
    let n = nums.len();
    let mut i: usize = 0;
    while i < n
        invariant
            0 <= i <= n,
            n == nums@.len(),
            entries_ok(nums@),
            forall|i2: int, j2: int|
                0 <= i2 < i && 0 <= j2 < n ==> nums@[i2] + nums@[j2] != 2020,
        decreases n - i,
    {
        let mut j: usize = 0;
        while j < n
            invariant
                0 <= i < n,
                0 <= j <= n,
                n == nums@.len(),
                entries_ok(nums@),
                forall|j2: int| 0 <= j2 < j ==> nums@[i as int] + nums@[j2] != 2020,
            decreases n - j,
        {
            if nums[i] + nums[j] == 2020 {
                proof {
                    assert(0 <= nums@[i as int] <= 2020 && 0 <= nums@[j as int] <= 2020);
                    assert(nums@[i as int] * nums@[j as int] <= 2020 * 2020) by (nonlinear_arith)
                        requires
                            0 <= nums@[i as int] <= 2020 && 0 <= nums@[j as int] <= 2020,
                    ;
                    assert(nums@[i as int] * nums@[j as int] >= 0) by (nonlinear_arith)
                        requires
                            0 <= nums@[i as int] && 0 <= nums@[j as int],
                    ;
                }
                return nums[i] * nums[j];
            }
            j = j + 1;
        }
        i = i + 1;
    }
    -1
}

/// The product of the first triple of entries, in scan order, that sums to
/// 2020; -1 when no triple does.
pub fn find_tri_result(nums: &Vec<i64>) -> (r: i64)
    requires
        entries_ok(nums@),
    ensures
        r == -1 ==> forall|i: int, j: int, k: int|
            0 <= i < nums@.len() && 0 <= j < nums@.len() && 0 <= k < nums@.len() ==> nums@[i]
                + nums@[j] + nums@[k] != 2020,
        r != -1 ==> exists|i: int, j: int, k: int|
            #![trigger nums@[i], nums@[j], nums@[k]]
            {
                &&& 0 <= i < nums@.len() && 0 <= j < nums@.len() && 0 <= k < nums@.len()
                &&& nums@[i] + nums@[j] + nums@[k] == 2020
                &&& r == nums@[i] * nums@[j] * nums@[k]
            },
{
    let n = nums.len();
    let mut i: usize = 0;
    while i < n
        invariant
            0 <= i <= n,
            n == nums@.len(),
            entries_ok(nums@),
            forall|i2: int, j2: int, k2: int|
                0 <= i2 < i && 0 <= j2 < n && 0 <= k2 < n ==> nums@[i2] + nums@[j2] + nums@[k2]
                    != 2020,
        decreases n - i,
    {
        let mut j: usize = 0;
        while j < n
            invariant
                0 <= i < n,
                0 <= j <= n,
                n == nums@.len(),
                entries_ok(nums@),
                forall|j2: int, k2: int|
                    0 <= j2 < j && 0 <= k2 < n ==> nums@[i as int] + nums@[j2] + nums@[k2] != 2020,
            decreases n - j,
        {
            let mut k: usize = 0;
            while k < n
                invariant
                    0 <= i < n,
                    0 <= j < n,
                    0 <= k <= n,
                    n == nums@.len(),
                    entries_ok(nums@),
                    forall|k2: int|
                        0 <= k2 < k ==> nums@[i as int] + nums@[j as int] + nums@[k2] != 2020,
                decreases n - k,
            {
                let a = nums[i];
                let b = nums[j];
                let c = nums[k];
                if a + b + c == 2020 {
                    proof {
                        assert(0 <= a <= 2020 && 0 <= b <= 2020 && 0 <= c <= 2020);
                        assert(0 <= a * b <= 2020 * 2020) by (nonlinear_arith)
                            requires
                                0 <= a <= 2020 && 0 <= b <= 2020,
                        ;
                        assert(0 <= (a * b) * c <= 2020 * 2020 * 2020) by (nonlinear_arith)
                            requires
                                0 <= a * b <= 2020 * 2020 && 0 <= c <= 2020,
                        ;
                    }
                    return a * b * c;
                }
                k = k + 1;
            }
            j = j + 1;
        }
        i = i + 1;
    }
    -1
}

} // verus!
