//! Sonar sweep: counting increases between consecutive depth readings, and
//! between sums of sliding windows of three readings.

use crate::text::dec_val;
use crate::text::is_dec;
use crate::text::parse_u64;
use crate::text::split_char;
use crate::text::split_str;
use vstd::prelude::*;

verus! {

/// How many adjacent pairs of `s` increase.
pub open spec fn count_increasing(s: Seq<u64>) -> nat
    decreases s.len(),
{
    if s.len() < 2 {
        0
    } else {
        count_increasing(s.drop_last()) + if s.last() > s[s.len() - 2] {
            1nat
        } else {
            0nat
        }
    }
}

/// The sums of the sliding windows of three readings.
pub open spec fn window_sums(s: Seq<u64>) -> Seq<int> {
    if s.len() < 3 {
        Seq::empty()
    } else {
        Seq::new((s.len() - 2) as nat, |i: int| s[i] + s[i + 1] + s[i + 2])
    }
}

/// `window_sums` with every sum fitting in a `u64`.
pub open spec fn windows_fit(s: Seq<u64>) -> bool {
    forall|i: int| 0 <= i + 2 < s.len() ==> #[trigger] s[i] + s[i + 1] + s[i + 2] <= u64::MAX
}

/// Reads one depth per line.
pub fn input_generator(input: &str) -> (r: Vec<u64>)
    requires
        forall|i: int|
            0 <= i < split_char(input@, '\n').len() ==> is_dec(
                #[trigger] split_char(input@, '\n')[i],
            ) && dec_val(split_char(input@, '\n')[i]) <= u64::MAX,
    ensures
        r@.len() == split_char(input@, '\n').len(),
        forall|i: int| 0 <= i < r@.len() ==> r@[i] == dec_val(split_char(input@, '\n')[i]),
{
    let pieces = split_str(input, '\n');
    let mut nums: Vec<u64> = Vec::new();
    let mut i: usize = 0;
    while i < pieces.len()
        invariant
            0 <= i <= pieces@.len(),
            pieces.deep_view() =~= split_char(input@, '\n'),
            forall|j: int|
                0 <= j < split_char(input@, '\n').len() ==> is_dec(
                    #[trigger] split_char(input@, '\n')[j],
                ) && dec_val(split_char(input@, '\n')[j]) <= u64::MAX,
            nums@.len() == i,
            forall|j: int| 0 <= j < i ==> nums@[j] == dec_val(split_char(input@, '\n')[j]),
        decreases pieces@.len() - i,
    {
        proof {
            assert(pieces.deep_view()[i as int] == pieces@[i as int]@);
        }
        match parse_u64(pieces[i].as_str()) {
            Ok(v) => {
                nums.push(v);
            },
            Err(_) => {
                proof {
                    assert(false);
                }
            },
        }
        i = i + 1;
    }
    nums
}

/// The number of readings larger than the one before them.
pub fn count_increasing_seqs(nums: &Vec<u64>) -> (r: usize)
    ensures
        r == count_increasing(nums@),
{
    let mut count: usize = 0;
    let mut i: usize = 1;
    let n = nums.len();
    proof {
        assert(count_increasing(nums@.subrange(0, if n < 1 {
            n as int
        } else {
            1
        })) == 0);
    }
    if n == 0 {
        return 0;
    }
    while i < n
        invariant
            1 <= i <= n,
            n == nums@.len(),
            count <= i,
            count == count_increasing(nums@.subrange(0, i as int)),
        decreases n - i,
    {
        proof {
            let pre = nums@.subrange(0, i as int);
            let cur = nums@.subrange(0, i + 1);
            assert(cur.drop_last() =~= pre);
            assert(cur.last() == nums@[i as int]);
            assert(cur[cur.len() - 2] == nums@[i - 1]);
        }
        if nums[i] > nums[i - 1] {
            count = count + 1;
        }
        i = i + 1;
    }
    proof {
        assert(nums@.subrange(0, n as int) =~= nums@);
    }
    count
}

/// How many consecutive readings increase.
pub fn part1(nums: &Vec<u64>) -> (r: usize)
    ensures
        r == count_increasing(nums@),
{
    count_increasing_seqs(nums)
}

/// How many consecutive three-reading window sums increase.
pub fn part2(nums: &Vec<u64>) -> (r: usize)
    requires
        windows_fit(nums@),
    ensures
        r == count_increasing(window_sums(nums@).map_values(|v: int| v as u64)),
{
    let n = nums.len();
    let mut sums: Vec<u64> = Vec::new();
    if n >= 3 {
        let mut i: usize = 0;
        while i + 2 < n
            invariant
                n == nums@.len(),
                n >= 3,
                0 <= i <= n - 2,
                windows_fit(nums@),
                sums@.len() == i,
                forall|j: int| 0 <= j < i ==> sums@[j] == nums@[j] + nums@[j + 1] + nums@[j + 2],
            decreases n - i,
        {
            let s = nums[i] + nums[i + 1] + nums[i + 2];
            sums.push(s);
            i = i + 1;
        }
    }
    proof {
        assert(sums@ =~= window_sums(nums@).map_values(|v: int| v as u64));
    }
    count_increasing_seqs(&sums)
}

} // verus!
