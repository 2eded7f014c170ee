//! Tuning trouble: finding the first position in a datastream after which
//! the last 4 (or 14) characters received were all different.

use vstd::prelude::*;
use vstd::string::StrSliceExecFns;

verus! {

/// True when no character of `s` occurs twice.
pub open spec fn all_distinct(s: Seq<char>) -> bool {
    forall|i: int, j: int| 0 <= i < j < s.len() ==> s[i] != s[j]
}

/// True when the `count` characters starting at `i` are all different.
pub open spec fn marker_at(s: Seq<char>, i: int, count: int) -> bool {
    all_distinct(s.subrange(i, i + count))
}

/// The characters of the datastream, in order.
pub fn input_generator(input: &str) -> (r: Vec<char>)
    ensures
        r@ == input@,
{
    let n = input.unicode_len();
    let mut chars: Vec<char> = Vec::new();
    let mut i: usize = 0;
    while i < n
        invariant
            0 <= i <= n,
            n == input@.len(),
            chars@.len() == i,
            forall|j: int| 0 <= j < i ==> chars@[j] == input@[j],
        decreases n - i,
    {
        chars.push(input.get_char(i));
        i = i + 1;
    }
    proof {
        assert(chars@ =~= input@);
    }
    chars
}

/// The number of characters received when the first run of `count` distinct
/// characters is complete, or `None` when no such run exists.
pub fn find_marker(chars: &Vec<char>, count: usize) -> (r: Option<usize>)
    requires
        count >= 1,
    ensures
        match r {
            Some(idx) => {
                &&& count <= idx <= chars@.len()
                &&& marker_at(chars@, idx - count, count as int)
                &&& forall|j: int| 0 <= j < idx - count ==> !marker_at(chars@, j, count as int)
            },
            None => forall|j: int|
                0 <= j && j + count <= chars@.len() ==> !marker_at(chars@, j, count as int),
        },
{
    let n = chars.len();
    if n < count {
        return None;
    }
    let mut start: usize = 0;
    while start <= n - count
        invariant
            count >= 1,
            count <= n == chars@.len(),
            0 <= start,
            start + count <= n + 1,
            forall|j: int| 0 <= j < start ==> !marker_at(chars@, j, count as int),
        decreases n - start,
    {
        let mut distinct = true;
        let mut a: usize = start;
        while a < start + count && distinct
            invariant
                count >= 1,
                n == chars@.len(),
                start + count <= n,
                start <= a <= start + count,
                distinct ==> forall|i: int, j: int|
                    start <= i < j < a ==> chars@[i] != chars@[j],
                !distinct ==> !marker_at(chars@, start as int, count as int),
            decreases start + count - a,
        {
            let mut b: usize = start;
            while b < a && distinct
                invariant
                    n == chars@.len(),
                    start + count <= n,
                    start <= b <= a < start + count,
                    distinct ==> forall|i: int, j: int|
                        start <= i < j < a ==> chars@[i] != chars@[j],
                    distinct ==> forall|i: int| start <= i < b ==> chars@[i] != chars@[a as int],
                    !distinct ==> !marker_at(chars@, start as int, count as int),
                decreases a - b,
            {
                if chars[b] == chars[a] {
                    distinct = false;
                    proof {
                        let w = chars@.subrange(start as int, start + count);
                        assert(w[b - start] == chars@[b as int]);
                        assert(w[a - start] == chars@[a as int]);
                    }
                }
                b = b + 1;
            }
            a = a + 1;
        }
        if distinct {
            proof {
                let w = chars@.subrange(start as int, start + count);
                assert(forall|i: int, j: int|
                    0 <= i < j < w.len() ==> w[i] == chars@[start + i] && w[j] == chars@[start + j]);
            }
            return Some(start + count);
        }
        start = start + 1;
    }
    None
}

/// Characters processed before the first start-of-packet marker (four
/// distinct characters) is complete.
pub fn part1(input: &Vec<char>) -> (r: usize)
    requires
        exists|j: int| 0 <= j && j + 4 <= input@.len() && marker_at(input@, j, 4),
    ensures
        4 <= r <= input@.len(),
        marker_at(input@, r - 4, 4),
        forall|j: int| 0 <= j < r - 4 ==> !marker_at(input@, j, 4),
{
    match find_marker(input, 4) {
        Some(idx) => idx,
        None => {
            proof {
                let j = choose|j: int| 0 <= j && j + 4 <= input@.len() && marker_at(input@, j, 4);
                assert(!marker_at(input@, j, 4));
            }
            vstd::pervasive::unreached()
        },
    }
}

/// Characters processed before the first start-of-message marker (fourteen
/// distinct characters) is complete.
pub fn part2(input: &Vec<char>) -> (r: usize)
    requires
        exists|j: int| 0 <= j && j + 14 <= input@.len() && marker_at(input@, j, 14),
    ensures
        14 <= r <= input@.len(),
        marker_at(input@, r - 14, 14),
        forall|j: int| 0 <= j < r - 14 ==> !marker_at(input@, j, 14),
{
    match find_marker(input, 14) {
        Some(idx) => idx,
        None => {
            proof {
                let j = choose|j: int| 0 <= j && j + 14 <= input@.len() && marker_at(input@, j, 14);
                assert(!marker_at(input@, j, 14));
            }
            vstd::pervasive::unreached()
        },
    }
}

} // verus!
