//! The treachery of whales: lining crab submarines up at the position that
//! costs the least fuel, with linear and with triangular burn rates.

use crate::text::dec_val;
use crate::text::is_dec;
use crate::text::parse_u64;
use crate::text::split_char;
use crate::text::split_str;
use vstd::prelude::*;

verus! {

pub open spec fn abs_i(x: int) -> int {
    if x < 0 {
        -x
    } else {
        x
    }
}

/// Triangular fuel: moving `d` steps costs `1 + 2 + ... + d`.
pub open spec fn tri(d: int) -> int {
    d * (d + 1) / 2
}

/// Fuel to bring every crab to `t` at one unit per step.
pub open spec fn cost1(s: Seq<i64>, t: int) -> int
    decreases s.len(),
{
    if s.len() == 0 {
        0
    } else {
        cost1(s.drop_last(), t) + abs_i(t - s.last())
    }
}

/// Fuel to bring every crab to `t` at the triangular rate.
pub open spec fn cost2(s: Seq<i64>, t: int) -> int
    decreases s.len(),
{
    if s.len() == 0 {
        0
    } else {
        cost2(s.drop_last(), t) + tri(abs_i(t - s.last()))
    }
}

proof fn lemma_tri_nonneg(d: int)
    requires
        d >= 0,
    ensures
        tri(d) >= 0,
        d >= 2 ==> tri(d) > d,
{
    assert(d * (d + 1) / 2 >= 0) by (nonlinear_arith)
        requires
            d >= 0,
    ;
    if d >= 2 {
        assert(d * (d + 1) / 2 > d) by (nonlinear_arith)
            requires
                d >= 2,
        ;
    }
}

proof fn lemma_cost1_nonneg(s: Seq<i64>, t: int)
    ensures
        cost1(s, t) >= 0,
    decreases s.len(),
{
    if s.len() > 0 {
        lemma_cost1_nonneg(s.drop_last(), t);
    }
}

proof fn lemma_cost2_nonneg(s: Seq<i64>, t: int)
    ensures
        cost2(s, t) >= 0,
    decreases s.len(),
{
    if s.len() > 0 {
        lemma_cost2_nonneg(s.drop_last(), t);
        lemma_tri_nonneg(abs_i(t - s.last()));
    }
}

proof fn lemma_cost1_prefix(s: Seq<i64>, t: int, k: int)
    requires
        0 <= k <= s.len(),
    ensures
        0 <= cost1(s.subrange(0, k), t) <= cost1(s, t),
    decreases s.len() - k,
{
    lemma_cost1_nonneg(s.subrange(0, k), t);
    if k < s.len() {
        assert(s.subrange(0, k + 1).drop_last() =~= s.subrange(0, k));
        lemma_cost1_prefix(s, t, k + 1);
    } else {
        assert(s.subrange(0, k) =~= s);
    }
}

proof fn lemma_cost2_prefix(s: Seq<i64>, t: int, k: int)
    requires
        0 <= k <= s.len(),
    ensures
        0 <= cost2(s.subrange(0, k), t) <= cost2(s, t),
    decreases s.len() - k,
{
    lemma_cost2_nonneg(s.subrange(0, k), t);
    if k < s.len() {
        assert(s.subrange(0, k + 1).drop_last() =~= s.subrange(0, k));
        lemma_tri_nonneg(abs_i(t - s[k]));
        lemma_cost2_prefix(s, t, k + 1);
    } else {
        assert(s.subrange(0, k) =~= s);
    }
}

/// Reads the comma-separated crab positions.
pub fn input_generator(input: &str) -> (r: Vec<i64>)
    requires
        forall|i: int|
            0 <= i < split_char(input@, ',').len() ==> is_dec(#[trigger] split_char(input@, ',')[i])
                && dec_val(split_char(input@, ',')[i]) <= i64::MAX,
    ensures
        r@.len() == split_char(input@, ',').len(),
        forall|i: int| 0 <= i < r@.len() ==> r@[i] == dec_val(split_char(input@, ',')[i]),
{
    let pieces = split_str(input, ',');
    let mut nums: Vec<i64> = Vec::new();
    let mut i: usize = 0;
    while i < pieces.len()
        invariant
            0 <= i <= pieces@.len(),
            pieces.deep_view() =~= split_char(input@, ','),
            forall|j: int|
                0 <= j < split_char(input@, ',').len() ==> is_dec(
                    #[trigger] split_char(input@, ',')[j],
                ) && dec_val(split_char(input@, ',')[j]) <= i64::MAX,
            nums@.len() == i,
            forall|j: int| 0 <= j < i ==> nums@[j] == dec_val(split_char(input@, ',')[j]),
        decreases pieces@.len() - i,
    {
        proof {
            assert(pieces.deep_view()[i as int] == pieces@[i as int]@);
        }
        match parse_u64(pieces[i].as_str()) {
            Ok(v) => {
                nums.push(v as i64);
            },
            Err(_) => {
                proof {
                    assert(false);
                }
            },
        }
        i = i + 1;
    }
    nums
}

/// Triangular fuel for a distance.
pub fn fuel(d: i64) -> (r: i64)
    requires
        d >= 0,
        tri(d as int) <= i64::MAX,
    ensures
        r == tri(d as int),
{
    proof {
        let di = d as int;
        let h = di / 2;
        lemma_tri_nonneg(di);
        if d % 2 == 0 {
            assert(h * (di + 1) == di * (di + 1) / 2) by (nonlinear_arith)
                requires
                    di == 2 * h,
            ;
        } else {
            assert(di * (h + 1) == di * (di + 1) / 2) by (nonlinear_arith)
                requires
                    di == 2 * h + 1,
            ;
            assert((di + 1) / 2 == h + 1);
        }
    }
    if d % 2 == 0 {
        (d / 2) * (d + 1)
    } else {
        d * ((d + 1) / 2)
    }
}

/// The smallest element of a non-empty list.
pub open spec fn min_of(s: Seq<i64>) -> int
    decreases s.len(),
{
    if s.len() <= 1 {
        s[0] as int
    } else {
        let m = min_of(s.drop_last());
        if s.last() < m {
            s.last() as int
        } else {
            m
        }
    }
}

/// The largest element of a non-empty list.
pub open spec fn max_of(s: Seq<i64>) -> int
    decreases s.len(),
{
    if s.len() <= 1 {
        s[0] as int
    } else {
        let m = max_of(s.drop_last());
        if s.last() > m {
            s.last() as int
        } else {
            m
        }
    }
}

/// The smallest element of a non-empty list.
fn min_pos(positions: &Vec<i64>) -> (r: i64)
    requires
        positions@.len() > 0,
    ensures
        r == min_of(positions@),
        forall|j: int| 0 <= j < positions@.len() ==> r <= positions@[j],
        exists|j: int| 0 <= j < positions@.len() && r == positions@[j],
{
    let mut best = positions[0];
    let mut i: usize = 1;
    proof {
        assert(positions@.subrange(0, 1) =~= seq![positions@[0]]);
    }
    while i < positions.len()
        invariant
            1 <= i <= positions@.len(),
            best == min_of(positions@.subrange(0, i as int)),
            forall|j: int| 0 <= j < i ==> best <= positions@[j],
            exists|j: int| 0 <= j < i && best == positions@[j],
        decreases positions@.len() - i,
    {
        proof {
            let pre = positions@.subrange(0, i as int);
            let cur = positions@.subrange(0, i + 1);
            assert(cur.drop_last() =~= pre);
            assert(cur.last() == positions@[i as int]);
        }
        if positions[i] < best {
            best = positions[i];
        }
        i = i + 1;
    }
    proof {
        assert(positions@.subrange(0, positions@.len() as int) =~= positions@);
    }
    best
}

/// The largest element of a non-empty list.
fn max_pos(positions: &Vec<i64>) -> (r: i64)
    requires
        positions@.len() > 0,
    ensures
        r == max_of(positions@),
        forall|j: int| 0 <= j < positions@.len() ==> r >= positions@[j],
        exists|j: int| 0 <= j < positions@.len() && r == positions@[j],
{
    let mut best = positions[0];
    let mut i: usize = 1;
    proof {
        assert(positions@.subrange(0, 1) =~= seq![positions@[0]]);
    }
    while i < positions.len()
        invariant
            1 <= i <= positions@.len(),
            best == max_of(positions@.subrange(0, i as int)),
            forall|j: int| 0 <= j < i ==> best >= positions@[j],
            exists|j: int| 0 <= j < i && best == positions@[j],
        decreases positions@.len() - i,
    {
        proof {
            let pre = positions@.subrange(0, i as int);
            let cur = positions@.subrange(0, i + 1);
            assert(cur.drop_last() =~= pre);
            assert(cur.last() == positions@[i as int]);
        }
        if positions[i] > best {
            best = positions[i];
        }
        i = i + 1;
    }
    proof {
        assert(positions@.subrange(0, positions@.len() as int) =~= positions@);
    }
    best
}

/// Fuel to bring every crab to `t` at one unit per step.
fn cost1_at(positions: &Vec<i64>, t: i64) -> (r: i64)
    requires
        cost1(positions@, t as int) <= i64::MAX,
    ensures
        r == cost1(positions@, t as int),
{
    let n = positions.len();
    let mut acc: i64 = 0;
    let mut j: usize = 0;
    proof {
        lemma_cost1_prefix(positions@, t as int, 0);
    }
    while j < n
        invariant
            0 <= j <= n,
            n == positions@.len(),
            cost1(positions@, t as int) <= i64::MAX,
            acc == cost1(positions@.subrange(0, j as int), t as int),
        decreases n - j,
    {
        proof {
            let pre = positions@.subrange(0, j as int);
            let cur = positions@.subrange(0, j + 1);
            assert(cur.drop_last() =~= pre);
            assert(cur.last() == positions@[j as int]);
            lemma_cost1_prefix(positions@, t as int, j as int);
            lemma_cost1_prefix(positions@, t as int, j + 1);
            assert(cost1(cur, t as int) == cost1(pre, t as int) + abs_i(
                t as int - positions@[j as int],
            ));
            assert(abs_i(t as int - positions@[j as int]) <= i64::MAX);
        }
        let p = positions[j];
        let d = if t >= p {
            t - p
        } else {
            p - t
        };
        acc = acc + d;
        j = j + 1;
    }
    proof {
        assert(positions@.subrange(0, n as int) =~= positions@);
    }
    acc
}

/// Fuel to bring every crab to `t` at the triangular rate.
fn cost2_at(positions: &Vec<i64>, t: i64) -> (r: i64)
    requires
        cost2(positions@, t as int) <= i64::MAX,
    ensures
        r == cost2(positions@, t as int),
{
    let n = positions.len();
    let mut acc: i64 = 0;
    let mut j: usize = 0;
    proof {
        lemma_cost2_prefix(positions@, t as int, 0);
    }
    while j < n
        invariant
            0 <= j <= n,
            n == positions@.len(),
            cost2(positions@, t as int) <= i64::MAX,
            acc == cost2(positions@.subrange(0, j as int), t as int),
        decreases n - j,
    {
        proof {
            let pre = positions@.subrange(0, j as int);
            let cur = positions@.subrange(0, j + 1);
            assert(cur.drop_last() =~= pre);
            assert(cur.last() == positions@[j as int]);
            lemma_cost2_prefix(positions@, t as int, j as int);
            lemma_cost2_prefix(positions@, t as int, j + 1);
            let dj = abs_i(t as int - positions@[j as int]);
            lemma_tri_nonneg(dj);
            assert(cost2(cur, t as int) == cost2(pre, t as int) + tri(dj));
            assert(tri(dj) <= i64::MAX);
            assert(dj <= i64::MAX);
        }
        let p = positions[j];
        let d = if t >= p {
            t - p
        } else {
            p - t
        };
        acc = acc + fuel(d);
        j = j + 1;
    }
    proof {
        assert(positions@.subrange(0, n as int) =~= positions@);
    }
    acc
}

/// The least linear-rate fuel over the candidate targets, which run from the
/// smallest position up to but not including the largest.
pub fn part1(positions: &Vec<i64>) -> (r: i64)
    requires
        positions@.len() > 0,
        min_of(positions@) < max_of(positions@),
        forall|t: int|
            min_of(positions@) <= t < max_of(positions@) ==> #[trigger] cost1(positions@, t)
                <= i64::MAX,
    ensures
        exists|t: int|
            #![trigger cost1(positions@, t)]
            min_of(positions@) <= t < max_of(positions@) && cost1(positions@, t) == r,
        forall|t: int|
            min_of(positions@) <= t < max_of(positions@) ==> #[trigger] cost1(positions@, t) >= r,
{
    let lo = min_pos(positions);
    let hi = max_pos(positions);
    let mut best = cost1_at(positions, lo);
    let mut t = lo + 1;
    while t < hi
        invariant
            lo == min_of(positions@),
            hi == max_of(positions@),
            lo < hi,
            lo + 1 <= t <= hi,
            forall|u: int| lo <= u < hi ==> #[trigger] cost1(positions@, u) <= i64::MAX,
            exists|u: int|
                #![trigger cost1(positions@, u)]
                lo <= u < t && cost1(positions@, u) == best,
            forall|u: int| lo <= u < t ==> #[trigger] cost1(positions@, u) >= best,
        decreases hi - t,
    {
        let c = cost1_at(positions, t);
        if c < best {
            best = c;
        }
        t = t + 1;
    }
    best
}

/// The least triangular-rate fuel over the same candidate targets.
pub fn part2(positions: &Vec<i64>) -> (r: i64)
    requires
        positions@.len() > 0,
        min_of(positions@) < max_of(positions@),
        forall|t: int|
            min_of(positions@) <= t < max_of(positions@) ==> #[trigger] cost2(positions@, t)
                <= i64::MAX,
    ensures
        exists|t: int|
            #![trigger cost2(positions@, t)]
            min_of(positions@) <= t < max_of(positions@) && cost2(positions@, t) == r,
        forall|t: int|
            min_of(positions@) <= t < max_of(positions@) ==> #[trigger] cost2(positions@, t) >= r,
{
    let lo = min_pos(positions);
    let hi = max_pos(positions);
    let mut best = cost2_at(positions, lo);
    let mut t = lo + 1;
    while t < hi
        invariant
            lo == min_of(positions@),
            hi == max_of(positions@),
            lo < hi,
            lo + 1 <= t <= hi,
            forall|u: int| lo <= u < hi ==> #[trigger] cost2(positions@, u) <= i64::MAX,
            exists|u: int|
                #![trigger cost2(positions@, u)]
                lo <= u < t && cost2(positions@, u) == best,
            forall|u: int| lo <= u < t ==> #[trigger] cost2(positions@, u) >= best,
        decreases hi - t,
    {
        let c = cost2_at(positions, t);
        if c < best {
            best = c;
        }
        t = t + 1;
    }
    best
}

} // verus!
