//! Binary diagnostic: the gamma and epsilon rates from the most and least
//! common bit of each column, and the oxygen and scrubber ratings from
//! repeated column-wise filtering.

use crate::text::bin_of;
use crate::text::split_char;
use crate::text::split_str;
use vstd::arithmetic::power2::lemma2_to64;
use vstd::arithmetic::power2::lemma_pow2_unfold;
use vstd::arithmetic::power2::pow2;
use vstd::prelude::*;
use vstd::string::StrSliceExecFns;

verus! {

/// Splits the report into lines.
pub fn input_generator(input: &str) -> (r: Vec<String>)
    ensures
        r.deep_view() == split_char(input@, '\n'),
{
    split_str(input, '\n')
}

/// Ones minus zeroes in column `pos`: positive when ones dominate.
pub open spec fn column_sum(entries: Seq<Seq<char>>, pos: int) -> int
    decreases entries.len(),
{
    if entries.len() == 0 {
        0
    } else {
        column_sum(entries.drop_last(), pos) + if entries.last()[pos] == '1' {
            1int
        } else {
            -1int
        }
    }
}

proof fn lemma_column_sum_bound(entries: Seq<Seq<char>>, pos: int)
    ensures
        -entries.len() <= column_sum(entries, pos) <= entries.len(),
    decreases entries.len(),
{
    if entries.len() > 0 {
        lemma_column_sum_bound(entries.drop_last(), pos);
    }
}

/// The gamma rate over the first `k` columns: a one where ones dominate.
pub open spec fn gamma_val(entries: Seq<Seq<char>>, k: int) -> nat
    decreases k,
{
    if k <= 0 {
        0
    } else {
        gamma_val(entries, k - 1) * 2 + if column_sum(entries, k - 1) > 0 {
            1nat
        } else {
            0nat
        }
    }
}

/// The epsilon rate over the first `k` columns: the complement of gamma.
pub open spec fn epsilon_val(entries: Seq<Seq<char>>, k: int) -> nat
    decreases k,
{
    if k <= 0 {
        0
    } else {
        epsilon_val(entries, k - 1) * 2 + if column_sum(entries, k - 1) > 0 {
            0nat
        } else {
            1nat
        }
    }
}

/// True when every entry is a bit string of width `w`.
pub open spec fn report_ok(entries: Seq<Seq<char>>, w: int) -> bool {
    forall|i: int|
        0 <= i < entries.len() ==> (#[trigger] entries[i]).len() == w && forall|j: int|
            0 <= j < w ==> entries[i][j] == '0' || entries[i][j] == '1'
}

/// Gamma times epsilon: the power consumption.
pub fn part1(input: &Vec<String>) -> (r: u32)
    requires
        input@.len() > 0,
        input@.len() <= i64::MAX,
        report_ok(input.deep_view(), input.deep_view()[0].len() as int),
        input.deep_view()[0].len() <= 32,
        gamma_val(input.deep_view(), input.deep_view()[0].len() as int) * epsilon_val(
            input.deep_view(),
            input.deep_view()[0].len() as int,
        ) <= u32::MAX,
    ensures
        r == gamma_val(input.deep_view(), input.deep_view()[0].len() as int) * epsilon_val(
            input.deep_view(),
            input.deep_view()[0].len() as int,
        ),
{
    let ghost dv = input.deep_view();
    let n = input.len();
    proof {
        assert(dv.len() == n);
        assert(dv[0] == input@[0]@);
    }
    let width = input[0].as_str().unicode_len();
    let mut gamma: u32 = 0;
    let mut epsilon: u32 = 0;
    let mut pos: usize = 0;
    proof {
        lemma2_to64();
    }
    while pos < width
        invariant
            0 <= pos <= width,
            n == input@.len(),
            n <= i64::MAX,
            dv == input.deep_view(),
            dv.len() == n > 0,
            width == dv[0].len() <= 32,
            report_ok(dv, width as int),
            gamma == gamma_val(dv, pos as int),
            epsilon == epsilon_val(dv, pos as int),
            gamma < pow2(pos as nat),
            epsilon < pow2(pos as nat),
            pow2(32) == 0x100000000,
        decreases width - pos,
    {
        let mut cs: i64 = 0;
        let mut j: usize = 0;
        proof {
            assert(dv.subrange(0, 0) =~= Seq::<Seq<char>>::empty());
        }
        while j < n
            invariant
                0 <= j <= n,
                n == input@.len(),
                n <= i64::MAX,
                dv == input.deep_view(),
                dv.len() == n,
                0 <= pos < width,
                width == dv[0].len(),
                report_ok(dv, width as int),
                cs == column_sum(dv.subrange(0, j as int), pos as int),
                -(j as int) <= cs <= j as int,
            decreases n - j,
        {
            proof {
                let pre = dv.subrange(0, j as int);
                let cur = dv.subrange(0, j + 1);
                assert(cur.drop_last() =~= pre);
                assert(cur.last() == dv[j as int]);
                assert(dv[j as int] == input@[j as int]@);
                lemma_column_sum_bound(pre, pos as int);
            }
            let c = input[j].as_str().get_char(pos);
            if c == '1' {
                cs = cs + 1;
            } else {
                cs = cs - 1;
            }
            j = j + 1;
        }
        proof {
            assert(dv.subrange(0, n as int) =~= dv);
            lemma_pow2_unfold((pos + 1) as nat);
            if pos + 1 < 32 {
                vstd::arithmetic::power2::lemma_pow2_strictly_increases((pos + 1) as nat, 32nat);
            }
        }
        if cs > 0 {
            gamma = gamma * 2 + 1;
            epsilon = epsilon * 2;
        } else {
            gamma = gamma * 2;
            epsilon = epsilon * 2 + 1;
        }
        pos = pos + 1;
    }
    gamma * epsilon
}

/// The character the sieve keeps at a column: with `most_common` the
/// dominant bit (ones on a tie), otherwise the rare one (zeroes on a tie).
pub open spec fn keep_char(cs: int, most_common: bool) -> char {
    if most_common == (cs >= 0) {
        '1'
    } else {
        '0'
    }
}

/// The entries that survive filtering column `pos` against `want`.
pub open spec fn sieve(entries: Seq<Seq<char>>, pos: int, want: char) -> Seq<Seq<char>>
    decreases entries.len(),
{
    if entries.len() == 0 {
        Seq::empty()
    } else {
        let rest = sieve(entries.drop_last(), pos, want);
        if entries.last()[pos] == want {
            rest.push(entries.last())
        } else {
            rest
        }
    }
}

/// True when repeated filtering narrows the report down to exactly one
/// entry before the columns run out.
pub open spec fn rating_ok(entries: Seq<Seq<char>>, most_common: bool, pos: int, w: int) -> bool
    decreases w - pos,
{
    if entries.len() == 1 {
        true
    } else if pos >= w || entries.len() == 0 {
        false
    } else {
        rating_ok(
            sieve(entries, pos, keep_char(column_sum(entries, pos), most_common)),
            most_common,
            pos + 1,
            w,
        )
    }
}

/// The rating the sieve converges to, read as a binary number.
pub open spec fn rating(entries: Seq<Seq<char>>, most_common: bool, pos: int, w: int) -> nat
    decreases w - pos,
{
    if entries.len() == 1 {
        bin_of(entries[0], '1')
    } else if pos >= w || entries.len() == 0 {
        0
    } else {
        rating(
            sieve(entries, pos, keep_char(column_sum(entries, pos), most_common)),
            most_common,
            pos + 1,
            w,
        )
    }
}

proof fn lemma_sieve_entries(entries: Seq<Seq<char>>, pos: int, want: char, w: int)
    requires
        report_ok(entries, w),
    ensures
        report_ok(sieve(entries, pos, want), w),
        sieve(entries, pos, want).len() <= entries.len(),
        forall|i: int|
            0 <= i < sieve(entries, pos, want).len() ==> (#[trigger] sieve(entries, pos, want)[i])[
                pos
            ] == want,
    decreases entries.len(),
{
    if entries.len() > 0 {
        assert(report_ok(entries.drop_last(), w));
        lemma_sieve_entries(entries.drop_last(), pos, want, w);
    }
}

/// Repeatedly keeps the entries whose bit at the current column is the most
/// common one (or the least common one), until one entry remains; that
/// entry read as binary is the rating.
pub fn calculate_rating(entries: &mut Vec<String>, most_common: bool) -> (r: u32)
    requires
        report_ok(old(entries).deep_view(), old(entries).deep_view()[0].len() as int),
        old(entries)@.len() >= 1,
        old(entries)@.len() <= i64::MAX,
        old(entries).deep_view()[0].len() <= 32,
        rating_ok(
            old(entries).deep_view(),
            most_common,
            0,
            old(entries).deep_view()[0].len() as int,
        ),
    ensures
        r == rating(
            old(entries).deep_view(),
            most_common,
            0,
            old(entries).deep_view()[0].len() as int,
        ),
{
    let ghost dv0 = entries.deep_view();
    let ghost w = dv0[0].len() as int;
    proof {
        assert(dv0[0] == entries@[0]@);
    }
    let width = entries[0].as_str().unicode_len();
    let mut pos: usize = 0;
    while entries.len() > 1
        invariant
            0 <= pos <= w,
            width == w,
            entries@.len() >= 1,
            entries@.len() <= i64::MAX,
            report_ok(entries.deep_view(), w),
            entries.deep_view().len() == entries@.len(),
            rating_ok(entries.deep_view(), most_common, pos as int, w),
            rating(entries.deep_view(), most_common, pos as int, w) == rating(
                dv0,
                most_common,
                0,
                w,
            ),
        decreases w - pos,
    {
        let ghost dv = entries.deep_view();
        let n = entries.len();
        proof {
            assert(pos < w) by {
                assert(rating_ok(dv, most_common, pos as int, w));
            }
        }
        let mut cs: i64 = 0;
        let mut j: usize = 0;
        proof {
            assert(dv.subrange(0, 0) =~= Seq::<Seq<char>>::empty());
        }
        while j < n
            invariant
                0 <= j <= n,
                n == entries@.len(),
                n <= i64::MAX,
                dv == entries.deep_view(),
                dv.len() == n,
                0 <= pos < w,
                report_ok(dv, w),
                cs == column_sum(dv.subrange(0, j as int), pos as int),
                -(j as int) <= cs <= j as int,
            decreases n - j,
        {
            proof {
                let pre = dv.subrange(0, j as int);
                let cur = dv.subrange(0, j + 1);
                assert(cur.drop_last() =~= pre);
                assert(cur.last() == dv[j as int]);
                assert(dv[j as int] == entries@[j as int]@);
                lemma_column_sum_bound(pre, pos as int);
            }
            let c = entries[j].as_str().get_char(pos);
            if c == '1' {
                cs = cs + 1;
            } else {
                cs = cs - 1;
            }
            j = j + 1;
        }
        proof {
            assert(dv.subrange(0, n as int) =~= dv);
        }
        let want: char = if most_common == (cs >= 0) {
            '1'
        } else {
            '0'
        };
        let ghost wantg = keep_char(column_sum(dv, pos as int), most_common);
        proof {
            assert(want == wantg);
        }
        let mut kept: Vec<String> = Vec::new();
        let mut k: usize = 0;
        proof {
            assert(dv.subrange(0, 0) =~= Seq::<Seq<char>>::empty());
            assert(kept.deep_view() =~= sieve(dv.subrange(0, 0), pos as int, wantg));
        }
        while k < n
            invariant
                0 <= k <= n,
                n == entries@.len(),
                dv == entries.deep_view(),
                dv.len() == n,
                0 <= pos < w,
                report_ok(dv, w),
                want == wantg,
                kept.deep_view() =~= sieve(dv.subrange(0, k as int), pos as int, wantg),
            decreases n - k,
        {
            proof {
                let pre = dv.subrange(0, k as int);
                let cur = dv.subrange(0, k + 1);
                assert(cur.drop_last() =~= pre);
                assert(cur.last() == dv[k as int]);
                assert(dv[k as int] == entries@[k as int]@);
            }
            let c = entries[k].as_str().get_char(pos);
            if c == want {
                let e = entries[k].clone();
                proof {
                    assert(e@ == entries@[k as int]@);
                }
                kept.push(e);
            }
            k = k + 1;
        }
        proof {
            assert(dv.subrange(0, n as int) =~= dv);
            lemma_sieve_entries(dv, pos as int, wantg, w);
        }
        *entries = kept;
        proof {
            assert(rating_ok(entries.deep_view(), most_common, pos + 1, w));
            if entries.deep_view().len() == 0 {
                assert(!rating_ok(entries.deep_view(), most_common, pos + 1, w));
            }
        }
        pos = pos + 1;
    }
    proof {
        assert(entries.deep_view().len() == 1);
        assert(rating(entries.deep_view(), most_common, pos as int, w) == bin_of(
            entries.deep_view()[0],
            '1',
        ));
    }
    let last = &entries[0];
    let m = last.as_str().unicode_len();
    let mut value: u32 = 0;
    let mut t: usize = 0;
    proof {
        lemma2_to64();
        assert(entries.deep_view()[0] == entries@[0]@);
        assert(last@.subrange(0, 0) =~= Seq::<char>::empty());
        lemma_bin_prefix_bound(last@, 0);
    }
    while t < m
        invariant
            0 <= t <= m,
            last@ == entries@[0]@,
            m == last@.len() <= 32,
            forall|j: int| 0 <= j < m ==> last@[j] == '0' || last@[j] == '1',
            value == bin_of(last@.subrange(0, t as int), '1'),
            value < pow2(t as nat),
            pow2(32) == 0x100000000,
        decreases m - t,
    {
        proof {
            let pre = last@.subrange(0, t as int);
            let cur = last@.subrange(0, t + 1);
            assert(cur.drop_last() =~= pre);
            assert(cur.last() == last@[t as int]);
            lemma_pow2_unfold((t + 1) as nat);
            if t + 1 < 32 {
                vstd::arithmetic::power2::lemma_pow2_strictly_increases((t + 1) as nat, 32nat);
            }
        }
        let c = last.as_str().get_char(t);
        if c == '1' {
            value = value * 2 + 1;
        } else {
            value = value * 2;
        }
        t = t + 1;
    }
    proof {
        assert(last@.subrange(0, m as int) =~= last@);
    }
    value
}

proof fn lemma_bin_prefix_bound(s: Seq<char>, k: int)
    requires
        0 <= k <= s.len(),
    ensures
        bin_of(s.subrange(0, k), '1') < pow2(k as nat),
    decreases k,
{
    if k == 0 {
        lemma2_to64();
    } else {
        assert(s.subrange(0, k).drop_last() =~= s.subrange(0, k - 1));
        lemma_bin_prefix_bound(s, k - 1);
        lemma_pow2_unfold(k as nat);
    }
}

/// Oxygen rating times scrubber rating: the life-support rating.
pub fn part2(input: &Vec<String>) -> (r: u64)
    requires
        input@.len() >= 1,
        input@.len() <= i64::MAX,
        report_ok(input.deep_view(), input.deep_view()[0].len() as int),
        input.deep_view()[0].len() <= 32,
        rating_ok(input.deep_view(), true, 0, input.deep_view()[0].len() as int),
        rating_ok(input.deep_view(), false, 0, input.deep_view()[0].len() as int),
    ensures
        r == rating(input.deep_view(), true, 0, input.deep_view()[0].len() as int) * rating(
            input.deep_view(),
            false,
            0,
            input.deep_view()[0].len() as int,
        ),
{
    let ghost dv = input.deep_view();
    let mut a = clone_entries(input);
    let mut b = clone_entries(input);
    let o2 = calculate_rating(&mut a, true);
    let co2 = calculate_rating(&mut b, false);
    proof {
        let w = dv[0].len() as int;
        lemma_bin_rating_bound(dv, true, 0, w);
        lemma_bin_rating_bound(dv, false, 0, w);
        assert((o2 as int) * (co2 as int) <= 0xffffffff * 0xffffffff) by (nonlinear_arith)
            requires
                o2 <= 0xffffffffu32 && co2 <= 0xffffffffu32,
        ;
    }
    (o2 as u64) * (co2 as u64)
}

/// Every rating fits in 32 bits, so their product fits in 64.
proof fn lemma_bin_rating_bound(entries: Seq<Seq<char>>, most_common: bool, pos: int, w: int)
    requires
        report_ok(entries, w),
        w <= 32,
    ensures
        rating(entries, most_common, pos, w) <= u32::MAX,
    decreases w - pos,
{
    if entries.len() == 1 {
        assert(rating(entries, most_common, pos, w) == bin_of(entries[0], '1'));
        lemma_bin_whole_bound(entries[0]);
    } else if pos >= w || entries.len() == 0 {
    } else {
        let want = keep_char(column_sum(entries, pos), most_common);
        lemma_sieve_entries(entries, pos, want, w);
        lemma_bin_rating_bound(sieve(entries, pos, want), most_common, pos + 1, w);
    }
}

proof fn lemma_bin_whole_bound(s: Seq<char>)
    ensures
        s.len() <= 32 ==> bin_of(s, '1') <= u32::MAX,
{
    if s.len() <= 32 {
        assert(s.subrange(0, s.len() as int) =~= s);
        lemma_bin_prefix_bound(s, s.len() as int);
        lemma2_to64();
        if s.len() < 32 {
            vstd::arithmetic::power2::lemma_pow2_strictly_increases(s.len(), 32nat);
        }
    }
}

/// A fresh copy of the report lines.
fn clone_entries(input: &Vec<String>) -> (r: Vec<String>)
    ensures
        r.deep_view() =~= input.deep_view(),
        r@.len() == input@.len(),
{
    let mut out: Vec<String> = Vec::new();
    let mut i: usize = 0;
    while i < input.len()
        invariant
            0 <= i <= input@.len(),
            out@.len() == i,
            forall|j: int| 0 <= j < i ==> out@[j]@ == input@[j]@,
        decreases input@.len() - i,
    {
        out.push(input[i].clone());
        i = i + 1;
    }
    proof {
        assert(forall|j: int|
            0 <= j < input@.len() ==> out.deep_view()[j] == out@[j]@ && input.deep_view()[j]
                == input@[j]@);
    }
    out
}

} // verus!
