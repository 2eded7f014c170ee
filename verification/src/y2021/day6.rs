//! Lanternfish: a population kept as nine counters, one per days-to-spawn
//! value, stepped one day at a time.

use crate::text::dec_val;
use crate::text::is_dec;
use crate::text::parse_u64;
use crate::text::split_char;
use crate::text::split_str;
use vstd::prelude::*;

verus! {

/// The counters as unbounded integers.
pub open spec fn counts_int(v: Seq<u64>) -> Seq<int> {
    v.map_values(|x: u64| x as int)
}

/// One day of simulation: every counter moves down one slot, the fish at
/// zero respawn at six and produce as many new fish at eight.
pub open spec fn sim_step(s: Seq<int>) -> Seq<int> {
    Seq::new(9, |i: int|
        if i == 6 {
            s[7] + s[0]
        } else if i == 8 {
            s[0]
        } else {
            s[i + 1]
        })
}

/// `n` days of simulation.
pub open spec fn sim_iter(s: Seq<int>, n: nat) -> Seq<int>
    decreases n,
{
    if n == 0 {
        s
    } else {
        sim_step(sim_iter(s, (n - 1) as nat))
    }
}

/// Every counter stays inside the machine's range for `n` days.
pub open spec fn sim_ok(s: Seq<int>, n: nat) -> bool {
    forall|k: nat, i: int|
        k <= n && 0 <= i < 9 ==> 0 <= #[trigger] sim_iter(s, k)[i] <= u64::MAX
}

/// The total population.
pub open spec fn seq_sum(s: Seq<int>) -> int
    decreases s.len(),
{
    if s.len() == 0 {
        0
    } else {
        seq_sum(s.drop_last()) + s.last()
    }
}

/// One day of simulation, in place.
pub fn simulate(fish_counts: &mut Vec<u64>)
    requires
        old(fish_counts)@.len() == 9,
        old(fish_counts)@[7] + old(fish_counts)@[0] <= u64::MAX,
    ensures
        final(fish_counts)@.len() == 9,
        counts_int(final(fish_counts)@) == sim_step(counts_int(old(fish_counts)@)),
{
    let reproducing = fish_counts[0];
    let mut i: usize = 0;
    while i < 8
        invariant
            0 <= i <= 8,
            fish_counts@.len() == 9,
            reproducing == old(fish_counts)@[0],
            old(fish_counts)@[7] + old(fish_counts)@[0] <= u64::MAX,
            forall|j: int| 0 <= j < i ==> fish_counts@[j] == old(fish_counts)@[j + 1],
            forall|j: int| i <= j < 9 ==> fish_counts@[j] == old(fish_counts)@[j],
        decreases 8 - i,
    {
        let v = fish_counts[i + 1];
        fish_counts[i] = v;
        i = i + 1;
    }
    let base = fish_counts[6];
    fish_counts[6] = base + reproducing;
    fish_counts[8] = reproducing;
    proof {
        assert(counts_int(fish_counts@) =~= sim_step(counts_int(old(fish_counts)@)));
    }
}

/// The population after `days` days, starting from `start`.
fn run_days(start: &Vec<u64>, days: u64) -> (r: u64)
    requires
        start@.len() == 9,
        sim_ok(counts_int(start@), days as nat),
        seq_sum(sim_iter(counts_int(start@), days as nat)) <= u64::MAX,
    ensures
        r == seq_sum(sim_iter(counts_int(start@), days as nat)),
{
    let ghost s0 = counts_int(start@);
    let mut fish: Vec<u64> = Vec::new();
    let mut i: usize = 0;
    while i < 9
        invariant
            0 <= i <= 9,
            start@.len() == 9,
            fish@.len() == i,
            forall|j: int| 0 <= j < i ==> fish@[j] == start@[j],
        decreases 9 - i,
    {
        fish.push(start[i]);
        i = i + 1;
    }
    proof {
        assert(counts_int(fish@) =~= sim_iter(s0, 0));
    }
    let mut day: u64 = 0;
    while day < days
        invariant
            0 <= day <= days,
            fish@.len() == 9,
            sim_ok(s0, days as nat),
            seq_sum(sim_iter(s0, days as nat)) <= u64::MAX,
            counts_int(fish@) == sim_iter(s0, day as nat),
        decreases days - day,
    {
        proof {
            assert(sim_iter(s0, (day + 1) as nat) == sim_step(counts_int(fish@)));
            assert(0 <= sim_iter(s0, (day + 1) as nat)[6] <= u64::MAX);
            assert(sim_step(counts_int(fish@))[6] == fish@[7] + fish@[0]);
        }
        simulate(&mut fish);
        day = day + 1;
    }
    let ghost fin = sim_iter(s0, days as nat);
    let mut total: u64 = 0;
    let mut k: usize = 0;
    proof {
        assert(counts_int(fish@).subrange(0, 9) =~= counts_int(fish@));
        assert(seq_sum(counts_int(fish@).subrange(0, 0)) == 0);
    }
    let ghost cs = counts_int(fish@);
    proof {
        assert(forall|i2: int| 0 <= i2 < 9 ==> fin[i2] == sim_iter(s0, days as nat)[i2] && 0 <= fin[i2]);
        lemma_seq_sum_prefix(cs, 0);
    }
    while k < 9
        invariant
            0 <= k <= 9,
            fish@.len() == 9,
            cs == counts_int(fish@),
            cs == fin,
            seq_sum(fin) <= u64::MAX,
            total == seq_sum(cs.subrange(0, k as int)),
            total <= seq_sum(fin),
        decreases 9 - k,
    {
        proof {
            assert(cs.subrange(0, k + 1).drop_last() =~= cs.subrange(0, k as int));
            assert(cs.subrange(0, k + 1).last() == cs[k as int]);
            lemma_seq_sum_prefix(cs, k + 1);
        }
        total = total + fish[k];
        k = k + 1;
    }
    proof {
        assert(cs.subrange(0, 9) =~= cs);
    }
    total
}

/// A sum over a prefix of non-negative entries never exceeds the whole sum.
proof fn lemma_seq_sum_prefix(s: Seq<int>, k: int)
    requires
        0 <= k <= s.len(),
        forall|i: int| 0 <= i < s.len() ==> s[i] >= 0,
    ensures
        seq_sum(s.subrange(0, k)) <= seq_sum(s),
    decreases s.len() - k,
{
    if k < s.len() {
        assert(s.subrange(0, k + 1).drop_last() =~= s.subrange(0, k));
        assert(s.subrange(0, k + 1).last() == s[k]);
        lemma_seq_sum_prefix(s, k + 1);
    } else {
        assert(s.subrange(0, k) =~= s);
    }
}

/// How many pieces of `pieces` are the decimal number `v`.
pub open spec fn count_val(pieces: Seq<Seq<char>>, v: int) -> int
    decreases pieces.len(),
{
    if pieces.len() == 0 {
        0
    } else {
        count_val(pieces.drop_last(), v) + if dec_val(pieces.last()) == v {
            1int
        } else {
            0int
        }
    }
}

proof fn lemma_count_val_le(pieces: Seq<Seq<char>>, v: int)
    ensures
        0 <= count_val(pieces, v) <= pieces.len(),
    decreases pieces.len(),
{
    if pieces.len() > 0 {
        lemma_count_val_le(pieces.drop_last(), v);
    }
}

/// Reads the starting population, one days-to-spawn value per fish,
/// comma-separated, and counts the fish per value.
pub fn input_generator(input: &str) -> (r: Vec<u64>)
    requires
        forall|i: int|
            0 <= i < split_char(input@, ',').len() ==> is_dec(#[trigger] split_char(input@, ',')[i])
                && dec_val(split_char(input@, ',')[i]) <= 8,
        split_char(input@, ',').len() <= u64::MAX,
    ensures
        r@.len() == 9,
        forall|v: int| 0 <= v < 9 ==> r@[v] == count_val(split_char(input@, ','), v),
{
    let ghost all = split_char(input@, ',');
    let pieces = split_str(input, ',');
    let mut counts: Vec<u64> = Vec::new();
    let mut z: usize = 0;
    while z < 9
        invariant
            counts@.len() == z <= 9,
            forall|j: int| 0 <= j < z ==> counts@[j] == 0,
        decreases 9 - z,
    {
        counts.push(0);
        z = z + 1;
    }
    let n = pieces.len();
    let mut i: usize = 0;
    proof {
        assert(all.subrange(0, 0) =~= Seq::<Seq<char>>::empty());
    }
    while i < n
        invariant
            0 <= i <= n,
            n == pieces@.len(),
            pieces.deep_view() =~= all,
            all == split_char(input@, ','),
            n == all.len(),
            forall|j: int| 0 <= j < all.len() ==> is_dec(#[trigger] all[j]) && dec_val(all[j]) <= 8,
            all.len() <= u64::MAX,
            counts@.len() == 9,
            forall|v: int| 0 <= v < 9 ==> counts@[v] == count_val(all.subrange(0, i as int), v),
        decreases n - i,
    {
        proof {
            assert(pieces.deep_view()[i as int] == pieces@[i as int]@);
        }
        let f = match parse_u64(pieces[i].as_str()) {
            Ok(v) => v,
            Err(_) => {
                proof {
                    assert(false);
                }
                0
            },
        };
        proof {
            let pre = all.subrange(0, i as int);
            let cur = all.subrange(0, i + 1);
            assert(cur.drop_last() =~= pre);
            assert(cur.last() == all[i as int]);
            assert(forall|v: int|
                0 <= v < 9 ==> count_val(cur, v) == count_val(pre, v) + (if dec_val(all[i as int])
                    == v {
                    1int
                } else {
                    0int
                }));
            lemma_count_val_le(pre, f as int);
        }
        let c = counts[f as usize];
        counts[f as usize] = c + 1;
        i = i + 1;
    }
    proof {
        assert(all.subrange(0, n as int) =~= all);
    }
    counts
}

/// The population after 80 days.
pub fn part1(fish_counts: &Vec<u64>) -> (r: u64)
    requires
        fish_counts@.len() == 9,
        sim_ok(counts_int(fish_counts@), 80),
        seq_sum(sim_iter(counts_int(fish_counts@), 80)) <= u64::MAX,
    ensures
        r == seq_sum(sim_iter(counts_int(fish_counts@), 80)),
{
    run_days(fish_counts, 80)
}

/// The population after 256 days.
pub fn part2(fish_counts: &Vec<u64>) -> (r: u64)
    requires
        fish_counts@.len() == 9,
        sim_ok(counts_int(fish_counts@), 256),
        seq_sum(sim_iter(counts_int(fish_counts@), 256)) <= u64::MAX,
    ensures
        r == seq_sum(sim_iter(counts_int(fish_counts@), 256)),
{
    run_days(fish_counts, 256)
}

} // verus!
