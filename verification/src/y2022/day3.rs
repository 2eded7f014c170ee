//! Rucksack reorganization: finding the item common to both compartments of
//! a rucksack, or to every rucksack of a group, and summing the priorities.

use crate::text::lines_str;
use crate::text::str_lines;
use vstd::prelude::*;
use vstd::string::StrSliceExecFns;

verus! {

/// True when `c` is an item: an ASCII letter.
pub open spec fn is_item(c: char) -> bool {
    ('a' <= c && c <= 'z') || ('A' <= c && c <= 'Z')
}

/// An item's priority: 1 to 26 for `a` to `z`, 27 to 52 for `A` to `Z`.
pub open spec fn item_priority(c: char) -> int {
    if 'a' <= c && c <= 'z' {
        c as int - 96
    } else {
        c as int - 38
    }
}

/// How many items of `s` have priority `p`.
pub open spec fn count_items(s: Seq<char>, p: int) -> int
    decreases s.len(),
{
    if s.len() == 0 {
        0
    } else {
        count_items(s.drop_last(), p) + if item_priority(s.last()) == p {
            1int
        } else {
            0int
        }
    }
}

proof fn lemma_count_items_le(s: Seq<char>, p: int)
    ensures
        0 <= count_items(s, p) <= s.len(),
    decreases s.len(),
{
    if s.len() > 0 {
        lemma_count_items_le(s.drop_last(), p);
    }
}

/// The compartments or rucksacks of one group all hold an item of priority
/// `i + 1`.
pub open spec fn group_has(group: Seq<Seq<char>>, i: int) -> bool {
    forall|j: int| 0 <= j < group.len() ==> count_items(#[trigger] group[j], i + 1) > 0
}

/// The smallest `i` from `from` up with an item of priority `i + 1` in every
/// member of the group, or -1 when there is none.
pub open spec fn first_common(group: Seq<Seq<char>>, from: int) -> int
    decreases 52 - from,
{
    if from < 0 || from >= 52 {
        -1
    } else if group_has(group, from) {
        from
    } else {
        first_common(group, from + 1)
    }
}

/// The two compartments of a rucksack line: its first and second half.
pub open spec fn compartments(l: Seq<char>) -> Seq<Seq<char>> {
    seq![l.subrange(0, l.len() as int / 2), l.subrange(l.len() as int / 2, l.len() as int)]
}

/// One line's contribution to the compartment-badge sum.
pub open spec fn line_score(l: Seq<char>) -> int {
    let b = first_common(compartments(l), 0);
    if b >= 0 {
        b + 1
    } else {
        0
    }
}

/// The summed priorities of the items each rucksack's compartments share.
pub open spec fn split_total(lines: Seq<Seq<char>>) -> int
    decreases lines.len(),
{
    if lines.len() == 0 {
        0
    } else {
        split_total(lines.drop_last()) + line_score(lines.last())
    }
}

proof fn lemma_first_common_bounds(group: Seq<Seq<char>>, from: int)
    ensures
        first_common(group, from) == -1 || from <= first_common(group, from) < 52,
        first_common(group, from) >= 0 ==> group_has(group, first_common(group, from)),
        first_common(group, from) >= 0 ==> forall|i: int|
            from <= i < first_common(group, from) ==> !group_has(group, i),
        first_common(group, from) == -1 && 0 <= from < 52 ==> forall|i: int|
            from <= i < 52 ==> !group_has(group, i),
    decreases 52 - from,
{
    if 0 <= from < 52 && !group_has(group, from) {
        lemma_first_common_bounds(group, from + 1);
    }
}

proof fn lemma_split_total_nonneg(lines: Seq<Seq<char>>)
    ensures
        split_total(lines) >= 0,
    decreases lines.len(),
{
    if lines.len() > 0 {
        lemma_split_total_nonneg(lines.drop_last());
        lemma_first_common_bounds(compartments(lines.last()), 0);
    }
}

proof fn lemma_split_total_prefix(lines: Seq<Seq<char>>, k: int)
    requires
        0 <= k <= lines.len(),
    ensures
        0 <= split_total(lines.subrange(0, k)) <= split_total(lines),
    decreases lines.len() - k,
{
    lemma_split_total_nonneg(lines.subrange(0, k));
    if k < lines.len() {
        assert(lines.subrange(0, k + 1).drop_last() =~= lines.subrange(0, k));
        lemma_first_common_bounds(compartments(lines[k]), 0);
        lemma_split_total_prefix(lines, k + 1);
    } else {
        assert(lines.subrange(0, k) =~= lines);
    }
}

/// Keeps the input as it is; the parts read it line by line.
pub fn input_generator(input: &str) -> (r: String)
    ensures
        r@ == input@,
{
    input.to_owned()
}

/// The item's priority.
pub fn item_to_priority(item: char) -> (r: usize)
    requires
        is_item(item),
    ensures
        r == item_priority(item),
        1 <= r <= 52,
{
    if 'a' <= item && item <= 'z' {
        (item as u32 - 96) as usize
    } else {
        (item as u32 - 38) as usize
    }
}

/// Counts the items of a rucksack (or compartment) by priority: slot `p - 1`
/// holds the number of items with priority `p`.
pub fn parse_items(input: &str) -> (r: Vec<u64>)
    requires
        forall|i: int| 0 <= i < input@.len() ==> is_item(#[trigger] input@[i]),
    ensures
        r@.len() == 52,
        forall|p: int| 0 <= p < 52 ==> r@[p] == count_items(input@, p + 1),
{
    let mut items: Vec<u64> = Vec::new();
    let mut z: usize = 0;
    while z < 52
        invariant
            items@.len() == z <= 52,
            forall|j: int| 0 <= j < z ==> items@[j] == 0,
        decreases 52 - z,
    {
        items.push(0);
        z = z + 1;
    }
    let n = input.unicode_len();
    let mut i: usize = 0;
    proof {
        assert(input@.subrange(0, 0) =~= Seq::<char>::empty());
    }
    while i < n
        invariant
            0 <= i <= n,
            n == input@.len(),
            forall|j: int| 0 <= j < n ==> is_item(#[trigger] input@[j]),
            items@.len() == 52,
            forall|p: int| 0 <= p < 52 ==> items@[p] == count_items(input@.subrange(0, i as int), p + 1),
        decreases n - i,
    {
        let c = input.get_char(i);
        let priority = item_to_priority(c);
        proof {
            let pre = input@.subrange(0, i as int);
            let cur = input@.subrange(0, i + 1);
            assert(cur.drop_last() =~= pre);
            assert(cur.last() == input@[i as int]);
            assert(forall|p: int|
                0 <= p < 52 ==> #[trigger] count_items(cur, p + 1) == count_items(pre, p + 1) + (
                if item_priority(input@[i as int]) == p + 1 {
                    1int
                } else {
                    0int
                }));
            lemma_count_items_le(pre, priority as int);
        }
        let cnt = items[priority - 1];
        items[priority - 1] = cnt + 1;
        i = i + 1;
    }
    proof {
        assert(input@.subrange(0, n as int) =~= input@);
    }
    items
}

/// One line as inventories: split in half into its two compartments, or
/// taken whole.
pub fn parse_inventories(encoded: &str, split: bool) -> (r: Vec<Vec<u64>>)
    requires
        forall|i: int| 0 <= i < encoded@.len() ==> is_item(#[trigger] encoded@[i]),
    ensures
        r@.len() == if split {
            2int
        } else {
            1int
        },
        forall|j: int| 0 <= j < r@.len() ==> (#[trigger] r@[j])@.len() == 52,
        split ==> forall|p: int|
            0 <= p < 52 ==> #[trigger] r@[0]@[p] == count_items(compartments(encoded@)[0], p + 1)
                && r@[1]@[p] == count_items(compartments(encoded@)[1], p + 1),
        !split ==> forall|p: int|
            0 <= p < 52 ==> #[trigger] r@[0]@[p] == count_items(encoded@, p + 1),
{
    let mut inventories: Vec<Vec<u64>> = Vec::new();
    if split {
        let n = encoded.unicode_len();
        let a = encoded.substring_char(0, n / 2);
        let b = encoded.substring_char(n / 2, n);
        let ia = parse_items(a);
        let ib = parse_items(b);
        inventories.push(ia);
        inventories.push(ib);
    } else {
        let iw = parse_items(encoded);
        inventories.push(iw);
    }
    inventories
}

/// The index (priority minus one) of the first item type that every given
/// inventory holds.
pub fn find_badge(invs: &Vec<Vec<u64>>) -> (r: Option<usize>)
    requires
        invs@.len() >= 2,
        forall|j: int| 0 <= j < invs@.len() ==> (#[trigger] invs@[j])@.len() == 52,
    ensures
        ({
            let group = Seq::new(invs@.len(), |j: int| invs@[j]@);
            match r {
                Some(i) => 0 <= i < 52 && all_positive(group, i as int) && forall|k: int|
                    0 <= k < i ==> !all_positive(group, k),
                None => forall|k: int| 0 <= k < 52 ==> !all_positive(group, k),
            }
        }),
{
    let ghost group = Seq::new(invs@.len(), |j: int| invs@[j]@);
    let mut i: usize = 0;
    while i < 52
        invariant
            0 <= i <= 52,
            invs@.len() >= 2,
            forall|j: int| 0 <= j < invs@.len() ==> (#[trigger] invs@[j])@.len() == 52,
            group == Seq::new(invs@.len(), |j: int| invs@[j]@),
            forall|k: int| 0 <= k < i ==> !all_positive(group, k),
        decreases 52 - i,
    {
        let mut all = true;
        let mut j: usize = 0;
        while j < invs.len()
            invariant
                0 <= i < 52,
                0 <= j <= invs@.len(),
                forall|m: int| 0 <= m < invs@.len() ==> (#[trigger] invs@[m])@.len() == 52,
                group == Seq::new(invs@.len(), |m: int| invs@[m]@),
                all ==> forall|m: int| 0 <= m < j ==> group[m][i as int] > 0,
                !all ==> !all_positive(group, i as int),
            decreases invs@.len() - j,
        {
            if invs[j][i] == 0 {
                all = false;
                proof {
                    assert(group[j as int][i as int] == 0);
                }
            }
            j = j + 1;
        }
        if all {
            return Some(i);
        }
        i = i + 1;
    }
    None
}

/// Every member of the group holds something in slot `i`.
pub open spec fn all_positive(group: Seq<Seq<u64>>, i: int) -> bool {
    forall|j: int| 0 <= j < group.len() ==> (#[trigger] group[j])[i] > 0
}

/// The contribution of one group of whole rucksacks.
pub open spec fn group_score(g: Seq<Seq<char>>) -> int {
    let b = first_common(g, 0);
    if b >= 0 {
        b + 1
    } else {
        0
    }
}

/// The summed badge priorities, taking the lines three at a time; a final
/// group of two is still searched.
pub open spec fn groups_total(lines: Seq<Seq<char>>) -> int
    decreases lines.len(),
{
    if lines.len() == 0 {
        0
    } else if lines.len() >= 3 {
        group_score(lines.subrange(0, 3)) + groups_total(lines.subrange(3, lines.len() as int))
    } else {
        group_score(lines)
    }
}

proof fn lemma_groups_total_nonneg(lines: Seq<Seq<char>>)
    ensures
        groups_total(lines) >= 0,
    decreases lines.len(),
{
    if lines.len() == 0 {
    } else if lines.len() >= 3 {
        lemma_first_common_bounds(lines.subrange(0, 3), 0);
        lemma_groups_total_nonneg(lines.subrange(3, lines.len() as int));
    } else {
        lemma_first_common_bounds(lines, 0);
    }
}

/// When the counted inventories of a group stand for its lines, a shared
/// positive slot is the same thing as a shared item.
proof fn lemma_counts_reflect(group: Seq<Seq<u64>>, chars: Seq<Seq<char>>)
    requires
        group.len() == chars.len(),
        forall|j: int, p: int|
            0 <= j < group.len() && 0 <= p < 52 ==> #[trigger] group[j][p] == count_items(
                chars[j],
                p + 1,
            ),
    ensures
        forall|k: int| 0 <= k < 52 ==> all_positive(group, k) == group_has(chars, k),
{
    assert forall|k: int| 0 <= k < 52 implies all_positive(group, k) == group_has(chars, k) by {
        if all_positive(group, k) {
            assert forall|j: int| 0 <= j < chars.len() implies count_items(
                #[trigger] chars[j],
                k + 1,
            ) > 0 by {
                assert(group[j][k] > 0);
                assert(group[j][k] == count_items(chars[j], k + 1));
            }
            assert(group_has(chars, k));
        }
        if group_has(chars, k) {
            assert forall|j: int| 0 <= j < group.len() implies (#[trigger] group[j])[k] > 0 by {
                assert(count_items(chars[j], k + 1) > 0);
                assert(group[j][k] == count_items(chars[j], k + 1));
            }
            assert(all_positive(group, k));
        }
    }
}

/// What a badge search over counted inventories says about the lines they
/// came from.
proof fn lemma_badge_is_first_common(
    group: Seq<Seq<u64>>,
    chars: Seq<Seq<char>>,
    r: Option<usize>,
)
    requires
        group.len() == chars.len(),
        forall|j: int, p: int|
            0 <= j < group.len() && 0 <= p < 52 ==> #[trigger] group[j][p] == count_items(
                chars[j],
                p + 1,
            ),
        match r {
            Some(i) => 0 <= i < 52 && all_positive(group, i as int) && forall|k: int|
                0 <= k < i ==> !all_positive(group, k),
            None => forall|k: int| 0 <= k < 52 ==> !all_positive(group, k),
        },
    ensures
        match r {
            Some(i) => first_common(chars, 0) == i,
            None => first_common(chars, 0) == -1,
        },
{
    lemma_counts_reflect(group, chars);
    lemma_first_common_bounds(chars, 0);
    let fc = first_common(chars, 0);
    match r {
        Some(i) => {
            assert(group_has(chars, i as int));
            if fc < i {
                assert(!all_positive(group, fc));
                assert(!group_has(chars, fc));
            }
            if fc > i || fc == -1 {
                assert(!group_has(chars, i as int));
            }
        },
        None => {
            if fc >= 0 {
                assert(!all_positive(group, fc));
            }
        },
    }
}

/// The summed priorities of the item each rucksack's two compartments
/// share.
pub fn part1(input: &str) -> (r: u64)
    requires
        forall|k: int| 0 <= k < input@.len() && input@[k] != '\n' ==> is_item(#[trigger] input@[k]),
        split_total(str_lines(input@)) <= u64::MAX,
    ensures
        r == split_total(str_lines(input@)),
{
    let ghost lv = str_lines(input@);
    proof {
        crate::text::lemma_split_char_pieces(input@, '\n', |c: char| is_item(c));
        assert(forall|i: int, j: int|
            0 <= i < lv.len() && 0 <= j < lv[i].len() ==> is_item(#[trigger] lv[i][j]));
    }
    let lines = lines_str(input);
    let n = lines.len();
    let mut acc: u64 = 0;
    let mut i: usize = 0;
    proof {
        assert(lv.subrange(0, 0) =~= Seq::<Seq<char>>::empty());
        assert(lv.len() == n);
    }
    while i < n
        invariant
            0 <= i <= n,
            n == lines@.len(),
            lines.deep_view() =~= lv,
            lv == str_lines(input@),
            lv.len() == n,
            forall|a: int, j: int|
                0 <= a < lv.len() && 0 <= j < lv[a].len() ==> is_item(#[trigger] lv[a][j]),
            split_total(lv) <= u64::MAX,
            acc == split_total(lv.subrange(0, i as int)),
        decreases n - i,
    {
        proof {
            assert(lines.deep_view()[i as int] == lines@[i as int]@);
            let pre = lv.subrange(0, i as int);
            let cur = lv.subrange(0, i + 1);
            assert(cur.drop_last() =~= pre);
            assert(cur.last() == lv[i as int]);
            lemma_split_total_prefix(lv, i + 1);
            lemma_split_total_prefix(lv, i as int);
            lemma_first_common_bounds(compartments(lv[i as int]), 0);
        }
        let line = &lines[i];
        let invs = parse_inventories(line.as_str(), true);
        let badge = find_badge(&invs);
        proof {
            let group = Seq::new(invs@.len(), |j: int| invs@[j]@);
            let chars = compartments(lv[i as int]);
            assert(group.len() == 2);
            assert(group[0] == invs@[0]@ && group[1] == invs@[1]@);
            assert forall|j: int, p: int|
                0 <= j < group.len() && 0 <= p < 52 implies #[trigger] group[j][p] == count_items(
                chars[j],
                p + 1,
            ) by {
                assert(line@ == lv[i as int]);
                assert(group[0][p] == invs@[0]@[p]);
                assert(group[1][p] == invs@[1]@[p]);
            }
            lemma_badge_is_first_common(group, chars, badge);
        }
        match badge {
            Some(idx) => {
                acc = acc + (idx as u64) + 1;
            },
            None => {
            },
        }
        i = i + 1;
    }
    proof {
        assert(lv.subrange(0, n as int) =~= lv);
    }
    acc
}

/// The summed priorities of each three-rucksack group's badge.
pub fn part2(input: &str) -> (r: u64)
    requires
        forall|k: int| 0 <= k < input@.len() && input@[k] != '\n' ==> is_item(#[trigger] input@[k]),
        str_lines(input@).len() % 3 != 1,
        groups_total(str_lines(input@)) <= u64::MAX,
    ensures
        r == groups_total(str_lines(input@)),
{
    let ghost lv = str_lines(input@);
    proof {
        crate::text::lemma_split_char_pieces(input@, '\n', |c: char| is_item(c));
        assert(forall|i: int, j: int|
            0 <= i < lv.len() && 0 <= j < lv[i].len() ==> is_item(#[trigger] lv[i][j]));
    }
    let lines = lines_str(input);
    let n = lines.len();
    let mut acc: u64 = 0;
    let mut i: usize = 0;
    proof {
        assert(lv.subrange(0, n as int) =~= lv);
        assert(lv.len() == n);
    }
    while i < n
        invariant
            0 <= i <= n,
            (n - i) % 3 == n % 3 || i == n,
            n % 3 != 1,
            n == lines@.len(),
            lines.deep_view() =~= lv,
            lv == str_lines(input@),
            lv.len() == n,
            forall|a: int, j: int|
                0 <= a < lv.len() && 0 <= j < lv[a].len() ==> is_item(#[trigger] lv[a][j]),
            groups_total(lv) <= u64::MAX,
            acc + groups_total(lv.subrange(i as int, n as int)) == groups_total(lv),
            acc >= 0,
        decreases n - i,
    {
        let g = if n - i >= 3 {
            3
        } else {
            n - i
        };
        proof {
            assert(g == 2 || g == 3);
        }
        let mut sacks: Vec<Vec<u64>> = Vec::new();
        let mut j: usize = 0;
        while j < g
            invariant
                0 <= j <= g,
                i + g <= n,
                g == 2 || g == 3,
                n == lines@.len(),
                lines.deep_view() =~= lv,
                lv.len() == n,
                forall|a: int, jj: int|
                    0 <= a < lv.len() && 0 <= jj < lv[a].len() ==> is_item(#[trigger] lv[a][jj]),
                sacks@.len() == j,
                forall|m: int| 0 <= m < j ==> (#[trigger] sacks@[m])@.len() == 52,
                forall|m: int, p: int|
                    0 <= m < j && 0 <= p < 52 ==> #[trigger] sacks@[m]@[p] == count_items(
                        lv[i + m],
                        p + 1,
                    ),
            decreases g - j,
        {
            proof {
                assert(lines.deep_view()[i + j] == lines@[i + j]@);
            }
            let line = &lines[i + j];
            let mut one = parse_inventories(line.as_str(), false);
            let ghost pre_one = one@;
            match one.pop() {
                Some(inv) => {
                    proof {
                        assert(inv == pre_one[0]);
                    }
                    sacks.push(inv);
                },
                None => {
                    proof {
                        assert(false);
                    }
                },
            }
            j = j + 1;
        }
        let ghost grp = lv.subrange(i as int, i + g);
        proof {
            let rest = lv.subrange(i as int, n as int);
            if g == 3 {
                assert(rest.subrange(0, 3) =~= grp);
                assert(rest.subrange(3, rest.len() as int) =~= lv.subrange(i + 3, n as int));
            } else {
                assert(rest =~= grp);
                assert(lv.subrange(i + g, n as int) =~= Seq::<Seq<char>>::empty());
            }
            lemma_groups_total_nonneg(lv.subrange(i + g, n as int));
            lemma_groups_total_nonneg(lv.subrange(i as int, n as int));
            lemma_first_common_bounds(grp, 0);
            assert(forall|m: int| 0 <= m < g ==> grp[m] == lv[i + m]);
        }
        let badge = find_badge(&sacks);
        proof {
            let group = Seq::new(sacks@.len(), |m: int| sacks@[m]@);
            assert(forall|m: int, p: int|
                0 <= m < group.len() && 0 <= p < 52 ==> #[trigger] group[m][p] == count_items(
                    grp[m],
                    p + 1,
                )) by {
                assert(forall|m: int| 0 <= m < group.len() ==> #[trigger] group[m] == sacks@[m]@);
                assert(forall|m: int| 0 <= m < g ==> #[trigger] grp[m] == lv[i + m]);
            }
            lemma_badge_is_first_common(group, grp, badge);
        }
        match badge {
            Some(idx) => {
                acc = acc + (idx as u64) + 1;
            },
            None => {
            },
        }
        i = i + g;
    }
    proof {
        assert(lv.subrange(n as int, n as int) =~= Seq::<Seq<char>>::empty());
    }
    acc
}

} // verus!
