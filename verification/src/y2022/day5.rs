//! Supply stacks: crates drawn as columns, rearranged by `move N from A to
//! B` steps, one crate at a time or a whole handful at once.

use crate::text::dec_val;
use crate::text::find_blank;
use crate::text::find_blank_str;
use crate::text::lemma_find_blank;
use crate::text::is_dec;
use crate::text::parse_u64;
use crate::text::lines_str;
use crate::text::str_lines;
use crate::text::split_char;
use crate::text::split_str;
use crate::text::words_of;
use crate::text::words_str;
use vstd::prelude::*;
use vstd::string::StrSliceExecFns;

verus! {


/// The crate rows, bottom row first: the lines of the drawing, reversed.
pub open spec fn rows_of(sup: Seq<char>) -> Seq<Seq<char>> {
    let lines = str_lines(sup);
    Seq::new(lines.len(), |i: int| lines[lines.len() - 1 - i])
}

/// Column `i` of the rows, taking an element from every row long enough.
pub open spec fn col(rows: Seq<Seq<char>>, i: int) -> Seq<char>
    decreases rows.len(),
{
    if rows.len() == 0 {
        Seq::empty()
    } else {
        col(rows.drop_last(), i) + if i < rows.last().len() {
            seq![rows.last()[i]]
        } else {
            Seq::empty()
        }
    }
}

/// True when `c` is an ASCII letter: a crate name.
pub open spec fn is_crate(c: char) -> bool {
    ('a' <= c && c <= 'z') || ('A' <= c && c <= 'Z')
}

/// The crate letters of a column, in order.
pub open spec fn crates_only(s: Seq<char>) -> Seq<char>
    decreases s.len(),
{
    if s.len() == 0 {
        Seq::empty()
    } else {
        let rest = crates_only(s.drop_last());
        if is_crate(s.last()) {
            rest.push(s.last())
        } else {
            rest
        }
    }
}

/// The stacks from the first `k` columns whose bottom row is not blank.
pub open spec fn stacks_upto(rows: Seq<Seq<char>>, k: int) -> Seq<Seq<char>>
    decreases k,
{
    if k <= 0 {
        Seq::empty()
    } else {
        stacks_upto(rows, k - 1) + if rows[0][k - 1] != ' ' {
            seq![crates_only(col(rows, k - 1))]
        } else {
            Seq::empty()
        }
    }
}

/// The stacks a drawing stands for, bottom crate first in each stack.
pub open spec fn stacks_of(sup: Seq<char>) -> Seq<Seq<char>> {
    stacks_upto(rows_of(sup), rows_of(sup)[0].len() as int)
}

/// True when an operation line can be read: at least six words, with words
/// one, three and five numbers that fit the machine.
pub open spec fn op_line_ok(l: Seq<char>) -> bool {
    let w = words_of(l);
    &&& w.len() >= 6
    &&& is_dec(w[1]) && dec_val(w[1]) <= usize::MAX
    &&& is_dec(w[3]) && dec_val(w[3]) <= usize::MAX
    &&& is_dec(w[5]) && dec_val(w[5]) <= usize::MAX
}

/// The operation a line stands for: how many, from where, to where.
pub open spec fn op_of_line(l: Seq<char>) -> (int, int, int) {
    let w = words_of(l);
    (dec_val(w[1]) as int, dec_val(w[3]) as int, dec_val(w[5]) as int)
}


/// Reads the rearrangement steps, one per line.
pub fn parse_operations(ops: &str) -> (r: Vec<(usize, usize, usize)>)
    requires
        forall|i: int| 0 <= i < str_lines(ops@).len() ==> op_line_ok(#[trigger] str_lines(ops@)[i]),
    ensures
        r@.len() == str_lines(ops@).len(),
        forall|i: int|
            0 <= i < r@.len() ==> (r@[i].0 as int, r@[i].1 as int, r@[i].2 as int) == op_of_line(
                #[trigger] str_lines(ops@)[i],
            ),
{
    let ghost lv = str_lines(ops@);
    let lines = lines_str(ops);
    let n = lines.len();
    let mut out: Vec<(usize, usize, usize)> = Vec::new();
    let mut i: usize = 0;
    proof {
        assert(lv.len() == n);
    }
    while i < n
        invariant
            0 <= i <= n,
            n == lines@.len(),
            lines.deep_view() =~~= lv,
            lv == str_lines(ops@),
            lv.len() == n,
            forall|j: int| 0 <= j < n ==> op_line_ok(#[trigger] lv[j]),
            out@.len() == i,
            forall|j: int|
                0 <= j < i ==> (out@[j].0 as int, out@[j].1 as int, out@[j].2 as int) == op_of_line(
                    #[trigger] lv[j],
                ),
        decreases n - i,
    {
        proof {
            assert(lines.deep_view()[i as int] == lines@[i as int]@);
        }
        let words = words_str(lines[i].as_str());
        proof {
            assert(words.deep_view().len() == words@.len());
            assert(words.deep_view()[1] == words@[1]@);
            assert(words.deep_view()[3] == words@[3]@);
            assert(words.deep_view()[5] == words@[5]@);
        }
        let a = match parse_u64(words[1].as_str()) {
            Ok(v) => v as usize,
            Err(_) => {
                proof {
                    assert(false);
                }
                0
            },
        };
        let b = match parse_u64(words[3].as_str()) {
            Ok(v) => v as usize,
            Err(_) => {
                proof {
                    assert(false);
                }
                0
            },
        };
        let c = match parse_u64(words[5].as_str()) {
            Ok(v) => v as usize,
            Err(_) => {
                proof {
                    assert(false);
                }
                0
            },
        };
        out.push((a, b, c));
        i = i + 1;
    }
    out
}

/// Reads the crate drawing into stacks, bottom crate first.
pub fn parse_supplies(sup: &str) -> (r: Vec<Vec<char>>)
    requires
        str_lines(sup@).len() > 0,
        forall|i: int|
            0 <= i < str_lines(sup@).len() ==> (#[trigger] str_lines(sup@)[i]).len() <= str_lines(
                sup@,
            )[str_lines(sup@).len() - 1].len(),
    ensures
        r.deep_view() =~~= stacks_of(sup@),
{
    let ghost rows = rows_of(sup@);
    let mut lines = lines_str(sup);
    let n = lines.len();
    proof {
        assert(rows.len() == n);
        assert(forall|i: int| 0 <= i < n ==> rows[i] == lines.deep_view()[n - 1 - i]);
    }
    // reverse the lines so the bottom row comes first
    let mut rev: Vec<String> = Vec::new();
    let mut i: usize = 0;
    while i < n
        invariant
            0 <= i <= n,
            n == lines@.len(),
            rev@.len() == i,
            forall|j: int| 0 <= j < i ==> rev@[j]@ == lines@[n - 1 - j]@,
        decreases n - i,
    {
        let s = lines[n - 1 - i].clone();
        rev.push(s);
        i = i + 1;
    }
    proof {
        assert(forall|j: int| 0 <= j < n ==> rev.deep_view()[j] == rev@[j]@);
        assert(forall|j: int| 0 <= j < n ==> lines.deep_view()[j] == lines@[j]@);
        assert(rev.deep_view() =~~= rows);
    }
    let width = rev[0].as_str().unicode_len();
    let mut stacks: Vec<Vec<char>> = Vec::new();
    let mut k: usize = 0;
    proof {
        assert(stacks.deep_view() =~~= stacks_upto(rows, 0));
    }
    while k < width
        invariant
            0 <= k <= width,
            n == rev@.len(),
            rev.deep_view() =~~= rows,
            rows == rows_of(sup@),
            rows.len() == n > 0,
            width == rows[0].len(),
            stacks.deep_view() =~~= stacks_upto(rows, k as int),
        decreases width - k,
    {
        proof {
            assert(rows[0] == rev@[0]@);
        }
        let head = rev[0].as_str().get_char(k);
        if head != ' ' {
            // collect column k, keeping only crate letters
            let mut stack: Vec<char> = Vec::new();
            let mut j: usize = 0;
            proof {
                assert(rows.subrange(0, 0) =~~= Seq::<Seq<char>>::empty());
                assert(stack@ =~~= crates_only(col(rows.subrange(0, 0), k as int)));
            }
            while j < n
                invariant
                    0 <= j <= n,
                    n == rev@.len(),
                    rev.deep_view() =~~= rows,
                    rows.len() == n,
                    0 <= k < width,
                    stack@ =~~= crates_only(col(rows.subrange(0, j as int), k as int)),
                decreases n - j,
            {
                proof {
                    let pre = rows.subrange(0, j as int);
                    let cur = rows.subrange(0, j + 1);
                    assert(cur.drop_last() =~~= pre);
                    assert(cur.last() == rows[j as int]);
                    assert(rows[j as int] == rev@[j as int]@);
                    if k < rows[j as int].len() {
                        assert(col(cur, k as int) =~~= col(pre, k as int).push(
                            rows[j as int][k as int],
                        ));
                        assert(col(cur, k as int).drop_last() =~~= col(pre, k as int));
                    } else {
                        assert(col(cur, k as int) =~~= col(pre, k as int));
                    }
                }
                let row = rev[j].as_str();
                if k < row.unicode_len() {
                    let c = row.get_char(k);
                    let is_cr = ('a' <= c && c <= 'z') || ('A' <= c && c <= 'Z');
                    if is_cr {
                        stack.push(c);
                    }
                }
                j = j + 1;
            }
            proof {
                assert(rows.subrange(0, n as int) =~~= rows);
            }
            stacks.push(stack);
        }
        proof {
            assert(stacks.deep_view() =~~= stacks_upto(rows, k + 1));
        }
        k = k + 1;
    }
    stacks
}

/// Reads the whole input: the crate drawing above the blank line, the steps
/// below it.
pub fn input_generator(input: &str) -> (r: (Vec<Vec<char>>, Vec<(usize, usize, usize)>))
    requires
        find_blank(input@) >= 0,
        ({
            let sup = input@.subrange(0, find_blank(input@));
            str_lines(sup).len() > 0 && forall|i: int|
                0 <= i < str_lines(sup).len() ==> (#[trigger] str_lines(sup)[i]).len() <= str_lines(
                    sup,
                )[str_lines(sup).len() - 1].len()
        }),
        forall|i: int|
            0 <= i < str_lines(input@.subrange(find_blank(input@) + 2, input@.len() as int)).len()
                ==> op_line_ok(
                #[trigger] str_lines(
                    input@.subrange(find_blank(input@) + 2, input@.len() as int),
                )[i],
            ),
    ensures
        r.0.deep_view() =~~= stacks_of(input@.subrange(0, find_blank(input@))),
        r.1@.len() == str_lines(
            input@.subrange(find_blank(input@) + 2, input@.len() as int),
        ).len(),
        forall|i: int|
            0 <= i < r.1@.len() ==> (r.1@[i].0 as int, r.1@[i].1 as int, r.1@[i].2 as int)
                == op_of_line(
                #[trigger] str_lines(
                    input@.subrange(find_blank(input@) + 2, input@.len() as int),
                )[i],
            ),
{
    let n = input.unicode_len();
    let blank = match find_blank_str(input) {
        Some(k) => k,
        None => {
            proof {
                assert(false);
            }
            0
        },
    };
    proof {
        lemma_find_blank(input@);
    }
    let sup = input.substring_char(0, blank);
    let ops = input.substring_char(blank + 2, n);
    (parse_supplies(sup), parse_operations(ops))
}

/// The order-reversed copy of a sequence.
pub open spec fn rev_seq(s: Seq<char>) -> Seq<char> {
    Seq::new(s.len(), |i: int| s[s.len() - 1 - i])
}

/// One rearrangement step, moving crates one at a time: up to `count`
/// crates leave the top of the source and land on the target in reverse
/// order.  Moving a stack onto itself changes nothing.
pub open spec fn apply_one(sup: Seq<Seq<char>>, op: (int, int, int)) -> Seq<Seq<char>> {
    let s = op.1 - 1;
    let d = op.2 - 1;
    if s == d || !(0 <= s < sup.len()) || !(0 <= d < sup.len()) {
        sup
    } else {
        let k = if op.0 <= sup[s].len() {
            op.0
        } else {
            sup[s].len() as int
        };
        let moved = sup[s].subrange(sup[s].len() - k, sup[s].len() as int);
        sup.update(s, sup[s].subrange(0, sup[s].len() - k)).update(d, sup[d] + rev_seq(moved))
    }
}

/// One rearrangement step of the newer crane, which carries the whole
/// handful at once: the crates keep their order.
pub open spec fn apply_one_bulk(sup: Seq<Seq<char>>, op: (int, int, int)) -> Seq<Seq<char>> {
    let s = op.1 - 1;
    let d = op.2 - 1;
    if s == d || !(0 <= s < sup.len()) || !(0 <= d < sup.len()) {
        sup
    } else {
        let k = if op.0 <= sup[s].len() {
            op.0
        } else {
            sup[s].len() as int
        };
        let moved = sup[s].subrange(sup[s].len() - k, sup[s].len() as int);
        sup.update(s, sup[s].subrange(0, sup[s].len() - k)).update(d, sup[d] + moved)
    }
}

/// The stacks after the steps from `i` on, one crate at a time.
pub open spec fn apply_from(sup: Seq<Seq<char>>, ops: Seq<(int, int, int)>, i: int, bulk: bool) -> Seq<
    Seq<char>,
>
    decreases ops.len() - i,
{
    if i < 0 || i >= ops.len() {
        sup
    } else if bulk {
        apply_from(apply_one_bulk(sup, ops[i]), ops, i + 1, bulk)
    } else {
        apply_from(apply_one(sup, ops[i]), ops, i + 1, bulk)
    }
}

/// The top crate of every non-empty stack, in stack order.
pub open spec fn tops(sup: Seq<Seq<char>>) -> Seq<char>
    decreases sup.len(),
{
    if sup.len() == 0 {
        Seq::empty()
    } else {
        let rest = tops(sup.drop_last());
        if sup.last().len() > 0 {
            rest.push(sup.last().last())
        } else {
            rest
        }
    }
}

/// The spec view of the operation list.
pub open spec fn ops_view(ops: Seq<(usize, usize, usize)>) -> Seq<(int, int, int)> {
    Seq::new(ops.len(), |i: int| (ops[i].0 as int, ops[i].1 as int, ops[i].2 as int))
}

/// A vector of stacks seen as a sequence of sequences: element by element,
/// the deep view is the view of each stack.
proof fn lemma_dv(v: &Vec<Vec<char>>)
    ensures
        v.deep_view().len() == v@.len(),
        forall|i: int| 0 <= i < v@.len() ==> #[trigger] v.deep_view()[i] == v@[i]@,
{
    assert forall|i: int| 0 <= i < v@.len() implies #[trigger] v.deep_view()[i] == v@[i]@ by {
        assert(v@[i].deep_view() =~= v@[i]@);
    }
}

/// Runs the steps over a copy of the stacks and reads off the top crates.
fn run_crane(input: &(Vec<Vec<char>>, Vec<(usize, usize, usize)>), bulk: bool) -> (r: Vec<char>)
    requires
        forall|i: int|
            0 <= i < input.1@.len() ==> 1 <= (#[trigger] input.1@[i]).1 <= input.0@.len() && 1
                <= input.1@[i].2 <= input.0@.len(),
    ensures
        r@ == tops(apply_from(input.0.deep_view(), ops_view(input.1@), 0, bulk)),
{
    let ghost sup0 = input.0.deep_view();
    let ghost ops = ops_view(input.1@);
    // a private copy of the stacks
    let mut supplies: Vec<Vec<char>> = Vec::new();
    let mut i: usize = 0;
    let ns = input.0.len();
    while i < ns
        invariant
            0 <= i <= ns,
            ns == input.0@.len(),
            supplies@.len() == i,
            forall|j: int| 0 <= j < i ==> supplies@[j]@ == input.0@[j]@,
        decreases ns - i,
    {
        let mut st: Vec<char> = Vec::new();
        let row = &input.0[i];
        let m = row.len();
        let mut j: usize = 0;
        while j < m
            invariant
                0 <= j <= m,
                m == row@.len(),
                st@.len() == j,
                forall|t: int| 0 <= t < j ==> st@[t] == row@[t],
            decreases m - j,
        {
            st.push(row[j]);
            j = j + 1;
        }
        proof {
            assert(st@ =~~= row@);
        }
        supplies.push(st);
        i = i + 1;
    }
    proof {
        assert(supplies.deep_view() =~~= sup0);
    }
    let n_ops = input.1.len();
    let mut t: usize = 0;
    while t < n_ops
        invariant
            0 <= t <= n_ops,
            n_ops == input.1@.len(),
            ops == ops_view(input.1@),
            forall|i2: int|
                0 <= i2 < input.1@.len() ==> 1 <= (#[trigger] input.1@[i2]).1 <= supplies@.len()
                    && 1 <= input.1@[i2].2 <= supplies@.len(),
            supplies@.len() == input.0@.len(),
            apply_from(supplies.deep_view(), ops, t as int, bulk) == apply_from(
                sup0,
                ops,
                0,
                bulk,
            ),
        decreases n_ops - t,
    {
        let (count, source, dest) = input.1[t];
        let ghost before = supplies.deep_view();
        proof {
            lemma_dv(&supplies);
        }
        if source != dest {
            let srclen = supplies[source - 1].len();
            let k = if count <= srclen {
                count
            } else {
                srclen
            };
            let ghost srcv = before[source - 1];
            let ghost dstv = before[dest - 1];
            let ghost moved = srcv.subrange(srcv.len() - k, srcv.len() as int);
            // the crates that stay on the source stack
            let mut new_src: Vec<char> = Vec::new();
            let mut a: usize = 0;
            while a < srclen - k
                invariant
                    0 <= a <= srclen - k,
                    k <= srclen,
                    1 <= source <= supplies@.len(),
                    srclen == supplies@[source - 1]@.len(),
                    srcv == supplies@[source - 1]@,
                    new_src@.len() == a,
                    forall|q: int| 0 <= q < a ==> new_src@[q] == srcv[q],
                decreases srclen - k - a,
            {
                let c = supplies[source - 1][a];
                new_src.push(c);
                a = a + 1;
            }
            // the target stack with the moved crates on top
            let dstlen = supplies[dest - 1].len();
            let mut new_dst: Vec<char> = Vec::new();
            let mut b: usize = 0;
            while b < dstlen
                invariant
                    0 <= b <= dstlen,
                    1 <= dest <= supplies@.len(),
                    dstlen == supplies@[dest - 1]@.len(),
                    dstv == supplies@[dest - 1]@,
                    new_dst@.len() == b,
                    forall|q: int| 0 <= q < b ==> new_dst@[q] == dstv[q],
                decreases dstlen - b,
            {
                let c = supplies[dest - 1][b];
                new_dst.push(c);
                b = b + 1;
            }
            let mut m: usize = 0;
            while m < k
                invariant
                    0 <= m <= k <= srclen,
                    1 <= source <= supplies@.len(),
                    srclen == supplies@[source - 1]@.len(),
                    srcv == supplies@[source - 1]@,
                    moved == srcv.subrange(srcv.len() - k, srcv.len() as int),
                    new_dst@.len() == dstlen + m,
                    dstlen == dstv.len(),
                    forall|q: int| 0 <= q < dstlen ==> new_dst@[q] == dstv[q],
                    bulk ==> forall|q: int|
                        dstlen <= q < dstlen + m ==> #[trigger] new_dst@[q] == moved[q - dstlen],
                    !bulk ==> forall|q: int|
                        dstlen <= q < dstlen + m ==> #[trigger] new_dst@[q] == moved[
                            k - 1 - (q - dstlen)
                        ],
                decreases k - m,
            {
                let c = if bulk {
                    supplies[source - 1][srclen - k + m]
                } else {
                    supplies[source - 1][srclen - 1 - m]
                };
                new_dst.push(c);
                m = m + 1;
            }
            supplies[source - 1] = new_src;
            supplies[dest - 1] = new_dst;
            proof {
                lemma_dv(&supplies);
                let opv = ops[t as int];
                assert(supplies@[source - 1]@ =~= srcv.subrange(0, srcv.len() - k));
                if bulk {
                    assert(supplies@[dest - 1]@ =~= dstv + moved);
                    assert(supplies.deep_view() =~~= apply_one_bulk(before, opv));
                } else {
                    assert(supplies@[dest - 1]@ =~= dstv + rev_seq(moved));
                    assert(supplies.deep_view() =~~= apply_one(before, opv));
                }
            }
        } else {
            proof {
                let opv = ops[t as int];
                assert(supplies.deep_view() == apply_one(before, opv));
                assert(supplies.deep_view() == apply_one_bulk(before, opv));
            }
        }
        t = t + 1;
    }
    proof {
        assert(apply_from(supplies.deep_view(), ops, n_ops as int, bulk) == supplies.deep_view());
    }
    // read off the top crates
    let ghost fin = supplies.deep_view();
    let mut result: Vec<char> = Vec::new();
    let mut p: usize = 0;
    let m = supplies.len();
    proof {
        assert(fin.subrange(0, 0) =~~= Seq::<Seq<char>>::empty());
        assert(result@ =~~= tops(fin.subrange(0, 0)));
    }
    while p < m
        invariant
            0 <= p <= m,
            m == supplies@.len(),
            fin == supplies.deep_view(),
            fin.len() == m,
            result@ =~~= tops(fin.subrange(0, p as int)),
        decreases m - p,
    {
        proof {
            let pre = fin.subrange(0, p as int);
            let cur = fin.subrange(0, p + 1);
            assert(cur.drop_last() =~~= pre);
            assert(cur.last() == fin[p as int]);
            lemma_dv(&supplies);
            assert(fin[p as int] == supplies@[p as int]@);
        }
        let st = &supplies[p];
        if st.len() > 0 {
            result.push(st[st.len() - 1]);
        }
        p = p + 1;
    }
    proof {
        assert(fin.subrange(0, m as int) =~~= fin);
    }
    result
}

/// The top crates after rearranging one crate at a time.
pub fn part1(input: &(Vec<Vec<char>>, Vec<(usize, usize, usize)>)) -> (r: Vec<char>)
    requires
        forall|i: int|
            0 <= i < input.1@.len() ==> 1 <= (#[trigger] input.1@[i]).1 <= input.0@.len() && 1
                <= input.1@[i].2 <= input.0@.len(),
    ensures
        r@ == tops(apply_from(input.0.deep_view(), ops_view(input.1@), 0, false)),
{
    run_crane(input, false)
}

/// The top crates after rearranging whole handfuls at once.
pub fn part2(input: &(Vec<Vec<char>>, Vec<(usize, usize, usize)>)) -> (r: Vec<char>)
    requires
        forall|i: int|
            0 <= i < input.1@.len() ==> 1 <= (#[trigger] input.1@[i]).1 <= input.0@.len() && 1
                <= input.1@[i].2 <= input.0@.len(),
    ensures
        r@ == tops(apply_from(input.0.deep_view(), ops_view(input.1@), 0, true)),
{
    run_crane(input, true)
}

} // verus!
