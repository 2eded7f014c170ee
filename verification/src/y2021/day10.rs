//! Syntax scoring: checking bracket lines with a stack, scoring the first
//! wrong closer of corrupted lines and the completion string of incomplete
//! ones.

use crate::text::split_char;
use crate::text::split_str;
use vstd::prelude::*;
use vstd::string::StrSliceExecFns;
use vstd::string::StringExecFns;

verus! {

pub open spec fn opening(c: char) -> bool {
    c == '(' || c == '[' || c == '{' || c == '<'
}

pub open spec fn closing(c: char) -> bool {
    c == ')' || c == ']' || c == '}' || c == '>'
}

/// True when every character is a bracket.
pub open spec fn bracket_ok(s: Seq<char>) -> bool {
    forall|i: int| 0 <= i < s.len() ==> opening(#[trigger] s[i]) || closing(s[i])
}

/// The closer that matches an opener.
pub open spec fn match_close(c: char) -> char {
    if c == '(' {
        ')'
    } else if c == '[' {
        ']'
    } else if c == '{' {
        '}'
    } else {
        '>'
    }
}

/// Points for the first wrong closer of a corrupted line.
pub open spec fn sym_score(c: char) -> nat {
    if c == ')' {
        3
    } else if c == ']' {
        57
    } else if c == '}' {
        1197
    } else {
        25137
    }
}

/// Points for one character of a completion string.
pub open spec fn comp_char_score(c: char) -> nat {
    if c == ')' {
        1
    } else if c == ']' {
        2
    } else if c == '}' {
        3
    } else {
        4
    }
}

/// What checking one line yields: the unclosed openers, the first wrong
/// closer, or a complete line.
pub enum LineModel {
    Incomplete(Seq<char>),
    Corrupted(char),
    Complete,
}

/// Runs the bracket stack over the rest of a line: openers are pushed, a
/// matching closer pops, a wrong closer is corruption, and a closer on an
/// empty stack leaves the line incomplete.
pub open spec fn run_line(line: Seq<char>, stack: Seq<char>) -> LineModel
    decreases line.len(),
{
    if line.len() == 0 {
        if stack.len() > 0 {
            LineModel::Incomplete(stack)
        } else {
            LineModel::Complete
        }
    } else {
        let c = line[0];
        if closing(c) {
            if stack.len() == 0 {
                LineModel::Incomplete(stack)
            } else if c == match_close(stack.last()) {
                run_line(line.drop_first(), stack.drop_last())
            } else {
                LineModel::Corrupted(c)
            }
        } else {
            run_line(line.drop_first(), stack.push(c))
        }
    }
}

/// What the stack machine can leave behind: an incomplete line's stack holds
/// openers only, and a corrupted line's witness is a closer.
pub proof fn lemma_run_line(line: Seq<char>, stack: Seq<char>)
    requires
        bracket_ok(line),
        forall|i: int| 0 <= i < stack.len() ==> opening(#[trigger] stack[i]),
    ensures
        run_line(line, stack) matches LineModel::Incomplete(st) ==> forall|i: int|
            0 <= i < st.len() ==> opening(#[trigger] st[i]),
        run_line(line, stack) matches LineModel::Corrupted(c) ==> closing(c),
    decreases line.len(),
{
    if line.len() > 0 {
        let c = line[0];
        assert(bracket_ok(line.drop_first())) by {
            assert(forall|i: int|
                0 <= i < line.drop_first().len() ==> line.drop_first()[i] == line[i + 1]);
        }
        if closing(c) {
            if stack.len() > 0 && c == match_close(stack.last()) {
                lemma_run_line(line.drop_first(), stack.drop_last());
            }
        } else {
            assert(opening(c));
            lemma_run_line(line.drop_first(), stack.push(c));
        }
    }
}

/// One analyzed line: the unclosed openers, the first wrong closer, or a
/// complete line.
#[derive(Debug, PartialEq, Eq)]
pub enum AnalyzedLine {
    Incomplete(Vec<char>),
    Corrupted(char),
    Complete,
}

impl AnalyzedLine {
    /// The unclosed openers of an incomplete line.
    pub fn incomplete(self) -> (r: Option<Vec<char>>)
        ensures
            match r {
                Some(v) => self matches AnalyzedLine::Incomplete(st) && v == st,
                None => !(self matches AnalyzedLine::Incomplete(_)),
            },
    {
        match self {
            AnalyzedLine::Incomplete(stack) => Some(stack),
            _ => None,
        }
    }

    /// The first wrong closer of a corrupted line.
    pub fn corrupted(self) -> (r: Option<char>)
        ensures
            match r {
                Some(c) => self matches AnalyzedLine::Corrupted(w) && c == w,
                None => !(self matches AnalyzedLine::Corrupted(_)),
            },
    {
        match self {
            AnalyzedLine::Corrupted(last_char) => Some(last_char),
            _ => None,
        }
    }
}

pub fn is_closing_symbol(symbol: char) -> (r: bool)
    ensures
        r == closing(symbol),
{
    symbol == ')' || symbol == ']' || symbol == '}' || symbol == '>'
}

pub fn matching_closing_symbol(symbol: char) -> (r: char)
    requires
        opening(symbol),
    ensures
        r == match_close(symbol),
{
    match symbol {
        '(' => ')',
        '[' => ']',
        '{' => '}',
        _ => '>',
    }
}

/// Checks one line against the bracket grammar.
pub fn analyze(line: &String) -> (r: AnalyzedLine)
    requires
        bracket_ok(line@),
    ensures
        match r {
            AnalyzedLine::Incomplete(st) => run_line(line@, Seq::empty()) == LineModel::Incomplete(
                st@,
            ),
            AnalyzedLine::Corrupted(c) => run_line(line@, Seq::empty()) == LineModel::Corrupted(c),
            AnalyzedLine::Complete => run_line(line@, Seq::empty()) == LineModel::Complete,
        },
{
    let s = line.as_str();
    let n = s.unicode_len();
    let mut stack: Vec<char> = Vec::new();
    let mut i: usize = 0;
    proof {
        assert(line@.subrange(0, n as int) =~= line@);
    }
    while i < n
        invariant
            0 <= i <= n,
            s@ == line@,
            n == line@.len(),
            bracket_ok(line@),
            forall|j: int| 0 <= j < stack@.len() ==> opening(#[trigger] stack@[j]),
            run_line(line@, Seq::empty()) == run_line(line@.subrange(i as int, n as int), stack@),
        decreases n - i,
    {
        let symbol = s.get_char(i);
        proof {
            let rest = line@.subrange(i as int, n as int);
            assert(rest[0] == line@[i as int]);
            assert(rest.drop_first() =~= line@.subrange(i + 1, n as int));
        }
        if is_closing_symbol(symbol) {
            let ghost pre_stack = stack@;
            if stack.len() == 0 {
                return AnalyzedLine::Incomplete(stack);
            }
            let top = stack.pop();
            match top {
                Some(b) => {
                    proof {
                        assert(b == pre_stack.last());
                        assert(stack@ =~= pre_stack.drop_last());
                    }
                    if symbol != matching_closing_symbol(b) {
                        return AnalyzedLine::Corrupted(symbol);
                    }
                },
                None => {
                    proof {
                        assert(false);
                    }
                },
            }
        } else {
            stack.push(symbol);
        }
        i = i + 1;
    }
    proof {
        assert(line@.subrange(n as int, n as int) =~= Seq::<char>::empty());
    }
    if stack.len() > 0 {
        AnalyzedLine::Incomplete(stack)
    } else {
        AnalyzedLine::Complete
    }
}

/// The closers that finish an incomplete line, innermost opener first.
pub open spec fn completion_of(st: Seq<char>) -> Seq<char> {
    Seq::new(st.len(), |i: int| match_close(st[st.len() - 1 - i]))
}

/// Builds the completion string for a stack of unclosed openers.
pub fn completion_string(chars: Vec<char>) -> (r: String)
    requires
        forall|i: int| 0 <= i < chars@.len() ==> opening(#[trigger] chars@[i]),
    ensures
        r@ == completion_of(chars@),
{
    let n = chars.len();
    let mut completion = String::new();
    let mut k: usize = 0;
    while k < n
        invariant
            0 <= k <= n,
            n == chars@.len(),
            forall|i: int| 0 <= i < n ==> opening(#[trigger] chars@[i]),
            completion@.len() == k,
            forall|j: int| 0 <= j < k ==> completion@[j] == match_close(chars@[n - 1 - j]),
        decreases n - k,
    {
        let c = chars[n - 1 - k];
        proof {
            reveal_strlit(")");
            reveal_strlit("]");
            reveal_strlit("}");
            reveal_strlit(">");
            assert(")"@ =~= seq![')']);
            assert("]"@ =~= seq![']']);
            assert("}"@ =~= seq!['}']);
            assert(">"@ =~= seq!['>']);
        }
        match c {
            '(' => completion.append(")"),
            '[' => completion.append("]"),
            '{' => completion.append("}"),
            _ => completion.append(">"),
        }
        k = k + 1;
    }
    proof {
        assert(completion@ =~= completion_of(chars@));
    }
    completion
}

/// The score of a completion string, folded left to right.
pub open spec fn comp_score(s: Seq<char>) -> nat
    decreases s.len(),
{
    if s.len() == 0 {
        0
    } else {
        comp_score(s.drop_last()) * 5 + comp_char_score(s.last())
    }
}

proof fn lemma_comp_score_prefix(s: Seq<char>, k: int)
    requires
        0 <= k <= s.len(),
    ensures
        comp_score(s.subrange(0, k)) <= comp_score(s),
    decreases s.len() - k,
{
    if k < s.len() {
        assert(s.subrange(0, k + 1).drop_last() =~= s.subrange(0, k));
        lemma_comp_score_prefix(s, k + 1);
    } else {
        assert(s.subrange(0, k) =~= s);
    }
}

/// The score of a completion string.
pub fn score_completion(completion: String) -> (r: u64)
    requires
        forall|i: int| 0 <= i < completion@.len() ==> closing(#[trigger] completion@[i]),
        comp_score(completion@) <= u64::MAX,
    ensures
        r == comp_score(completion@),
{
    let s = completion.as_str();
    let n = s.unicode_len();
    let mut acc: u64 = 0;
    let mut i: usize = 0;
    while i < n
        invariant
            0 <= i <= n,
            s@ == completion@,
            n == completion@.len(),
            forall|j: int| 0 <= j < completion@.len() ==> closing(#[trigger] completion@[j]),
            comp_score(completion@) <= u64::MAX,
            acc == comp_score(completion@.subrange(0, i as int)),
        decreases n - i,
    {
        proof {
            let pre = completion@.subrange(0, i as int);
            let cur = completion@.subrange(0, i + 1);
            assert(cur.drop_last() =~= pre);
            assert(cur.last() == completion@[i as int]);
            lemma_comp_score_prefix(completion@, i + 1);
        }
        let c = s.get_char(i);
        let v: u64 = if c == ')' {
            1
        } else if c == ']' {
            2
        } else if c == '}' {
            3
        } else {
            4
        };
        acc = acc * 5 + v;
        i = i + 1;
    }
    proof {
        assert(completion@.subrange(0, n as int) =~= completion@);
    }
    acc
}

/// The score of a corrupted line's first wrong closer.
pub fn score_symbol(symbol: char) -> (r: u64)
    requires
        closing(symbol),
    ensures
        r == sym_score(symbol),
{
    match symbol {
        ')' => 3,
        ']' => 57,
        '}' => 1197,
        _ => 25137,
    }
}

/// One line's contribution to the corruption score.
pub open spec fn line_sym_score(l: Seq<char>) -> nat {
    match run_line(l, Seq::empty()) {
        LineModel::Corrupted(c) => sym_score(c),
        _ => 0,
    }
}

/// The corruption score of all lines together.
pub open spec fn corruption_total(lines: Seq<Seq<char>>) -> nat
    decreases lines.len(),
{
    if lines.len() == 0 {
        0
    } else {
        corruption_total(lines.drop_last()) + line_sym_score(lines.last())
    }
}

proof fn lemma_corruption_total_prefix(lines: Seq<Seq<char>>, k: int)
    requires
        0 <= k <= lines.len(),
    ensures
        corruption_total(lines.subrange(0, k)) <= corruption_total(lines),
    decreases lines.len() - k,
{
    if k < lines.len() {
        assert(lines.subrange(0, k + 1).drop_last() =~= lines.subrange(0, k));
        lemma_corruption_total_prefix(lines, k + 1);
    } else {
        assert(lines.subrange(0, k) =~= lines);
    }
}

/// Splits the input into lines.
pub fn input_generator(input: &str) -> (r: Vec<String>)
    ensures
        r.deep_view() == split_char(input@, '\n'),
{
    split_str(input, '\n')
}

/// The summed score of every corrupted line's first wrong closer.
pub fn part1(lines: &Vec<String>) -> (r: u64)
    requires
        forall|i: int| 0 <= i < lines@.len() ==> bracket_ok(#[trigger] lines.deep_view()[i]),
        corruption_total(lines.deep_view()) <= u64::MAX,
    ensures
        r == corruption_total(lines.deep_view()),
{
    let ghost dv = lines.deep_view();
    let n = lines.len();
    let mut acc: u64 = 0;
    let mut i: usize = 0;
    proof {
        assert(dv.subrange(0, 0) =~= Seq::<Seq<char>>::empty());
        assert(dv.len() == n);
    }
    while i < n
        invariant
            0 <= i <= n,
            n == lines@.len(),
            dv == lines.deep_view(),
            dv.len() == n,
            forall|j: int| 0 <= j < n ==> bracket_ok(#[trigger] dv[j]),
            corruption_total(dv) <= u64::MAX,
            acc == corruption_total(dv.subrange(0, i as int)),
        decreases n - i,
    {
        proof {
            assert(dv[i as int] == lines@[i as int]@);
            let pre = dv.subrange(0, i as int);
            let cur = dv.subrange(0, i + 1);
            assert(cur.drop_last() =~= pre);
            assert(cur.last() == dv[i as int]);
            lemma_corruption_total_prefix(dv, i + 1);
            lemma_run_line(dv[i as int], Seq::empty());
        }
        let analyzed = analyze(&lines[i]);
        match analyzed.corrupted() {
            Some(c) => {
                let v = score_symbol(c);
                acc = acc + v;
            },
            None => {
            },
        }
        i = i + 1;
    }
    proof {
        assert(dv.subrange(0, n as int) =~= dv);
    }
    acc
}

/// The completion scores of the incomplete lines, in line order.
pub open spec fn completion_scores(lines: Seq<Seq<char>>) -> Seq<nat>
    decreases lines.len(),
{
    if lines.len() == 0 {
        Seq::empty()
    } else {
        let rest = completion_scores(lines.drop_last());
        match run_line(lines.last(), Seq::empty()) {
            LineModel::Incomplete(st) => rest.push(comp_score(completion_of(st))),
            _ => rest,
        }
    }
}

/// Inserts a value into a sorted sequence, keeping it sorted.
pub open spec fn insert_sorted(x: nat, s: Seq<nat>) -> Seq<nat>
    decreases s.len(),
{
    if s.len() == 0 {
        seq![x]
    } else if x <= s[0] {
        seq![x] + s
    } else {
        seq![s[0]] + insert_sorted(x, s.drop_first())
    }
}

/// Insertion sort, one element at a time.
pub open spec fn sort_spec(s: Seq<nat>) -> Seq<nat>
    decreases s.len(),
{
    if s.len() == 0 {
        Seq::empty()
    } else {
        insert_sorted(s.last(), sort_spec(s.drop_last()))
    }
}

proof fn lemma_insert_sorted_len(x: nat, s: Seq<nat>)
    ensures
        insert_sorted(x, s).len() == s.len() + 1,
    decreases s.len(),
{
    if s.len() > 0 && !(x <= s[0]) {
        lemma_insert_sorted_len(x, s.drop_first());
    }
}

proof fn lemma_sort_spec_len(s: Seq<nat>)
    ensures
        sort_spec(s).len() == s.len(),
    decreases s.len(),
{
    if s.len() > 0 {
        lemma_sort_spec_len(s.drop_last());
        lemma_insert_sorted_len(s.last(), sort_spec(s.drop_last()));
    }
}

/// Where the scan found the first slot whose value is at least `x`, the
/// spec insertion lands exactly there.
proof fn lemma_insert_at(x: nat, s: Seq<nat>, idx: int)
    requires
        0 <= idx <= s.len(),
        forall|j: int| 0 <= j < idx ==> s[j] < x,
        idx < s.len() ==> x <= s[idx],
    ensures
        insert_sorted(x, s) == s.subrange(0, idx) + seq![x] + s.subrange(idx, s.len() as int),
    decreases idx,
{
    if idx == 0 {
        if s.len() == 0 {
            assert(insert_sorted(x, s) =~= s.subrange(0, 0) + seq![x] + s.subrange(0, 0));
        } else {
            assert(insert_sorted(x, s) =~= s.subrange(0, 0) + seq![x] + s.subrange(
                0,
                s.len() as int,
            ));
        }
    } else {
        let d = s.drop_first();
        assert(forall|j: int| 0 <= j < idx - 1 ==> d[j] == s[j + 1] && d[j] < x);
        lemma_insert_at(x, d, idx - 1);
        assert(seq![s[0]] + (d.subrange(0, idx - 1) + seq![x] + d.subrange(
            idx - 1,
            d.len() as int,
        )) =~= s.subrange(0, idx) + seq![x] + s.subrange(idx, s.len() as int));
    }
}

/// The middle completion score: the incomplete lines' scores are sorted and
/// the one halfway up wins.
pub fn part2(lines: &Vec<String>) -> (r: u64)
    requires
        forall|i: int| 0 <= i < lines@.len() ==> bracket_ok(#[trigger] lines.deep_view()[i]),
        forall|i: int|
            0 <= i < completion_scores(lines.deep_view()).len() ==> #[trigger] completion_scores(
                lines.deep_view(),
            )[i] <= u64::MAX,
        completion_scores(lines.deep_view()).len() > 0,
    ensures
        r == sort_spec(completion_scores(lines.deep_view()))[completion_scores(
            lines.deep_view(),
        ).len() as int / 2],
{
    let ghost dv = lines.deep_view();
    let n = lines.len();
    let mut sorted: Vec<u64> = Vec::new();
    let mut i: usize = 0;
    proof {
        assert(dv.subrange(0, 0) =~= Seq::<Seq<char>>::empty());
        assert(dv.len() == n);
        assert(sorted@.map_values(|x: u64| x as nat) =~= sort_spec(
            completion_scores(dv.subrange(0, 0)),
        ));
    }
    while i < n
        invariant
            0 <= i <= n,
            n == lines@.len(),
            dv == lines.deep_view(),
            dv.len() == n,
            forall|j: int| 0 <= j < n ==> bracket_ok(#[trigger] dv[j]),
            forall|j: int|
                0 <= j < completion_scores(dv).len() ==> #[trigger] completion_scores(dv)[j]
                    <= u64::MAX,
            sorted@.map_values(|x: u64| x as nat) == sort_spec(
                completion_scores(dv.subrange(0, i as int)),
            ),
        decreases n - i,
    {
        proof {
            assert(dv[i as int] == lines@[i as int]@);
            let pre = dv.subrange(0, i as int);
            let cur = dv.subrange(0, i + 1);
            assert(cur.drop_last() =~= pre);
            assert(cur.last() == dv[i as int]);
            lemma_run_line(dv[i as int], Seq::empty());
            lemma_completion_scores_prefix(dv, i + 1);
        }
        let analyzed = analyze(&lines[i]);
        match analyzed.incomplete() {
            Some(stack) => {
                proof {
                    let pre = dv.subrange(0, i as int);
                    let cur = dv.subrange(0, i + 1);
                    let x = comp_score(completion_of(stack@));
                    assert(completion_scores(cur) == completion_scores(pre).push(x));
                    assert(completion_scores(cur).drop_last() =~= completion_scores(pre));
                    let k0 = completion_scores(pre).len();
                    assert(completion_scores(cur)[k0 as int] == x);
                    assert(completion_scores(dv)[k0 as int] == x);
                    assert(x <= u64::MAX);
                }
                let completion = completion_string(stack);
                let sc = score_completion(completion);
                let m = sorted.len();
                let mut idx: usize = 0;
                while idx < m && sorted[idx] < sc
                    invariant
                        0 <= idx <= m,
                        m == sorted@.len(),
                        forall|j: int| 0 <= j < idx ==> sorted@[j] < sc,
                    decreases m - idx,
                {
                    idx = idx + 1;
                }
                proof {
                    let pre = dv.subrange(0, i as int);
                    let cur = dv.subrange(0, i + 1);
                    assert(completion_scores(cur).drop_last() =~= completion_scores(pre));
                    assert(completion_scores(cur).last() == sc as nat);
                    assert(sort_spec(completion_scores(cur)) == insert_sorted(
                        sc as nat,
                        sort_spec(completion_scores(pre)),
                    ));
                    let mapped = sorted@.map_values(|x: u64| x as nat);
                    assert(forall|j: int| 0 <= j < idx ==> mapped[j] < sc as nat);
                    lemma_insert_at(sc as nat, mapped, idx as int);
                    assert(sorted@.insert(idx as int, sc).map_values(|x: u64| x as nat) =~= mapped
                        .subrange(0, idx as int) + seq![sc as nat] + mapped.subrange(
                        idx as int,
                        mapped.len() as int,
                    ));
                }
                sorted.insert(idx, sc);
            },
            None => {
                proof {
                    let pre = dv.subrange(0, i as int);
                    let cur = dv.subrange(0, i + 1);
                    assert(completion_scores(cur) == completion_scores(pre));
                }
            },
        }
        i = i + 1;
    }
    proof {
        assert(dv.subrange(0, n as int) =~= dv);
        lemma_sort_spec_len(completion_scores(dv));
        assert(sorted@.map_values(|x: u64| x as nat).len() == sorted@.len());
    }
    let mid = sorted.len() / 2;
    let r = sorted[mid];
    proof {
        assert(sorted@.map_values(|x: u64| x as nat)[mid as int] == sorted@[mid as int] as nat);
    }
    r
}

/// A prefix of the lines contributes a prefix of the scores.
proof fn lemma_completion_scores_prefix(lines: Seq<Seq<char>>, k: int)
    requires
        0 <= k <= lines.len(),
    ensures
        completion_scores(lines.subrange(0, k)).len() <= completion_scores(lines).len(),
        forall|j: int|
            0 <= j < completion_scores(lines.subrange(0, k)).len()
                ==> #[trigger] completion_scores(lines.subrange(0, k))[j] == completion_scores(
                lines,
            )[j],
    decreases lines.len() - k,
{
    if k < lines.len() {
        let pre = lines.subrange(0, k);
        let cur = lines.subrange(0, k + 1);
        assert(cur.drop_last() =~= pre);
        assert(cur.last() == lines[k]);
        lemma_completion_scores_prefix(lines, k + 1);
        match run_line(lines[k], Seq::empty()) {
            LineModel::Incomplete(st) => {
                assert(completion_scores(cur) == completion_scores(pre).push(
                    comp_score(completion_of(st)),
                ));
            },
            _ => {
                assert(completion_scores(cur) == completion_scores(pre));
            },
        }
        assert forall|j: int| 0 <= j < completion_scores(pre).len() implies #[trigger] completion_scores(
            pre,
        )[j] == completion_scores(lines)[j] by {
            assert(completion_scores(pre)[j] == completion_scores(cur)[j]);
        }
    } else {
        assert(lines.subrange(0, k) =~= lines);
    }
}

} // verus!
