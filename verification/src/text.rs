//! Shared helpers for the line-oriented puzzle inputs: splitting a string on a
//! separator character and reading unsigned decimal numbers.

use vstd::prelude::*;
use vstd::string::StrSliceExecFns;
use vstd::string::StringExecFns;

verus! {

/// True when `c` is a decimal digit.
pub open spec fn is_digit(c: char) -> bool {
    '0' <= c && c <= '9'
}

/// Numeric value of a single decimal digit.
pub open spec fn digit_val(c: char) -> nat {
    (c as int - '0' as int) as nat
}

/// True when `s` is a non-empty string of decimal digits.
pub open spec fn is_dec(s: Seq<char>) -> bool {
    s.len() > 0 && forall|i: int| 0 <= i < s.len() ==> is_digit(s[i])
}

/// Numeric value of a digit string, most significant digit first.
pub open spec fn dec_val(s: Seq<char>) -> nat
    decreases s.len(),
{
    if s.len() == 0 {
        0
    } else {
        dec_val(s.drop_last()) * 10 + digit_val(s.last())
    }
}

/// Failure modes of `parse_u64`, mirroring the reasons `str::parse` rejects a
/// string.
#[derive(Debug, PartialEq, Eq, Structural, Clone, Copy)]
pub enum NumError {
    InvalidDigit,
    Overflow,
}

/// Reads a non-empty decimal digit string as a `u64`.
pub fn parse_u64(s: &str) -> (r: Result<u64, NumError>)
    ensures
        match r {
            Ok(v) => is_dec(s@) && dec_val(s@) <= u64::MAX && v == dec_val(s@),
            Err(NumError::InvalidDigit) => !is_dec(s@),
            Err(NumError::Overflow) => is_dec(s@) && dec_val(s@) > u64::MAX,
        },
{
    let n = s.unicode_len();
    if n == 0 {
        return Err(NumError::InvalidDigit);
    }
    let mut acc: u64 = 0;
    let mut overflowed = false;
    let ghost mut exact: nat = 0nat;
    let mut i: usize = 0;
    while i < n
        invariant
            0 <= i <= n,
            n == s@.len(),
            forall|j: int| 0 <= j < i ==> is_digit(s@[j]),
            exact == dec_val(s@.subrange(0, i as int)),
            !overflowed ==> acc == exact,
            overflowed ==> exact > u64::MAX,
        decreases n - i,
    {
        let c = s.get_char(i);
        if !('0' <= c && c <= '9') {
            assert(!is_digit(s@[i as int]));
            return Err(NumError::InvalidDigit);
        }
        let d: u64 = (c as u32 - '0' as u32) as u64;
        assert(d == digit_val(s@[i as int]));
        proof {
            assert(s@.subrange(0, i + 1).drop_last() =~= s@.subrange(0, i as int));
            exact = exact * 10 + digit_val(s@[i as int]);
        }
        if !overflowed {
            match acc.checked_mul(10) {
                Some(t) => {
                    match t.checked_add(d) {
                        Some(u) => {
                            acc = u;
                        },
                        None => {
                            overflowed = true;
                        },
                    }
                },
                None => {
                    overflowed = true;
                },
            }
        }
        i = i + 1;
    }
    assert(s@.subrange(0, n as int) =~= s@);
    if overflowed {
        Err(NumError::Overflow)
    } else {
        Ok(acc)
    }
}

/// The number a string spells in binary when `one` marks a one bit.
pub open spec fn bin_of(s: Seq<char>, one: char) -> nat
    decreases s.len(),
{
    if s.len() == 0 {
        0
    } else {
        bin_of(s.drop_last(), one) * 2 + if s.last() == one {
            1nat
        } else {
            0nat
        }
    }
}

/// True when two strings hold the same characters.
pub fn str_eq(a: &str, b: &str) -> (r: bool)
    ensures
        r == (a@ == b@),
{
    let n = a.unicode_len();
    let m = b.unicode_len();
    if n != m {
        return false;
    }
    let mut i: usize = 0;
    while i < n
        invariant
            0 <= i <= n,
            n == a@.len(),
            n == b@.len(),
            forall|j: int| 0 <= j < i ==> a@[j] == b@[j],
        decreases n - i,
    {
        if a.get_char(i) != b.get_char(i) {
            return false;
        }
        i = i + 1;
    }
    proof {
        assert(a@ =~= b@);
    }
    true
}

/// Index of the first occurrence of `c` in `s`, or -1 when `c` does not occur.
pub open spec fn find_char(s: Seq<char>, c: char) -> int
    decreases s.len(),
{
    if s.len() == 0 {
        -1
    } else if s[0] == c {
        0
    } else {
        let r = find_char(s.drop_first(), c);
        if r < 0 {
            -1
        } else {
            r + 1
        }
    }
}

pub proof fn lemma_find_char(s: Seq<char>, c: char)
    ensures
        find_char(s, c) == -1 || (0 <= find_char(s, c) < s.len()),
        find_char(s, c) == -1 ==> forall|j: int| 0 <= j < s.len() ==> s[j] != c,
        find_char(s, c) >= 0 ==> s[find_char(s, c)] == c,
        find_char(s, c) >= 0 ==> forall|j: int| 0 <= j < find_char(s, c) ==> s[j] != c,
    decreases s.len(),
{
    if s.len() > 0 && s[0] != c {
        lemma_find_char(s.drop_first(), c);
        assert(forall|j: int| 1 <= j < s.len() ==> s[j] == s.drop_first()[j - 1]);
    }
}

/// Finds the first occurrence of `c` in `s`, as `find_char` describes it.
pub fn find_char_str(s: &str, c: char) -> (r: Option<usize>)
    ensures
        match r {
            Some(k) => k == find_char(s@, c),
            None => find_char(s@, c) == -1,
        },
{
    let n = s.unicode_len();
    let mut i: usize = 0;
    while i < n
        invariant
            0 <= i <= n,
            n == s@.len(),
            forall|j: int| 0 <= j < i ==> s@[j] != c,
        decreases n - i,
    {
        if s.get_char(i) == c {
            proof {
                lemma_find_char(s@, c);
            }
            return Some(i);
        }
        i = i + 1;
    }
    proof {
        lemma_find_char(s@, c);
    }
    None
}

/// The pieces of `s` between occurrences of the separator `c`; an empty
/// string yields one empty piece, as `str::split` does.
pub open spec fn split_char(s: Seq<char>, c: char) -> Seq<Seq<char>>
    decreases s.len(),
{
    let i = find_char(s, c);
    if i < 0 || i >= s.len() {
        seq![s]
    } else {
        seq![s.subrange(0, i)] + split_char(s.subrange(i + 1, s.len() as int), c)
    }
}

pub proof fn lemma_split_char_no_sep(s: Seq<char>, c: char)
    requires
        forall|j: int| 0 <= j < s.len() ==> s[j] != c,
    ensures
        split_char(s, c) =~= seq![s],
{
    lemma_find_char(s, c);
    if find_char(s, c) >= 0 {
        assert(s[find_char(s, c)] == c);
    }
}

/// Unfolds `split_char` at the first separator: if `s[i] == c` and no earlier
/// character equals `c`, the first piece is `s[..i]`.
pub proof fn lemma_split_char_step(s: Seq<char>, c: char, i: int)
    requires
        0 <= i < s.len(),
        s[i] == c,
        forall|j: int| 0 <= j < i ==> s[j] != c,
    ensures
        split_char(s, c) =~= seq![s.subrange(0, i)] + split_char(
            s.subrange(i + 1, s.len() as int),
            c,
        ),
    decreases s.len(),
{
    lemma_find_char(s, c);
    if find_char(s, c) < i {
        assert(s[find_char(s, c)] == c);
        assert(false);
    } else if find_char(s, c) > i {
        assert(s[i] != c);
        assert(false);
    }
}

/// A property of every non-separator character carries over to the
/// characters of every piece of the split.
pub proof fn lemma_split_char_pieces(s: Seq<char>, c: char, p: spec_fn(char) -> bool)
    requires
        forall|k: int| 0 <= k < s.len() && s[k] != c ==> p(#[trigger] s[k]),
    ensures
        forall|i: int, j: int|
            0 <= i < split_char(s, c).len() && 0 <= j < split_char(s, c)[i].len() ==> p(
                #[trigger] split_char(s, c)[i][j],
            ),
    decreases s.len(),
{
    lemma_find_char(s, c);
    let f = find_char(s, c);
    if 0 <= f < s.len() {
        let rest = s.subrange(f + 1, s.len() as int);
        lemma_split_char_pieces(rest, c, p);
        assert(forall|j: int| 0 <= j < f ==> split_char(s, c)[0][j] == s[j]);
        assert(forall|i: int|
            1 <= i < split_char(s, c).len() ==> #[trigger] split_char(s, c)[i] == split_char(
                rest,
                c,
            )[i - 1]);
    }
}

/// Index of the first blank line separator (two newlines in a row), or -1.
pub open spec fn find_blank(s: Seq<char>) -> int
    decreases s.len(),
{
    if s.len() < 2 {
        -1
    } else if s[0] == '\n' && s[1] == '\n' {
        0
    } else {
        let r = find_blank(s.drop_first());
        if r < 0 {
            -1
        } else {
            r + 1
        }
    }
}

pub proof fn lemma_find_blank(s: Seq<char>)
    ensures
        find_blank(s) == -1 || 0 <= find_blank(s) < s.len() - 1,
        find_blank(s) >= 0 ==> s[find_blank(s)] == '\n' && s[find_blank(s) + 1] == '\n',
        find_blank(s) >= 0 ==> forall|j: int|
            0 <= j < find_blank(s) ==> !(#[trigger] s[j] == '\n' && s[j + 1] == '\n'),
        find_blank(s) == -1 ==> forall|j: int|
            0 <= j < s.len() - 1 ==> !(#[trigger] s[j] == '\n' && s[j + 1] == '\n'),
    decreases s.len(),
{
    if s.len() >= 2 && !(s[0] == '\n' && s[1] == '\n') {
        lemma_find_blank(s.drop_first());
        assert(forall|j: int| 1 <= j < s.len() ==> s[j] == s.drop_first()[j - 1]);
    }
}

/// Finds the first blank line, as `find_blank` describes it.
pub fn find_blank_str(s: &str) -> (r: Option<usize>)
    ensures
        match r {
            Some(k) => k == find_blank(s@),
            None => find_blank(s@) == -1,
        },
{
    let n = s.unicode_len();
    if n < 2 {
        proof {
            lemma_find_blank(s@);
        }
        return None;
    }
    let mut i: usize = 0;
    while i < n - 1
        invariant
            0 <= i <= n - 1,
            n == s@.len(),
            n >= 2,
            forall|j: int| 0 <= j < i ==> !(#[trigger] s@[j] == '\n' && s@[j + 1] == '\n'),
        decreases n - i,
    {
        if s.get_char(i) == '\n' && s.get_char(i + 1) == '\n' {
            proof {
                lemma_find_blank(s@);
            }
            return Some(i);
        }
        i = i + 1;
    }
    proof {
        lemma_find_blank(s@);
    }
    None
}

/// The pieces of `s` between blank lines (two newlines in a row); a string
/// without a blank line is one piece.
pub open spec fn split_blank(s: Seq<char>) -> Seq<Seq<char>>
    decreases s.len(),
{
    let i = find_blank(s);
    if i < 0 || i + 2 > s.len() {
        seq![s]
    } else {
        seq![s.subrange(0, i)] + split_blank(s.subrange(i + 2, s.len() as int))
    }
}

/// Splits `s` at every blank line.
pub fn split_blank_str(s: &str) -> (r: Vec<String>)
    ensures
        r.deep_view() =~= split_blank(s@),
{
    let mut pieces: Vec<String> = Vec::new();
    let mut rest: &str = s;
    loop
        invariant
            split_blank(s@) =~= pieces.deep_view() + split_blank(rest@),
        decreases rest@.len(),
    {
        proof {
            lemma_find_blank(rest@);
        }
        let ghost old_pieces = pieces.deep_view();
        let ghost old_rest = rest@;
        let n = rest.unicode_len();
        match find_blank_str(rest) {
            Some(k) => {
                let piece = rest.substring_char(0, k).to_owned();
                pieces.push(piece);
                rest = rest.substring_char(k + 2, n);
                proof {
                    assert(old_pieces + (seq![old_rest.subrange(0, k as int)] + split_blank(
                        rest@,
                    )) =~= pieces.deep_view() + split_blank(rest@));
                }
            },
            None => {
                let piece = rest.to_owned();
                pieces.push(piece);
                proof {
                    assert(old_pieces + seq![old_rest] =~= pieces.deep_view());
                    assert(pieces.deep_view() + Seq::<Seq<char>>::empty() =~= pieces.deep_view());
                    assert(split_blank(s@) =~= pieces.deep_view());
                }
                return pieces;
            },
        }
    }
}

/// The lines of `s`: the pieces between newlines, without the empty piece a
/// trailing newline would leave.
pub open spec fn str_lines(s: Seq<char>) -> Seq<Seq<char>> {
    let p = split_char(s, '\n');
    if p.len() > 0 && p.last().len() == 0 {
        p.drop_last()
    } else {
        p
    }
}

/// Splits `s` into lines, dropping the empty piece after a trailing newline.
pub fn lines_str(s: &str) -> (r: Vec<String>)
    ensures
        r.deep_view() =~= str_lines(s@),
{
    let mut pieces = split_str(s, '\n');
    let m = pieces.len();
    proof {
        assert(pieces.deep_view().len() == pieces@.len());
        assert(split_char(s@, '\n').len() > 0) by {
            lemma_find_char(s@, '\n');
        }
        assert(pieces.deep_view()[m - 1] == pieces@[m - 1]@);
    }
    if pieces[m - 1].as_str().is_empty() {
        pieces.pop();
        proof {
            assert(pieces.deep_view() =~= str_lines(s@));
        }
    }
    pieces
}

/// The space-separated words of a line.
pub open spec fn words_of(l: Seq<char>) -> Seq<Seq<char>>
    decreases l.len(),
{
    non_empty(split_char(l, ' '))
}

/// The pieces that are not empty.
pub open spec fn non_empty(pieces: Seq<Seq<char>>) -> Seq<Seq<char>>
    decreases pieces.len(),
{
    if pieces.len() == 0 {
        Seq::empty()
    } else {
        let rest = non_empty(pieces.drop_last());
        if pieces.last().len() > 0 {
            rest.push(pieces.last())
        } else {
            rest
        }
    }
}

/// The words of a line, in order.
pub fn words_str(l: &str) -> (r: Vec<String>)
    ensures
        r.deep_view() =~~= words_of(l@),
{
    let pieces = split_str(l, ' ');
    let n = pieces.len();
    let mut out: Vec<String> = Vec::new();
    let mut i: usize = 0;
    proof {
        assert(split_char(l@, ' ').subrange(0, 0) =~~= Seq::<Seq<char>>::empty());
        assert(out.deep_view() =~~= non_empty(split_char(l@, ' ').subrange(0, 0)));
    }
    while i < n
        invariant
            0 <= i <= n,
            n == pieces@.len(),
            pieces.deep_view() =~~= split_char(l@, ' '),
            out.deep_view() =~~= non_empty(split_char(l@, ' ').subrange(0, i as int)),
        decreases n - i,
    {
        proof {
            let all = split_char(l@, ' ');
            assert(pieces.deep_view()[i as int] == pieces@[i as int]@);
            let pre = all.subrange(0, i as int);
            let cur = all.subrange(0, i + 1);
            assert(cur.drop_last() =~~= pre);
            assert(cur.last() == all[i as int]);
        }
        if !pieces[i].as_str().is_empty() {
            let w = pieces[i].clone();
            out.push(w);
        }
        i = i + 1;
    }
    proof {
        assert(split_char(l@, ' ').subrange(0, split_char(l@, ' ').len() as int) =~~= split_char(
            l@,
            ' ',
        ));
    }
    out
}

/// Splits `s` at every occurrence of the separator `c`.
pub fn split_str(s: &str, c: char) -> (r: Vec<String>)
    ensures
        r.deep_view() =~= split_char(s@, c),
{
    let n = s.unicode_len();
    let mut pieces: Vec<String> = Vec::new();
    let mut start: usize = 0;
    let mut i: usize = 0;
    proof {
        assert(s@.subrange(0, n as int) =~= s@);
        assert(pieces.deep_view() =~= Seq::<Seq<char>>::empty());
    }
    while i < n
        invariant
            0 <= start <= i <= n,
            n == s@.len(),
            forall|j: int| start <= j < i ==> s@[j] != c,
            split_char(s@, c) =~= pieces.deep_view() + split_char(
                s@.subrange(start as int, n as int),
                c,
            ),
        decreases n - i,
    {
        let ch = s.get_char(i);
        if ch == c {
            let piece = s.substring_char(start, i).to_owned();
            proof {
                let rest = s@.subrange(start as int, n as int);
                lemma_split_char_step(rest, c, i - start);
                assert(rest.subrange(0, i - start) =~= s@.subrange(start as int, i as int));
                assert(rest.subrange(i - start + 1, rest.len() as int) =~= s@.subrange(
                    i + 1,
                    n as int,
                ));
            }
            pieces.push(piece);
            start = i + 1;
        }
        i = i + 1;
    }
    let last = s.substring_char(start, n).to_owned();
    proof {
        let rest = s@.subrange(start as int, n as int);
        lemma_split_char_no_sep(rest, c);
    }
    pieces.push(last);
    pieces
}

} // verus!
