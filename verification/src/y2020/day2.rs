//! Password philosophy: each line names a count range, a letter, and a
//! password; two policies disagree about what the numbers mean.

use crate::text::dec_val;
use crate::text::is_dec;
use crate::text::parse_u64;
use crate::text::split_char;
use crate::text::split_str;
use vstd::prelude::*;
use vstd::string::StrSliceExecFns;

verus! {

/// A rule line that could not be read.
#[derive(Debug, Clone, PartialEq, Eq, Structural, Copy)]
pub struct ParseError;

/// One password rule: a range, a letter, and the password itself.
#[derive(Debug)]
pub struct Password {
    pub start: u8,
    pub end: u8,
    pub letter: char,
    pub password: String,
}

/// What a policy offers: a verdict, and the password back when it passes.
pub trait IsValid {
    fn is_valid(&self) -> bool;

    fn filter_valid(&self) -> Option<&Self> where Self: Sized;
}

/// True when the rule line parses: `<start>-<end> <letter>: <password>`,
/// with the range fitting in eight bits and a single letter before the
/// colon.
pub open spec fn rule_ok(s: Seq<char>) -> bool {
    let parts = split_char(s, ' ');
    let range = split_char(parts[0], '-');
    &&& is_dec(range[0]) && dec_val(range[0]) <= 255
    &&& is_dec(range[1]) && dec_val(range[1]) <= 255
    &&& parts[1].len() == 2 && parts[1][1] == ':'
}

impl Password {
    /// Reads one rule line.  The line must have its three space-separated
    /// parts and a dash in the first; the rest is checked and reported.
    pub fn from_str(rule: &str) -> (r: Result<Password, ParseError>)
        requires
            split_char(rule@, ' ').len() >= 3,
            split_char(split_char(rule@, ' ')[0], '-').len() >= 2,
        ensures
            match r {
                Ok(p) => {
                    &&& rule_ok(rule@)
                    &&& p.start == dec_val(split_char(split_char(rule@, ' ')[0], '-')[0])
                    &&& p.end == dec_val(split_char(split_char(rule@, ' ')[0], '-')[1])
                    &&& p.letter == split_char(rule@, ' ')[1][0]
                    &&& p.password@ == split_char(rule@, ' ')[2]
                },
                Err(_) => !rule_ok(rule@),
            },
    {
        let parts = split_str(rule, ' ');
        proof {
            assert(parts.deep_view()[0] == parts@[0]@);
            assert(parts.deep_view()[1] == parts@[1]@);
            assert(parts.deep_view()[2] == parts@[2]@);
        }
        let range = split_str(parts[0].as_str(), '-');
        proof {
            assert(range.deep_view()[0] == range@[0]@);
            assert(range.deep_view()[1] == range@[1]@);
        }
        let start = match parse_u64(range[0].as_str()) {
            Ok(v) => if v <= 255 {
                v as u8
            } else {
                return Err(ParseError);
            },
            Err(_) => {
                return Err(ParseError);
            },
        };
        let end = match parse_u64(range[1].as_str()) {
            Ok(v) => if v <= 255 {
                v as u8
            } else {
                return Err(ParseError);
            },
            Err(_) => {
                return Err(ParseError);
            },
        };
        let tag = parts[1].as_str();
        let tlen = tag.unicode_len();
        if tlen != 2 {
            return Err(ParseError);
        }
        if tag.get_char(1) != ':' {
            return Err(ParseError);
        }
        let letter = tag.get_char(0);
        let password = parts[2].as_str().to_owned();
        Ok(Password { start, end, letter, password })
    }
}

/// How often `c` occurs in `s`.
pub open spec fn count_ch(s: Seq<char>, c: char) -> int
    decreases s.len(),
{
    if s.len() == 0 {
        0
    } else {
        count_ch(s.drop_last(), c) + if s.last() == c {
            1int
        } else {
            0int
        }
    }
}

/// How often the rule's letter occurs in the password.
pub fn count_letter(pw: &Password) -> (r: usize)
    requires
        pw.password@.len() <= usize::MAX,
    ensures
        r == count_ch(pw.password@, pw.letter),
{
    let s = pw.password.as_str();
    let n = s.unicode_len();
    let mut count: usize = 0;
    let mut i: usize = 0;
    proof {
        assert(pw.password@.subrange(0, 0) =~= Seq::<char>::empty());
    }
    while i < n
        invariant
            0 <= i <= n,
            s@ == pw.password@,
            n == pw.password@.len(),
            count == count_ch(pw.password@.subrange(0, i as int), pw.letter),
            count <= i,
        decreases n - i,
    {
        proof {
            let pre = pw.password@.subrange(0, i as int);
            let cur = pw.password@.subrange(0, i + 1);
            assert(cur.drop_last() =~= pre);
            assert(cur.last() == pw.password@[i as int]);
        }
        if s.get_char(i) == pw.letter {
            count = count + 1;
        }
        i = i + 1;
    }
    proof {
        assert(pw.password@.subrange(0, n as int) =~= pw.password@);
    }
    count
}

} // verus!
