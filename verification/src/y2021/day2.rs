//! Dive: driving the submarine by `up`, `down` and `forward` commands, with
//! two readings of what the numbers mean.

use crate::text::NumError;
use crate::text::dec_val;
use crate::text::find_char;
use crate::text::find_char_str;
use crate::text::is_dec;
use crate::text::lemma_find_char;
use crate::text::parse_u64;
use crate::text::split_char;
use crate::text::split_str;
use crate::text::str_eq;
use vstd::prelude::*;
use vstd::string::StrSliceExecFns;

verus! {

/// Why a command line is rejected.
#[derive(Debug, PartialEq, Eq, Structural, Clone, Copy)]
pub enum ParseError {
    /// The line has no parameter or an unknown direction word.
    InvalidCmd,
    /// The parameter is not a number the machine can hold.
    Parse(NumError),
}

impl ParseError {
    /// A human-readable description of the error.
    pub fn message(&self) -> (r: String)
        ensures
            *self == ParseError::InvalidCmd ==> r@ == "Invalid command"@,
            *self == ParseError::Parse(NumError::InvalidDigit) ==> r@
                == "Failed to parse command parameter: invalid digit found in string"@,
            *self == ParseError::Parse(NumError::Overflow) ==> r@
                == "Failed to parse command parameter: number too large to fit in target type"@,
    {
        match self {
            ParseError::InvalidCmd => "Invalid command".to_owned(),
            ParseError::Parse(NumError::InvalidDigit) => {
                "Failed to parse command parameter: invalid digit found in string".to_owned()
            },
            ParseError::Parse(NumError::Overflow) => {
                "Failed to parse command parameter: number too large to fit in target type".to_owned()
            },
        }
    }
}

/// One submarine command.
#[derive(Debug, PartialEq, Eq, Structural, Clone, Copy)]
pub enum Cmd {
    Up(u64),
    Down(u64),
    Forward(u64),
}

/// What reading one command line yields: the word before the first space
/// picks the direction, the rest must be a decimal number.
pub open spec fn spec_parse_cmd(s: Seq<char>) -> Result<Cmd, ParseError> {
    let i = find_char(s, ' ');
    if i < 0 {
        Err(ParseError::InvalidCmd)
    } else {
        let dir = s.subrange(0, i);
        let amt = s.subrange(i + 1, s.len() as int);
        if !is_dec(amt) {
            Err(ParseError::Parse(NumError::InvalidDigit))
        } else if dec_val(amt) > u64::MAX {
            Err(ParseError::Parse(NumError::Overflow))
        } else if dir == "up"@ {
            Ok(Cmd::Up(dec_val(amt) as u64))
        } else if dir == "down"@ {
            Ok(Cmd::Down(dec_val(amt) as u64))
        } else if dir == "forward"@ {
            Ok(Cmd::Forward(dec_val(amt) as u64))
        } else {
            Err(ParseError::InvalidCmd)
        }
    }
}

impl Cmd {
    /// Reads one command of the form `<direction> <amount>`.
    pub fn parse(s: &str) -> (r: Result<Cmd, ParseError>)
        ensures
            r == spec_parse_cmd(s@),
    {
        let n = s.unicode_len();
        match find_char_str(s, ' ') {
            None => Err(ParseError::InvalidCmd),
            Some(k) => {
                proof {
                    lemma_find_char(s@, ' ');
                }
                let dir = s.substring_char(0, k);
                let amt = s.substring_char(k + 1, n);
                match parse_u64(amt) {
                    Err(e) => Err(ParseError::Parse(e)),
                    Ok(v) => {
                        if str_eq(dir, "up") {
                            Ok(Cmd::Up(v))
                        } else if str_eq(dir, "down") {
                            Ok(Cmd::Down(v))
                        } else if str_eq(dir, "forward") {
                            Ok(Cmd::Forward(v))
                        } else {
                            Err(ParseError::InvalidCmd)
                        }
                    },
                }
            },
        }
    }
}

/// Reading a list of command lines stops at the first bad line.
pub open spec fn parse_cmds(pieces: Seq<Seq<char>>) -> Result<Seq<Cmd>, ParseError>
    decreases pieces.len(),
{
    if pieces.len() == 0 {
        Ok(Seq::empty())
    } else {
        match spec_parse_cmd(pieces[0]) {
            Err(e) => Err(e),
            Ok(c) => match parse_cmds(pieces.drop_first()) {
                Err(e) => Err(e),
                Ok(rest) => Ok(seq![c] + rest),
            },
        }
    }
}

spec fn glue_cmds(prefix: Seq<Cmd>, rest: Result<Seq<Cmd>, ParseError>) -> Result<
    Seq<Cmd>,
    ParseError,
> {
    match rest {
        Ok(s) => Ok(prefix + s),
        Err(e) => Err(e),
    }
}

proof fn lemma_glue_cmds_assoc(a: Seq<Cmd>, b: Seq<Cmd>, x: Result<Seq<Cmd>, ParseError>)
    ensures
        glue_cmds(a, glue_cmds(b, x)) == glue_cmds(a + b, x),
{
    match x {
        Ok(s) => {
            assert(a + (b + s) =~= (a + b) + s);
        },
        Err(_) => {
        },
    }
}

/// Reads one command per line, stopping at the first bad line.
pub fn input_generator(input: &str) -> (r: Result<Vec<Cmd>, ParseError>)
    ensures
        match r {
            Ok(v) => parse_cmds(split_char(input@, '\n')) == Ok::<Seq<Cmd>, ParseError>(v@),
            Err(e) => parse_cmds(split_char(input@, '\n')) == Err::<Seq<Cmd>, ParseError>(e),
        },
{
    let ghost all = split_char(input@, '\n');
    let pieces = split_str(input, '\n');
    let n = pieces.len();
    let mut cmds: Vec<Cmd> = Vec::new();
    let mut i: usize = 0;
    proof {
        assert(all.subrange(0, n as int) =~= all);
        assert(cmds@ + Seq::<Cmd>::empty() =~= cmds@);
    }
    while i < n
        invariant
            0 <= i <= n,
            n == pieces@.len(),
            pieces.deep_view() =~= all,
            all == split_char(input@, '\n'),
            glue_cmds(cmds@, parse_cmds(all.subrange(i as int, n as int))) == parse_cmds(all),
        decreases n - i,
    {
        proof {
            assert(pieces.deep_view()[i as int] == pieces@[i as int]@);
            assert(all.subrange(i as int, n as int)[0] == all[i as int]);
            assert(all.subrange(i as int, n as int).drop_first() =~= all.subrange(
                i + 1,
                n as int,
            ));
        }
        match Cmd::parse(pieces[i].as_str()) {
            Err(e) => {
                return Err(e);
            },
            Ok(c) => {
                proof {
                    lemma_glue_cmds_assoc(
                        cmds@,
                        seq![c],
                        parse_cmds(all.subrange(i + 1, n as int)),
                    );
                    assert(cmds@ + seq![c] =~= cmds@.push(c));
                }
                cmds.push(c);
            },
        }
        i = i + 1;
    }
    proof {
        assert(all.subrange(n as int, n as int) =~= Seq::<Seq<char>>::empty());
        assert(cmds@ + Seq::<Cmd>::empty() =~= cmds@);
    }
    Ok(cmds)
}

/// Total forward distance of a command list.
pub open spec fn forward_sum(s: Seq<Cmd>) -> int
    decreases s.len(),
{
    if s.len() == 0 {
        0
    } else {
        forward_sum(s.drop_last()) + match s.last() {
            Cmd::Forward(x) => x as int,
            _ => 0,
        }
    }
}

/// Depth after a command list when `up` and `down` move the submarine.
pub open spec fn depth_after(s: Seq<Cmd>) -> int
    decreases s.len(),
{
    if s.len() == 0 {
        0
    } else {
        depth_after(s.drop_last()) + match s.last() {
            Cmd::Up(x) => -(x as int),
            Cmd::Down(x) => x as int,
            Cmd::Forward(_) => 0,
        }
    }
}

/// Depth after a command list when `up` and `down` steer the aim and
/// `forward` dives by the aim times the distance.
pub open spec fn aimed_depth_after(s: Seq<Cmd>) -> int
    decreases s.len(),
{
    if s.len() == 0 {
        0
    } else {
        aimed_depth_after(s.drop_last()) + match s.last() {
            Cmd::Forward(x) => depth_after(s.drop_last()) * (x as int),
            _ => 0,
        }
    }
}

/// The running position and depth stay inside the machine's range, and the
/// depth never goes above the surface.
pub open spec fn part1_ok(s: Seq<Cmd>) -> bool {
    &&& (forall|k: int|
        0 <= k <= s.len() ==> 0 <= #[trigger] depth_after(s.subrange(0, k)) <= u64::MAX)
    &&& (forall|k: int|
        0 <= k <= s.len() ==> 0 <= #[trigger] forward_sum(s.subrange(0, k)) <= u64::MAX)
    &&& forward_sum(s) * depth_after(s) <= u64::MAX
}

/// Final horizontal position times final depth, reading `up` and `down` as
/// direct depth changes.
pub fn part1(commands: &Vec<Cmd>) -> (r: u64)
    requires
        part1_ok(commands@),
    ensures
        r == forward_sum(commands@) * depth_after(commands@),
{
    let mut h: u64 = 0;
    let mut d: u64 = 0;
    let n = commands.len();
    let mut i: usize = 0;
    proof {
        assert(commands@.subrange(0, 0) =~= Seq::<Cmd>::empty());
    }
    while i < n
        invariant
            0 <= i <= n,
            n == commands@.len(),
            part1_ok(commands@),
            h == forward_sum(commands@.subrange(0, i as int)),
            d == depth_after(commands@.subrange(0, i as int)),
        decreases n - i,
    {
        proof {
            let pre = commands@.subrange(0, i as int);
            let cur = commands@.subrange(0, i + 1);
            assert(cur.drop_last() =~= pre);
            assert(cur.last() == commands@[i as int]);
            assert(0 <= depth_after(cur) <= u64::MAX);
            assert(0 <= forward_sum(cur) <= u64::MAX);
        }
        match commands[i] {
            Cmd::Up(x) => {
                d = d - x;
            },
            Cmd::Down(x) => {
                d = d + x;
            },
            Cmd::Forward(x) => {
                h = h + x;
            },
        }
        i = i + 1;
    }
    proof {
        assert(commands@.subrange(0, n as int) =~= commands@);
    }
    h * d
}

/// As `part1_ok`, with the aimed depth in range as well.
pub open spec fn part2_ok(s: Seq<Cmd>) -> bool {
    &&& (forall|k: int|
        0 <= k <= s.len() ==> 0 <= #[trigger] depth_after(s.subrange(0, k)) <= u64::MAX)
    &&& (forall|k: int|
        0 <= k <= s.len() ==> 0 <= #[trigger] forward_sum(s.subrange(0, k)) <= u64::MAX)
    &&& (forall|k: int|
        0 <= k <= s.len() ==> 0 <= #[trigger] aimed_depth_after(s.subrange(0, k)) <= u64::MAX)
    &&& forward_sum(s) * aimed_depth_after(s) <= u64::MAX
}

/// Final horizontal position times final depth, reading `up` and `down` as
/// aim changes.
pub fn part2(commands: &Vec<Cmd>) -> (r: u64)
    requires
        part2_ok(commands@),
    ensures
        r == forward_sum(commands@) * aimed_depth_after(commands@),
{
    let mut h: u64 = 0;
    let mut d: u64 = 0;
    let mut aim: u64 = 0;
    let n = commands.len();
    let mut i: usize = 0;
    proof {
        assert(commands@.subrange(0, 0) =~= Seq::<Cmd>::empty());
    }
    while i < n
        invariant
            0 <= i <= n,
            n == commands@.len(),
            part2_ok(commands@),
            h == forward_sum(commands@.subrange(0, i as int)),
            aim == depth_after(commands@.subrange(0, i as int)),
            d == aimed_depth_after(commands@.subrange(0, i as int)),
        decreases n - i,
    {
        proof {
            let pre = commands@.subrange(0, i as int);
            let cur = commands@.subrange(0, i + 1);
            assert(cur.drop_last() =~= pre);
            assert(cur.last() == commands@[i as int]);
            assert(0 <= depth_after(cur) <= u64::MAX);
            assert(0 <= forward_sum(cur) <= u64::MAX);
            assert(0 <= aimed_depth_after(cur) <= u64::MAX);
        }
        match commands[i] {
            Cmd::Up(x) => {
                aim = aim - x;
            },
            Cmd::Down(x) => {
                aim = aim + x;
            },
            Cmd::Forward(x) => {
                h = h + x;
                d = d + aim * x;
            },
        }
        i = i + 1;
    }
    proof {
        assert(commands@.subrange(0, n as int) =~= commands@);
    }
    h * d
}

} // verus!
