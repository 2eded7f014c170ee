//! Binary boarding: a ten-letter pass names a seat by successive halving,
//! `B`/`F` over the rows and `R`/`L` over the columns.

use crate::text::bin_of;
use vstd::arithmetic::power2::lemma2_to64;
use vstd::arithmetic::power2::lemma_pow2_unfold;
use vstd::arithmetic::power2::pow2;
use vstd::prelude::*;
use vstd::string::StrSliceExecFns;

verus! {

/// A boarding pass that could not be read.
#[derive(Debug, PartialEq, Eq, Structural, Clone, Copy)]
pub struct ParseError;

/// A boarding pass: the raw string, and the decoded row, column and seat id
/// once `find` has run.
#[derive(Debug, PartialEq, Eq)]
pub struct Seat {
    pub source: String,
    pub row: u8,
    pub column: u8,
    pub seat: u16,
}

impl Default for Seat {
    /// An undecoded seat with an empty pass.
    fn default() -> (r: Seat)
        ensures
            r.source@ == Seq::<char>::empty(),
            r.row == 0,
            r.column == 0,
            r.seat == 0,
    {
        Seat { source: String::new(), row: 0, column: 0, seat: 0 }
    }
}

/// True when `s` is a well-formed pass: ten characters, the first seven
/// `B` or `F`, the last three `L` or `R`.
pub open spec fn pass_ok(s: Seq<char>) -> bool {
    &&& s.len() == 10
    &&& (forall|i: int| 0 <= i < 7 ==> s[i] == 'B' || s[i] == 'F')
    &&& (forall|i: int| 7 <= i < 10 ==> s[i] == 'L' || s[i] == 'R')
}

impl Seat {
    /// Checks a pass and wraps it, leaving the decoding to `find`.
    pub fn from_str(s: &str) -> (r: Result<Seat, ParseError>)
        ensures
            match r {
                Ok(seat) => {
                    &&& pass_ok(s@)
                    &&& seat.source@ == s@
                    &&& seat.row == 0
                    &&& seat.column == 0
                    &&& seat.seat == 0
                },
                Err(_) => !pass_ok(s@),
            },
    {
        let n = s.unicode_len();
        if n != 10 {
            return Err(ParseError);
        }
        let mut i: usize = 0;
        while i < 7
            invariant
                0 <= i <= 7,
                s@.len() == 10,
                forall|j: int| 0 <= j < i ==> s@[j] == 'B' || s@[j] == 'F',
            decreases 7 - i,
        {
            let c = s.get_char(i);
            if !(c == 'B' || c == 'F') {
                return Err(ParseError);
            }
            i = i + 1;
        }
        let mut k: usize = 7;
        while k < 10
            invariant
                7 <= k <= 10,
                s@.len() == 10,
                forall|j: int| 7 <= j < k ==> s@[j] == 'L' || s@[j] == 'R',
            decreases 10 - k,
        {
            let c = s.get_char(k);
            if !(c == 'L' || c == 'R') {
                return Err(ParseError);
            }
            k = k + 1;
        }
        Ok(Seat { source: s.to_owned(), row: 0, column: 0, seat: 0 })
    }

    /// Decodes the pass by successive halving: each `B` or `R` keeps the
    /// upper half of the remaining range, each `F` or `L` the lower half.
    /// The result is the row and column read as binary numbers, and the
    /// seat id `row * 8 + column`.
    pub fn find(&mut self) -> (r: &Seat)
        requires
            pass_ok(old(self).source@),
        ensures
            final(self).source == old(self).source,
            final(self).row == bin_of(old(self).source@.subrange(0, 7), 'B'),
            final(self).column == bin_of(old(self).source@.subrange(7, 10), 'R'),
            final(self).seat == final(self).row * 8 + final(self).column,
            *r == *final(self),
    {
        let ghost src = self.source@;
        let s = self.source.as_str();
        let mut min: u8 = 0;
        let mut max: u8 = 127;
        let mut i: usize = 0;
        proof {
            lemma2_to64();
            assert(src.subrange(0, 0) =~= Seq::<char>::empty());
        }
        while i < 7
            invariant
                0 <= i <= 7,
                s@ == src,
                src.len() == 10,
                pass_ok(src),
                pow2((7 - i) as nat) >= 1,
                min == bin_of(src.subrange(0, i as int), 'B') * pow2((7 - i) as nat),
                max == min + pow2((7 - i) as nat) - 1,
                max <= 127,
            decreases 7 - i,
        {
            let c = s.get_char(i);
            proof {
                let pre = src.subrange(0, i as int);
                let cur = src.subrange(0, i + 1);
                assert(cur.drop_last() =~= pre);
                assert(cur.last() == src[i as int]);
                lemma_pow2_unfold((7 - i) as nat);
                vstd::arithmetic::power2::lemma_pow2_pos((7 - i - 1) as nat);
                let b = bin_of(pre, 'B') as int;
                let h = pow2((7 - i - 1) as nat) as int;
                assert((2 * b) * h == b * (2 * h)) by (nonlinear_arith);
                assert((2 * b + 1) * h == b * (2 * h) + h) by (nonlinear_arith);
            }
            let span = (max - min) / 2;
            match c {
                'F' => {
                    max = max - span - 1;
                },
                'B' => {
                    min = min + span + 1;
                },
                _ => {
                    proof {
                        assert(false);
                    }
                },
            }
            i = i + 1;
        }
        proof {
            assert(pow2(0) == 1);
            let b = bin_of(src.subrange(0, 7), 'B');
            assert(b * pow2(0) == b) by (nonlinear_arith)
                requires
                    pow2(0) == 1,
            ;
            assert(min == bin_of(src.subrange(0, 7), 'B'));
        }
        self.row = min;
        let mut cmin: u8 = 0;
        let mut cmax: u8 = 7;
        let mut k: usize = 7;
        proof {
            assert(self.row == bin_of(src.subrange(0, 7), 'B'));
            assert(src.subrange(7, 7) =~= Seq::<char>::empty());
            assert(bin_of(src.subrange(7, 7), 'R') == 0);
            assert(pow2(3) == 8) by {
                lemma2_to64();
            }
        }
        while k < 10
            invariant
                7 <= k <= 10,
                s@ == src,
                src.len() == 10,
                pass_ok(src),
                self.source@ == src,
                self.row == bin_of(src.subrange(0, 7), 'B'),
                cmin == bin_of(src.subrange(7, k as int), 'R') * pow2((10 - k) as nat),
                cmax == cmin + pow2((10 - k) as nat) - 1,
                cmax <= 7,
            decreases 10 - k,
        {
            let c = s.get_char(k);
            proof {
                let pre = src.subrange(7, k as int);
                let cur = src.subrange(7, k + 1);
                assert(cur.drop_last() =~= pre);
                assert(cur.last() == src[k as int]);
                lemma_pow2_unfold((10 - k) as nat);
                vstd::arithmetic::power2::lemma_pow2_pos((10 - k - 1) as nat);
                let b = bin_of(pre, 'R') as int;
                let h = pow2((10 - k - 1) as nat) as int;
                assert((2 * b) * h == b * (2 * h)) by (nonlinear_arith);
                assert((2 * b + 1) * h == b * (2 * h) + h) by (nonlinear_arith);
            }
            let span = (cmax - cmin) / 2;
            match c {
                'L' => {
                    cmax = cmax - span - 1;
                },
                'R' => {
                    cmin = cmin + span + 1;
                },
                _ => {
                    proof {
                        assert(false);
                    }
                },
            }
            k = k + 1;
        }
        proof {
            assert(pow2(0) == 1);
            let b = bin_of(src.subrange(7, 10), 'R');
            assert(b * pow2(0) == b) by (nonlinear_arith)
                requires
                    pow2(0) == 1,
            ;
        }
        self.column = cmin;
        self.seat = (self.row as u16) * 8 + (self.column as u16);
        self
    }
}

/// True when `v` occurs among the seat ids.
pub open spec fn has_seat(seats: Seq<u16>, v: int) -> bool {
    exists|j: int| 0 <= j < seats.len() && seats[j] == v
}

/// The open seat: the highest id above the lowest taken seat and below the
/// highest that nobody holds, or 0 when every id in that range is taken.
pub fn find_open_seat(seats: &Vec<u16>, min_seat: u16, max_seat: u16) -> (r: u16)
    requires
        min_seat <= max_seat,
    ensures
        if exists|v: int| min_seat <= v < max_seat && !has_seat(seats@, v) {
            &&& min_seat <= r < max_seat
            &&& !has_seat(seats@, r as int)
            &&& forall|v: int| r < v < max_seat ==> has_seat(seats@, v)
        } else {
            r == 0
        },
{
    let mut open: u16 = 0;
    let mut found = false;
    let mut s = min_seat;
    while s < max_seat
        invariant
            min_seat <= s <= max_seat,
            found ==> min_seat <= open < s && !has_seat(seats@, open as int) && forall|v: int|
                open < v < s ==> has_seat(seats@, v),
            !found ==> open == 0 && forall|v: int| min_seat <= v < s ==> has_seat(seats@, v),
        decreases max_seat - s,
    {
        let mut taken = false;
        let mut j: usize = 0;
        while j < seats.len()
            invariant
                0 <= j <= seats@.len(),
                taken ==> has_seat(seats@, s as int),
                !taken ==> forall|k: int| 0 <= k < j ==> seats@[k] != s,
            decreases seats@.len() - j,
        {
            if seats[j] == s {
                taken = true;
            }
            j = j + 1;
        }
        if !taken {
            open = s;
            found = true;
        }
        s = s + 1;
    }
    open
}

} // verus!
