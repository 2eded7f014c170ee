//! The toboggan rental corporate policy: exactly one of the two named
//! positions (one-based) must hold the letter.

use crate::y2020::day2::Password;
use vstd::prelude::*;
use vstd::string::StrSliceExecFns;

verus! {

/// True when exactly one of positions `start` and `end` holds the letter.
pub open spec fn toboggan_valid(pw: Password) -> bool {
    (pw.password@[pw.start - 1] == pw.letter) != (pw.password@[pw.end - 1] == pw.letter)
}

fn is_valid(pw: &Password) -> (r: bool)
    requires
        1 <= pw.start,
        1 <= pw.end,
        pw.start - 1 < pw.password@.len(),
        pw.end - 1 < pw.password@.len(),
    ensures
        r == toboggan_valid(*pw),
{
    let s = pw.password.as_str();
    let start_match = s.get_char((pw.start - 1) as usize) == pw.letter;
    let end_match = s.get_char((pw.end - 1) as usize) == pw.letter;
    start_match ^ end_match
}

/// The password back when it satisfies the corporate policy.
pub fn validate<'a>(pw: &'a Password) -> (r: Option<&'a Password>)
    requires
        1 <= pw.start,
        1 <= pw.end,
        pw.start - 1 < pw.password@.len(),
        pw.end - 1 < pw.password@.len(),
    ensures
        toboggan_valid(*pw) ==> r == Some(pw),
        !toboggan_valid(*pw) ==> r is None,
{
    match is_valid(pw) {
        true => Some(pw),
        false => None,
    }
}

} // verus!
