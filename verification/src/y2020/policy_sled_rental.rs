//! The sled rental shop's reading of a password rule: the letter must occur
//! between `start` and `end` times.

use crate::y2020::day2::Password;
use crate::y2020::day2::count_ch;
use crate::y2020::day2::count_letter;
use vstd::prelude::*;

verus! {

/// True when the letter's count lies inside the rule's range.
pub open spec fn sled_valid(pw: Password) -> bool {
    pw.start <= count_ch(pw.password@, pw.letter) <= pw.end
}

fn is_valid(pw: &Password) -> (r: bool)
    requires
        pw.password@.len() <= usize::MAX,
    ensures
        r == sled_valid(*pw),
{
    let count = count_letter(pw);
    count >= pw.start as usize && count <= pw.end as usize
}

/// The password back when it satisfies the sled rental policy.
pub fn validate<'a>(pw: &'a Password) -> (r: Option<&'a Password>)
    requires
        pw.password@.len() <= usize::MAX,
    ensures
        sled_valid(*pw) ==> r == Some(pw),
        !sled_valid(*pw) ==> r is None,
{
    match is_valid(pw) {
        true => Some(pw),
        false => None,
    }
}

} // verus!
