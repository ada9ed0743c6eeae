//! Where the list of guild members lives on disk: one file per member,
//! named by the member's id.

use vstd::prelude::*;
use vstd::string::StringExecFns;
use crate::emoji::custom::{decimal_value, digit_value, is_digit};

verus! {

/// The directory that holds the profiles of the guild members.
pub const PROFILES_DIR: &'static str = "/usr/local/share/fidera/profiles";

/// The decimal digit for a number below ten.
pub open spec fn digit_of(d: nat) -> char {
    ('0' as nat + d) as char
}

/// The decimal digits of `n`, without leading zeros; zero is written `0`.
pub open spec fn decimal_digits(n: nat) -> Seq<char>
    decreases n,
{
    if n < 10 {
        seq![digit_of(n)]
    } else {
        decimal_digits(n / 10).push(digit_of(n % 10))
    }
}

/// The decimal digits of a number are digits, and they denote that number.
pub proof fn lemma_decimal_digits_denote(n: nat)
    ensures
        decimal_digits(n).len() >= 1,
        forall|i: int| 0 <= i < decimal_digits(n).len() ==> is_digit(#[trigger] decimal_digits(n)[i]),
        decimal_value(decimal_digits(n)) == n,
    decreases n,
{
    let digits = decimal_digits(n);
    if n < 10 {
        assert(is_digit(digit_of(n)) && digit_value(digit_of(n)) == n);
        assert(digits.drop_last() =~= Seq::<char>::empty());
        assert(decimal_value(digits.drop_last()) == 0);
    } else {
        lemma_decimal_digits_denote(n / 10);
        assert(is_digit(digit_of(n % 10)) && digit_value(digit_of(n % 10)) == n % 10);
        assert(digits.drop_last() =~= decimal_digits(n / 10));
    }
}

/// The path of the file that holds the profile of the member with the
/// given id.
pub open spec fn profile_path_of(id: u64) -> Seq<char> {
    PROFILES_DIR@ + seq!['/'] + decimal_digits(id as nat) + ".json"@
}

/// Appends the decimal digits of `n` to `s`.
pub fn push_decimal(s: &mut String, n: u64)
    ensures
        final(s)@ == old(s)@ + decimal_digits(n as nat),
    decreases n,
{
    if n >= 10 {
        push_decimal(s, n / 10);
    }
    let d: u8 = (n % 10) as u8;
    let c: char = (48u8 + d) as char;
    proof {
        let before = old(s)@;
        assert(c == digit_of((n % 10) as nat));
        if n >= 10 {
            assert((before + decimal_digits((n / 10) as nat)).push(c) =~= before + decimal_digits(
                n as nat,
            ));
        } else {
            assert(before.push(c) =~= before + decimal_digits(n as nat));
        }
    }
    s.push(c);
}

/// The path of the file that holds the profile of the member with the
/// given id.
pub fn profile_path(id: u64) -> (path: String)
    ensures
        path@ == profile_path_of(id),
{
    let mut path = String::from_str(PROFILES_DIR);
    path.push('/');
    push_decimal(&mut path, id);
    path.append(".json");
    path
}

} // verus!
