//! The classic counting game: multiples of three say Fizz, multiples of five
//! say Buzz, multiples of both say FizzBuzz, and everything else says itself.
use crate::decimal::dec_chars;
use vstd::prelude::*;

verus! {

/// What the game says for `n`.
pub open spec fn spec_fizzbuzz(n: nat) -> Seq<char> {
    if n % 15 == 0 {
        "FizzBuzz"@
    } else if n % 3 == 0 {
        "Fizz"@
    } else if n % 5 == 0 {
        "Buzz"@
    } else {
        dec_chars(n)
    }
}

pub fn fizzbuzz(n: usize) -> (r: String)
    ensures
        r@ == spec_fizzbuzz(n as nat),
{
    if n % 15 == 0 {
        return String::from_str("FizzBuzz");
    }
    if n % 3 == 0 {
        return String::from_str("Fizz");
    }
    if n % 5 == 0 {
        return String::from_str("Buzz");
    }
    crate::decimal::u64_to_string(n as u64)
}

} // verus!
