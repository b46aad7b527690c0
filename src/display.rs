//! Splitting a counter value into the digits of a three-digit segmented display.

use vstd::prelude::*;

verus! {

/// The hundreds (not reduced below ten), tens and ones of `n`.
pub fn display_digits(n: u32) -> (d: (u32, u32, u32))
    ensures
        d.0 == n / 100,
        d.1 == (n % 100) / 10,
        d.2 == n % 10,
{
    let ones = n % 10;
    let tens = (n % 100) / 10;
    let hundreds = n / 100;
    (hundreds, tens, ones)
}

} // verus!
