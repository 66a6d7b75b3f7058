//! Decimal digits, as the renderer draws a tile's number.
use vstd::prelude::*;

verus! {

/// The decimal digits of `n`, most significant first; zero has the one digit 0.
pub open spec fn digits_of(n: nat) -> Seq<u32>
    decreases n,
{
    if n < 10 {
        seq![n as u32]
    } else {
        digits_of(n / 10).push((n % 10) as u32)
    }
}

/// The decimal digits of `number`, most significant first.
pub fn number_to_digits(number: u32) -> (digits: Vec<u32>)
    ensures
        digits@ == digits_of(number as nat),
{
    let mut digits: Vec<u32> = Vec::new();
    if number == 0 {
        digits.push(0);
        return digits;
    }
    let mut n: u32 = number;
    while n != 0
        invariant
            n > 0 ==> digits_of(number as nat) == digits_of(n as nat) + digits@,
            n == 0 ==> digits_of(number as nat) == digits@,
        decreases n,
    {
        let ghost rest = digits@;
        digits.insert(0, n % 10);
        if n >= 10 {
            assert(digits_of(n as nat) == digits_of((n / 10) as nat).push((n % 10) as u32));
            assert(digits_of((n / 10) as nat) + digits@ =~= digits_of(n as nat) + rest);
        } else {
            assert(digits@ =~= digits_of(n as nat) + rest);
        }
        n = n / 10;
    }
    digits
}

} // verus!
