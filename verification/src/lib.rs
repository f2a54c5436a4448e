pub mod hex_codec;
pub mod matcher;
pub mod codec;
pub mod laws;

use vstd::prelude::*;

verus! {

/// The decimal digits of pi (with the leading 3, without the decimal point)
/// that serve as the built-in dictionary for the compressor.
pub open spec fn pi_digits() -> Seq<char> {
    "314159265358979323846264338327950288419716939937510582097494459230781640628620899862803482534211706798214808651328230664709384460955058223172535940812848111745028410270193852110555964462294895493038196"@
}

/// Supplies the built-in dictionary: a long run of pi's decimal digits.
pub fn load_pi() -> (r: &'static str)
    ensures
        r@ == pi_digits(),
{
    "314159265358979323846264338327950288419716939937510582097494459230781640628620899862803482534211706798214808651328230664709384460955058223172535940812848111745028410270193852110555964462294895493038196"
}

} // verus!
