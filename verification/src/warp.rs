//! Warp factors given as whole numbers.
use vstd::prelude::*;

verus! {

/// Checks a warp factor given as a whole number: it must lie between 1 and 3.
pub fn integer_warp(value: i32) -> (r: Result<i32, &'static str>)
    ensures
        r is Ok <==> 1 <= value <= 3,
        r matches Ok(v) ==> v == value,
{
    if value < 1 || value > 3 {
        Err("Warp factor must be in the range 1 to 3")
    } else {
        Ok(value)
    }
}

} // verus!
