use vstd::prelude::*;

verus! {

/// Where the fractional remainder of a non-negative value stands relative to one half.
#[derive(Clone, Copy, Debug, PartialEq, Eq, Structural)]
pub enum Half {
    Below,
    Exact,
    Above,
}

/// Round-half-to-even of `whole + rest`, where `whole` is the integer part and
/// `rest` places the fractional part against one half.
pub open spec fn half_even(whole: nat, rest: Half) -> nat {
    match rest {
        Half::Below => whole,
        Half::Above => whole + 1,
        Half::Exact => if whole % 2 == 0 { whole } else { whole + 1 },
    }
}

/// The rounding decision: up past one half, down below it, and to the even
/// neighbour on an exact half. The integer part saturates at the top of `u64`.
pub fn round_half_even(whole: u64, rest: Half) -> (r: u64)
    ensures
        whole < u64::MAX ==> r == half_even(whole as nat, rest),
        whole == u64::MAX ==> r == u64::MAX,
{
    if whole == u64::MAX {
        return whole;
    }
    match rest {
        Half::Below => whole,
        Half::Above => whole + 1,
        Half::Exact => if whole % 2 == 0 { whole } else { whole + 1 },
    }
}

} // verus!
