use vstd::prelude::*;

use bitintr::{Andn, Blsr, Pdep, Pext, Popcnt, Tzcnt};

use crate::bitboard::{bit, count_low};

verus! {

/// `bitintr::Andn::andn` on `u64`: the bits of `y` that are not set in `x`.
#[verifier::external_body]
pub(crate) fn andn(x: u64, y: u64) -> (r: u64)
    ensures
        r == !x & y,
{
    x.andn(y)
}

/// `bitintr::Blsr::blsr` on `u64`: clears the lowest set bit, `x & (x - 1)`.
/// The crate asserts (in debug builds) that `x` is not zero.
#[verifier::external_body]
pub(crate) fn blsr(x: u64) -> (r: u64)
    requires
        x != 0,
    ensures
        r == x & ((x - 1u64) as u64),
{
    x.blsr()
}

/// `bitintr::Tzcnt::tzcnt` on `u64`: the number of trailing zero bits (64 for zero),
/// which the crate computes with `u64::trailing_zeros`.
#[verifier::external_body]
pub(crate) fn tzcnt(x: u64) -> (r: u64)
    ensures
        r == vstd::std_specs::bits::u64_trailing_zeros(x),
{
    x.tzcnt()
}

/// `bitintr::Popcnt::popcnt` on `u64`: the number of set bits, which the crate computes
/// with `u64::count_ones`.
#[verifier::external_body]
pub(crate) fn popcnt(x: u64) -> (r: u64)
    ensures
        r == count_low(x, 64),
{
    x.popcnt()
}

/// `bitintr::Pext::pext` on `u64`: gathers the bits of `x` at the set bits of `mask`, in
/// their order, into the low bits of the result; the other bits of the result are zero.
/// Without the `bmi2` instructions the crate runs a loop that doubles a `u64` once per set
/// bit of `mask`, which overflows for a full mask: the mask must leave a bit clear.
#[verifier::external_body]
pub(crate) fn pext(x: u64, mask: u64) -> (r: u64)
    requires
        count_low(mask, 64) < 64,
    ensures
        forall|p: u64| p < 64 && #[trigger] bit(mask, p) ==> bit(r, count_low(mask, p as nat) as u64) == bit(x, p),
        forall|k: u64| count_low(mask, 64) <= k < 64 ==> !#[trigger] bit(r, k),
{
    x.pext(mask)
}

/// `bitintr::Pdep::pdep` on `u64`: scatters the low bits of `x`, in their order, to the set
/// bits of `mask`; the other bits of the result are zero. Without the `bmi2` instructions
/// the crate runs a loop that doubles a `u64` once per set bit of `mask`, which overflows
/// for a full mask: the mask must leave a bit clear.
#[verifier::external_body]
pub(crate) fn pdep(x: u64, mask: u64) -> (r: u64)
    requires
        count_low(mask, 64) < 64,
    ensures
        forall|p: u64| p < 64 ==> #[trigger] bit(r, p) == (bit(mask, p) && bit(x, count_low(mask, p as nat) as u64)),
{
    x.pdep(mask)
}

} // verus!
