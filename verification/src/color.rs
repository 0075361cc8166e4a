//! The colour ramp: from an iteration count to a colour.

use vstd::prelude::*;

verus! {

/// A colour of three 8-bit channels.
#[derive(Clone, Copy, Debug, PartialEq, Eq, Structural)]
pub struct RgbColor {
    pub r: u8,
    pub g: u8,
    pub b: u8,
}

/// The length of the ramp: three bands of 255 steps each.
pub const RAMP_LENGTH: u64 = 765;

/// The colour of a point that never escaped.
pub open spec fn black() -> RgbColor {
    RgbColor { r: 0, g: 0, b: 0 }
}

/// The colour beyond the end of the ramp.
pub open spec fn white() -> RgbColor {
    RgbColor { r: 255, g: 255, b: 255 }
}

/// The position `i / maximum * 765` on the ramp, rounded down.
pub open spec fn ramp_floor(i: nat, maximum: nat) -> nat
    recommends
        maximum > 0,
{
    (i * 765) / maximum
}

/// The position `i / maximum * 765` on the ramp, rounded up.
pub open spec fn ramp_ceil(i: nat, maximum: nat) -> nat
    recommends
        maximum > 0,
{
    if (i * 765) % maximum == 0 {
        ramp_floor(i, maximum)
    } else {
        ramp_floor(i, maximum) + 1
    }
}

/// The colour at a position on the ramp, given rounded down as `lower` and
/// rounded up as `upper`.
///
/// In the first band red rises, in the second green rises under full red, in
/// the third blue rises under full red and green. Red rises by the position
/// rounded up, green and blue by the position rounded down.
pub open spec fn band_color(lower: nat, upper: nat) -> RgbColor {
    if lower < 255 {
        RgbColor { r: upper as u8, g: 0, b: 0 }
    } else if lower < 510 {
        RgbColor { r: 255, g: (lower % 255) as u8, b: 0 }
    } else if lower < 765 {
        RgbColor { r: 255, g: 255, b: (lower % 255) as u8 }
    } else {
        white()
    }
}

/// The colour of iteration count `i` under the ceiling `maximum`.
///
/// A count equal to the ceiling is black. With a ceiling of zero every other
/// count lies beyond the ramp.
pub open spec fn ramp_color(i: nat, maximum: nat) -> RgbColor {
    if i == maximum {
        black()
    } else if maximum == 0 {
        white()
    } else {
        band_color(ramp_floor(i, maximum), ramp_ceil(i, maximum))
    }
}

/// Maps the iteration count `i` to its colour under the ceiling `maximum`.
pub fn map_num_to_color(i: u32, maximum: u32) -> (color: RgbColor)
    ensures
        color == ramp_color(i as nat, maximum as nat),
{
    if i == maximum {
        return RgbColor { r: 0, g: 0, b: 0 };
    }
    if maximum == 0 {
        return RgbColor { r: 255, g: 255, b: 255 };
    }
    let scaled: u64 = (i as u64) * RAMP_LENGTH;
    let lower: u64 = scaled / (maximum as u64);
    let exact: bool = scaled % (maximum as u64) == 0;
    if lower < 255 {
        let upper: u64 = if exact { lower } else { lower + 1 };
        RgbColor { r: upper as u8, g: 0, b: 0 }
    } else if lower < 510 {
        RgbColor { r: 255, g: (lower % 255) as u8, b: 0 }
    } else if lower < 765 {
        RgbColor { r: 255, g: 255, b: (lower % 255) as u8 }
    } else {
        RgbColor { r: 255, g: 255, b: 255 }
    }
}

/// A count equal to the ceiling is black, whatever the ceiling.
pub proof fn lemma_ceiling_is_black(ceiling: nat)
    ensures
        ramp_color(ceiling, ceiling) == black(),
{
}

/// Under a ceiling above one the ramp is not constant: its first count and
/// its last count below the ceiling get different colours.
pub proof fn lemma_ramp_ends_differ(ceiling: nat)
    requires
        ceiling > 1,
    ensures
        ramp_color(0, ceiling) == black(),
        ramp_color((ceiling - 1) as nat, ceiling).r == 255,
        ramp_color(0, ceiling) != ramp_color((ceiling - 1) as nat, ceiling),
{
    let last: nat = (ceiling - 1) as nat;
    assert((0nat * 765) / ceiling == 0 && (0nat * 765) % ceiling == 0) by (nonlinear_arith)
        requires
            ceiling > 1,
    ;
    assert((last * 765) / ceiling >= 255) by (nonlinear_arith)
        requires
            ceiling > 1,
            last == ceiling - 1,
    ;
}

} // verus!
