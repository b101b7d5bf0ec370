//! The isometric projection between grid space and screen space.
//!
//! A tile is a diamond `MAP_TILE_WIDTH` pixels wide and `MAP_TILE_HEIGHT`
//! pixels tall. Grid and screen points are integer pairs.
use vstd::prelude::*;

verus! {

/// Width of one tile's diamond footprint, in pixels.
pub const MAP_TILE_WIDTH: i64 = 128;

/// Height of one tile's diamond footprint, in pixels.
pub const MAP_TILE_HEIGHT: i64 = 64;

/// A point with integer coordinates, in grid space or in screen space.
#[derive(Clone, Copy, Debug, PartialEq, Eq, Structural)]
pub struct IVec2 {
    pub x: i64,
    pub y: i64,
}

/// Screen x of the grid point `(gx, gy)`.
pub open spec fn iso_x(gx: int, gy: int) -> int {
    (gy + gx) * (MAP_TILE_WIDTH / 2)
}

/// Screen y of the grid point `(gx, gy)`.
pub open spec fn iso_y(gx: int, gy: int) -> int {
    (gx - gy) * (MAP_TILE_HEIGHT / 2)
}

/// Grid x of the tile whose footprint holds the screen point `(sx, sy)`:
/// `floor((sx / (W/2) + sy / (H/2)) / 2)`.
pub open spec fn flat_x(sx: int, sy: int) -> int {
    (sx + 2 * sy) / (2 * (MAP_TILE_WIDTH / 2))
}

/// Grid y of the tile whose footprint holds the screen point `(sx, sy)`:
/// `floor((sx / (W/2) - sy / (H/2)) / 2)`.
pub open spec fn flat_y(sx: int, sy: int) -> int {
    (sx - 2 * sy) / (2 * (MAP_TILE_WIDTH / 2))
}

/// Whether the projection of `(gx, gy)` fits in `i64` coordinates.
pub open spec fn projectable(gx: int, gy: int) -> bool {
    i64::MIN <= iso_x(gx, gy) <= i64::MAX && i64::MIN <= iso_y(gx, gy) <= i64::MAX
}

/// Conversions between grid space and isometric screen space.
pub trait IsometricOperations: Sized {
    /// Whether `to_isometric` can be applied to this point.
    spec fn spec_projectable(&self) -> bool;

    /// The screen point of a grid point.
    spec fn spec_to_isometric(&self) -> Self;

    /// The grid point of the tile under a screen point.
    spec fn spec_from_isometric(&self) -> Self;

    fn to_isometric(&self) -> (r: Self)
        requires
            self.spec_projectable(),
        ensures
            r == self.spec_to_isometric(),
    ;

    fn from_isometric(&self) -> (r: Self)
        ensures
            r == self.spec_from_isometric(),
    ;
}

/// Floor division of `n` by 128, for any `n` within three times the `i64` range.
fn floor_div_tile(n: i128) -> (r: i64)
    requires
        -3 * 0x8000_0000_0000_0000 <= n <= 3 * 0x8000_0000_0000_0000,
    ensures
        r == n as int / 128,
{
    let shifted: u128 = (n + 0x4_0000_0000_0000_0000i128) as u128;
    let q: u128 = shifted / 128;
    proof {
        let k: int = 0x4_0000_0000_0000_0000int / 128;
        assert(0x4_0000_0000_0000_0000int == k * 128);
        vstd::arithmetic::div_mod::lemma_hoist_over_denominator(n as int, k, 128);
    }
    (q as i128 - 0x800_0000_0000_0000i128) as i64
}

impl IsometricOperations for IVec2 {
    open spec fn spec_projectable(&self) -> bool {
        projectable(self.x as int, self.y as int)
    }

    open spec fn spec_to_isometric(&self) -> Self {
        IVec2 { x: iso_x(self.x as int, self.y as int) as i64, y: iso_y(self.x as int, self.y as int) as i64 }
    }

    open spec fn spec_from_isometric(&self) -> Self {
        IVec2 { x: flat_x(self.x as int, self.y as int) as i64, y: flat_y(self.x as int, self.y as int) as i64 }
    }

    fn to_isometric(&self) -> (r: Self) {
        let sx: i128 = (self.y as i128 + self.x as i128) * (MAP_TILE_WIDTH / 2) as i128;
        let sy: i128 = (self.x as i128 - self.y as i128) * (MAP_TILE_HEIGHT / 2) as i128;
        IVec2 { x: sx as i64, y: sy as i64 }
    }

    fn from_isometric(&self) -> (r: Self) {
        let a: i128 = self.x as i128 + 2 * (self.y as i128);
        let b: i128 = self.x as i128 - 2 * (self.y as i128);
        IVec2 { x: floor_div_tile(a), y: floor_div_tile(b) }
    }
}

/// Projecting a grid point to the screen and back recovers the grid point.
pub proof fn lemma_round_trip(p: IVec2)
    requires
        p.spec_projectable(),
    ensures
        p.spec_to_isometric().spec_from_isometric() == p,
{
    let gx = p.x as int;
    let gy = p.y as int;
    let s = p.spec_to_isometric();
    assert(s.x as int + 2 * (s.y as int) == 128 * gx) by (nonlinear_arith)
        requires
            s.x as int == (gy + gx) * 64,
            s.y as int == (gx - gy) * 32,
    ;
    assert(s.x as int - 2 * (s.y as int) == 128 * gy) by (nonlinear_arith)
        requires
            s.x as int == (gy + gx) * 64,
            s.y as int == (gx - gy) * 32,
    ;
    vstd::arithmetic::div_mod::lemma_div_multiples_vanish(gx, 128);
    vstd::arithmetic::div_mod::lemma_div_multiples_vanish(gy, 128);
}

} // verus!
