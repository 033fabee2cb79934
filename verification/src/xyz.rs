//! The flat Web Mercator tile: one cell of the `2^zoom x 2^zoom` grid.

use vstd::prelude::*;

verus! {

/// The side length of the tile grid at zoom `z`: `2^z` tiles per axis.
pub open spec fn grid_width(z: nat) -> nat
    decreases z,
{
    if z == 0 {
        1
    } else {
        2 * grid_width((z - 1) as nat)
    }
}

/// The grids grow with zoom.
pub proof fn lemma_grid_width_monotone(z1: nat, z2: nat)
    requires
        z1 <= z2,
    ensures
        grid_width(z1) <= grid_width(z2),
    decreases z2,
{
    if z1 < z2 {
        lemma_grid_width_monotone(z1, (z2 - 1) as nat);
    }
}

/// The next-to-widest grid a 32-bit index can address, written out.
proof fn lemma_grid_width_30()
    ensures
        grid_width(30) == 0x4000_0000,
{
    reveal_with_fuel(grid_width, 31);
}

/// The grid side length as a machine integer, for the zooms whose grid
/// fits one.
pub fn grid_width_u32(zoom: u8) -> (r: u32)
    requires
        zoom <= 31,
    ensures
        r as nat == grid_width(zoom as nat),
{
    let mut w: u32 = 1;
    let mut i: u8 = 0;
    while i < zoom
        invariant
            i <= zoom <= 31,
            w as nat == grid_width(i as nat),
        decreases zoom - i,
    {
        proof {
            lemma_grid_width_monotone(i as nat, 30);
            lemma_grid_width_30();
        }
        w = w * 2;
        i = i + 1;
    }
    w
}

/// Clamps a provisional tile index into the `2^zoom` grid, as the
/// projection's grid snapping does: the result always satisfies the grid
/// invariant, and an index already inside the grid passes through
/// unchanged.
pub fn clamp_tile_index(v: u32, zoom: u8) -> (r: u32)
    requires
        zoom <= 31,
    ensures
        (r as nat) < grid_width(zoom as nat),
        (v as nat) < grid_width(zoom as nat) ==> r == v,
        r <= v,
{
    proof {
        lemma_grid_width_monotone(0, zoom as nat);
    }
    let max_index: u32 = grid_width_u32(zoom) - 1;
    if v > max_index {
        max_index
    } else {
        v
    }
}

/// A 2D Web Mercator tile at a given zoom level.
#[derive(Debug, Clone, Copy, PartialEq, Eq, Hash, Structural)]
pub struct XYZTile {
    pub zoom: u8,
    pub x: u32,
    pub y: u32,
}

impl XYZTile {
    /// The grid invariant: both indices lie inside the `2^zoom` grid.
    pub open spec fn wf(self) -> bool {
        self.x < grid_width(self.zoom as nat) && self.y < grid_width(self.zoom as nat)
    }

    /// The tile's centre in tile space, as numerators over `2^(zoom + 1)`
    /// of the projected world span: the fractional tile coordinate
    /// `(x + 1/2, y + 1/2)` written exactly as `((2x + 1), (2y + 1))`.
    /// The centre lies strictly between the tile's own corners `2x` and
    /// `2(x + 1)` on each axis.
    pub fn centroid_tile_frac(&self) -> (r: (u64, u64))
        ensures
            r.0 == 2 * self.x + 1,
            r.1 == 2 * self.y + 1,
            2 * self.x < r.0 < 2 * (self.x + 1),
            2 * self.y < r.1 < 2 * (self.y + 1),
    {
        (2 * (self.x as u64) + 1, 2 * (self.y as u64) + 1)
    }
}

} // verus!
