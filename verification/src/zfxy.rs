//! The 3D voxel tile: a Web Mercator tile extended with a discrete
//! vertical layer, carrying the octree hierarchy, the path-hash encoding,
//! the positional id string, and bounding-volume cover enumeration.

use vstd::prelude::*;
use crate::xyz::grid_width;
use crate::text::dec_str;
use crate::text::dec_str_signed;
use crate::text::lemma_dec_str_chars;
use crate::text::lemma_dec_str_injective;
use crate::text::lemma_dec_str_signed_chars;
use crate::text::lemma_dec_str_signed_injective;
use crate::text::lemma_reverse_push;
use crate::text::lemma_sep_split;
use crate::text::push_i32_dec;
use crate::text::push_reversed;
use crate::text::push_u32_dec;

verus! {

/// The 1-based octant digit character for a child index in `0..8`.
pub open spec fn octant_char(i: int) -> char {
    if i == 0 {
        '1'
    } else if i == 1 {
        '2'
    } else if i == 2 {
        '3'
    } else if i == 3 {
        '4'
    } else if i == 4 {
        '5'
    } else if i == 5 {
        '6'
    } else if i == 6 {
        '7'
    } else {
        '8'
    }
}

/// The root-to-leaf octant path of the tile `(z, f, x, y)`: one digit per
/// zoom level, the digit for the deepest level last. Each digit records
/// which child the tile is of its parent, in the fixed child order.
pub open spec fn path_digits(z: nat, f: nat, x: nat, y: nat) -> Seq<char>
    decreases z,
{
    if z == 0 {
        Seq::empty()
    } else {
        path_digits((z - 1) as nat, f / 2, x / 2, y / 2).push(
            octant_char((x % 2 + 2 * (y % 2) + 4 * (f % 2)) as int),
        )
    }
}

/// The octant path has exactly one digit per zoom level.
pub proof fn lemma_path_digits_len(z: nat, f: nat, x: nat, y: nat)
    ensures
        path_digits(z, f, x, y).len() == z,
    decreases z,
{
    if z > 0 {
        lemma_path_digits_len((z - 1) as nat, f / 2, x / 2, y / 2);
    }
}

fn octant_char_exec(i: usize) -> (c: char)
    requires
        i < 8,
    ensures
        c == octant_char(i as int),
{
    if i == 0 {
        '1'
    } else if i == 1 {
        '2'
    } else if i == 2 {
        '3'
    } else if i == 3 {
        '4'
    } else if i == 4 {
        '5'
    } else if i == 5 {
        '6'
    } else if i == 6 {
        '7'
    } else {
        '8'
    }
}

/// The total addressable vertical extent, in meters, at zoom 0. At zoom
/// `z` each vertical cell spans `MAX_ALT / 2^z` meters.
pub const MAX_ALT: u64 = 33_554_432;

/// How many values the inclusive range `lo..=hi` holds; zero when empty.
pub open spec fn range_count(lo: int, hi: int) -> int {
    if lo <= hi {
        hi - lo + 1
    } else {
        0
    }
}

/// The position of the `(a, b, c)` combination in a cover whose `y` axis
/// holds `ny` values and whose vertical axis holds `nf` values.
pub open spec fn cover_index(a: int, b: int, c: int, ny: int, nf: int) -> int {
    (a * ny + b) * nf + c
}

/// A combination that precedes the `(ix, iy, ifl)` point of the
/// enumeration stands at an earlier position of the cover.
proof fn lemma_cover_index_bound(
    a: int,
    b: int,
    c: int,
    ix: int,
    iy: int,
    ifl: int,
    ny: int,
    nf: int,
)
    requires
        0 <= a,
        0 <= b < ny,
        0 <= c < nf,
        0 <= iy,
        0 <= ifl,
        a < ix || (a == ix && b < iy) || (a == ix && b == iy && c < ifl),
    ensures
        0 <= cover_index(a, b, c, ny, nf),
        cover_index(a, b, c, ny, nf) < ix * ny * nf + iy * nf + ifl,
{
    assert(0 <= (a * ny + b) * nf + c && (a * ny + b) * nf + c < ix * ny * nf + iy * nf + ifl)
        by (nonlinear_arith)
        requires
            0 <= a,
            0 <= b < ny,
            0 <= c < nf,
            0 <= iy,
            0 <= ifl,
            a < ix || (a == ix && b < iy) || (a == ix && b == iy && c < ifl),
    ;
}

/// A voxel tile: a `2^zoom x 2^zoom` grid cell plus a signed vertical
/// layer index.
#[derive(Debug, Clone, Copy, PartialEq, Eq, Hash, Structural)]
pub struct ZFXY {
    pub zoom: u8,
    pub floor: i32,
    pub x: u32,
    pub y: u32,
}

impl ZFXY {
    /// The grid invariant: both horizontal indices lie inside the
    /// `2^zoom` grid.
    pub open spec fn wf(self) -> bool {
        self.x < grid_width(self.zoom as nat) && self.y < grid_width(self.zoom as nat)
    }

    /// The magnitude of the vertical layer index.
    pub open spec fn abs_floor(self) -> int {
        if self.floor < 0 {
            -(self.floor as int)
        } else {
            self.floor as int
        }
    }

    /// The parent tile one zoom level up: indices halved, the vertical
    /// layer halved by magnitude (the hierarchy discards the sign).
    pub open spec fn spec_parent(self) -> ZFXY {
        ZFXY {
            zoom: (self.zoom - 1) as u8,
            floor: (self.abs_floor() / 2) as i32,
            x: (self.x / 2) as u32,
            y: (self.y / 2) as u32,
        }
    }

    /// The `i`-th of the eight children one zoom level down, in the fixed
    /// order the path hash is built on: the low bit of `i` doubles `x`,
    /// the next bit doubles `y`, the high bit doubles the vertical layer.
    pub open spec fn spec_child(self, i: int) -> ZFXY {
        ZFXY {
            zoom: (self.zoom + 1) as u8,
            floor: (2 * self.abs_floor() + i / 4) as i32,
            x: (2 * self.x + i % 2) as u32,
            y: (2 * self.y + (i / 2) % 2) as u32,
        }
    }

    /// The tile's centre in tile space, as exact numerators over
    /// `2^(zoom + 1)`: the horizontal axes over the projected world span,
    /// the vertical axis in units of the total vertical extent (vertical
    /// cell `floor` is centred at `(2*floor + 1) / 2^(zoom+1)` of it).
    /// On every axis the centre lies strictly between the cell's own
    /// bounds `2*index` and `2*(index + 1)`.
    pub fn centroid_tile_frac(&self) -> (r: (u64, u64, i64))
        ensures
            r.0 == 2 * self.x + 1,
            r.1 == 2 * self.y + 1,
            r.2 == 2 * self.floor + 1,
            2 * self.x < r.0 < 2 * (self.x + 1),
            2 * self.y < r.1 < 2 * (self.y + 1),
            2 * self.floor < r.2 < 2 * (self.floor + 1),
    {
        (2 * (self.x as u64) + 1, 2 * (self.y as u64) + 1, 2 * (self.floor as i64) + 1)
    }

    /// The parent tile, or `None` at the root zoom.
    pub fn get_parent(&self) -> (r: Option<ZFXY>)
        requires
            self.floor != i32::MIN,
        ensures
            r is Some <==> self.zoom > 0,
            self.zoom > 0 ==> r == Some(self.spec_parent()),
    {
        if self.zoom == 0 {
            return None;
        }
        let floor_abs: i32 = if self.floor < 0 {
            -self.floor
        } else {
            self.floor
        };
        let parent_floor_abs: i32 = floor_abs / 2;
        Some(
            ZFXY {
                zoom: self.zoom - 1,
                floor: parent_floor_abs,
                x: self.x / 2,
                y: self.y / 2,
            },
        )
    }

    /// The eight children, in the fixed octant order: the four children of
    /// the doubled vertical layer first, each quartet ordered by `y` then
    /// `x`, then the same four at the vertical layer one above.
    pub fn get_children(&self) -> (r: [ZFXY; 8])
        requires
            self.zoom < 255,
            self.x < 0x8000_0000,
            self.y < 0x8000_0000,
            -0x4000_0000 < self.floor < 0x4000_0000,
        ensures
            r@.len() == 8,
            forall|i: int| 0 <= i < 8 ==> #[trigger] r@[i] == self.spec_child(i),
    {
        let child_zoom: u8 = self.zoom + 1;
        let px: u32 = self.x * 2;
        let py: u32 = self.y * 2;
        let floor_abs: i32 = if self.floor < 0 {
            -self.floor
        } else {
            self.floor
        };
        let pf_abs: i32 = floor_abs * 2;

        [
            ZFXY { zoom: child_zoom, floor: pf_abs, x: px, y: py },
            ZFXY { zoom: child_zoom, floor: pf_abs, x: px + 1, y: py },
            ZFXY { zoom: child_zoom, floor: pf_abs, x: px, y: py + 1 },
            ZFXY { zoom: child_zoom, floor: pf_abs, x: px + 1, y: py + 1 },
            ZFXY { zoom: child_zoom, floor: pf_abs + 1, x: px, y: py },
            ZFXY { zoom: child_zoom, floor: pf_abs + 1, x: px + 1, y: py },
            ZFXY { zoom: child_zoom, floor: pf_abs + 1, x: px, y: py + 1 },
            ZFXY { zoom: child_zoom, floor: pf_abs + 1, x: px + 1, y: py + 1 },
        ]
    }

    /// The path hash of the tile: the root-to-leaf octant path of
    /// `(zoom, |floor|, x, y)` as a digit string over `'1'..='8'`, with a
    /// single leading `-` when the layer index is negative. The root zoom
    /// yields the empty string, sign regardless.
    pub open spec fn spec_tile_hash(self) -> Seq<char> {
        if self.zoom == 0 {
            Seq::empty()
        } else if self.floor < 0 {
            seq!['-'] + path_digits(
                self.zoom as nat,
                self.abs_floor() as nat,
                self.x as nat,
                self.y as nat,
            )
        } else {
            path_digits(self.zoom as nat, self.abs_floor() as nat, self.x as nat, self.y as nat)
        }
    }

    /// Encodes the tile as its path hash by walking up the hierarchy:
    /// at each level the tile is located among its parent's children and
    /// the 1-based position becomes the digit for that level.
    pub fn to_tile_hash(&self) -> (r: String)
        requires
            self.floor != i32::MIN,
        ensures
            r@ == self.spec_tile_hash(),
            self.zoom == 0 ==> r@.len() == 0,
            self.zoom > 0 && self.floor >= 0 ==> r@.len() == self.zoom,
            self.zoom > 0 && self.floor < 0 ==> r@.len() == self.zoom + 1,
    {
        let mut out = String::new();
        if self.zoom == 0 {
            return out;
        }
        let neg = self.floor < 0;
        let floor_abs: i32 = if self.floor < 0 {
            -self.floor
        } else {
            self.floor
        };
        let mut cur = ZFXY { zoom: self.zoom, floor: floor_abs, x: self.x, y: self.y };
        let mut digits: Vec<char> = Vec::new();
        let ghost target = path_digits(
            self.zoom as nat,
            self.abs_floor() as nat,
            self.x as nat,
            self.y as nat,
        );
        while cur.zoom > 0
            invariant
                0 <= cur.floor,
                target == path_digits(
                    cur.zoom as nat,
                    cur.floor as nat,
                    cur.x as nat,
                    cur.y as nat,
                ) + digits@.reverse(),
            decreases cur.zoom,
        {
            let parent = cur.get_parent().unwrap();
            let children = parent.get_children();

            let ghost d: int = cur.x as int % 2 + 2 * (cur.y as int % 2) + 4 * (cur.floor as int % 2);
            proof {
                assert(parent.spec_child(d) == cur);
            }

            let mut pos: usize = 8;
            let mut i: usize = 0;
            while i < 8
                invariant
                    i <= 8,
                    pos <= 8,
                    forall|j: int| 0 <= j < 8 ==> children@[j] == parent.spec_child(j),
                    parent.spec_child(d) == cur,
                    0 <= d < 8,
                    pos == 8 ==> forall|j: int| 0 <= j < i ==> children@[j] != cur,
                    pos < 8 ==> children@[pos as int] == cur,
                decreases 8 - i,
            {
                if pos == 8 {
                    let c = children[i];
                    if c.floor == cur.floor && c.x == cur.x && c.y == cur.y && c.zoom == cur.zoom
                    {
                        pos = i;
                    }
                }
                i += 1;
            }
            proof {
                assert(pos < 8) by {
                    if pos == 8 {
                        assert(children@[d] == cur);
                    }
                }
                assert(parent.spec_child(pos as int) == cur);
                assert(pos as int == d) by {
                    assert(2 * (cur.x as int / 2) + pos as int % 2 == cur.x as int);
                    assert(2 * (cur.y as int / 2) + (pos as int / 2) % 2 == cur.y as int);
                    assert(2 * (cur.floor as int / 2) + pos as int / 4 == cur.floor as int);
                }
                lemma_reverse_push(digits@, octant_char(d));
            }
            let ghost prev_digits = digits@;
            let ghost prev = cur;
            digits.push(octant_char_exec(pos));
            cur = parent;
            proof {
                assert(path_digits(
                    prev.zoom as nat,
                    prev.floor as nat,
                    prev.x as nat,
                    prev.y as nat,
                ) == path_digits(
                    cur.zoom as nat,
                    cur.floor as nat,
                    cur.x as nat,
                    cur.y as nat,
                ).push(octant_char(d)));
                assert(digits@.reverse() =~= seq![octant_char(d)] + prev_digits.reverse());
                assert(target =~= path_digits(
                    cur.zoom as nat,
                    cur.floor as nat,
                    cur.x as nat,
                    cur.y as nat,
                ) + digits@.reverse());
            }
        }
        proof {
            assert(target =~= digits@.reverse());
            lemma_path_digits_len(
                self.zoom as nat,
                self.abs_floor() as nat,
                self.x as nat,
                self.y as nat,
            );
        }
        if neg {
            out.push('-');
        }
        push_reversed(&mut out, &mut digits);
        proof {
            assert(out@ =~= self.spec_tile_hash());
        }
        out
    }

    /// Every voxel tile of the inclusive index box at the given zoom:
    /// `x` runs outermost, `y` next, the vertical layer innermost, and an
    /// empty range on any axis yields an empty cover. The contract places
    /// each `(x, y, floor)` combination of the box at exactly one position
    /// of the result.
    #[verifier::loop_isolation(false)]
    pub fn bvol_cover_range(
        zoom: u8,
        min_x: u32,
        max_x: u32,
        min_y: u32,
        max_y: u32,
        min_floor: i32,
        max_floor: i32,
    ) -> (r: Vec<ZFXY>)
        ensures
            r@.len() == range_count(min_x as int, max_x as int) * range_count(
                min_y as int,
                max_y as int,
            ) * range_count(min_floor as int, max_floor as int),
            forall|a: int, b: int, c: int|
                0 <= a < range_count(min_x as int, max_x as int) && 0 <= b < range_count(
                    min_y as int,
                    max_y as int,
                ) && 0 <= c < range_count(min_floor as int, max_floor as int) ==> r@[#[trigger] cover_index(
                a,
                b,
                c,
                range_count(min_y as int, max_y as int),
                range_count(min_floor as int, max_floor as int),
            )] == (ZFXY {
                zoom,
                floor: (min_floor + c) as i32,
                x: (min_x + a) as u32,
                y: (min_y + b) as u32,
            }),
    {
        let ghost gnx = range_count(min_x as int, max_x as int);
        let ghost gny = range_count(min_y as int, max_y as int);
        let ghost gnf = range_count(min_floor as int, max_floor as int);
        let nx: u64 = if min_x <= max_x {
            max_x as u64 - min_x as u64 + 1
        } else {
            0
        };
        let ny: u64 = if min_y <= max_y {
            max_y as u64 - min_y as u64 + 1
        } else {
            0
        };
        let nf: u64 = if min_floor <= max_floor {
            (max_floor as i64 - min_floor as i64 + 1) as u64
        } else {
            0
        };
        let mut r: Vec<ZFXY> = Vec::new();
        let mut ix: u64 = 0;
        while ix < nx
            invariant
                nx == gnx && ny == gny && nf == gnf,
                ix <= nx,
                r@.len() == ix * gny * gnf,
                forall|a: int, b: int, c: int|
                    0 <= a < ix && 0 <= b < gny && 0 <= c < gnf ==> r@[#[trigger] cover_index(
                        a,
                        b,
                        c,
                        gny,
                        gnf,
                    )] == (ZFXY {
                        zoom,
                        floor: (min_floor + c) as i32,
                        x: (min_x + a) as u32,
                        y: (min_y + b) as u32,
                    }),
            decreases nx - ix,
        {
            let x: u32 = min_x + (ix as u32);
            let mut iy: u64 = 0;
            while iy < ny
                invariant
                    nx == gnx && ny == gny && nf == gnf,
                    ix < nx,
                    iy <= ny,
                    x == min_x + ix,
                    r@.len() == ix * gny * gnf + iy * gnf,
                    forall|a: int, b: int, c: int|
                        0 <= a < gnx && 0 <= b < gny && 0 <= c < gnf && (a < ix || (a == ix && b
                            < iy)) ==> r@[#[trigger] cover_index(a, b, c, gny, gnf)] == (ZFXY {
                            zoom,
                            floor: (min_floor + c) as i32,
                            x: (min_x + a) as u32,
                            y: (min_y + b) as u32,
                        }),
                decreases ny - iy,
            {
                let y: u32 = min_y + (iy as u32);
                let mut ifl: u64 = 0;
                while ifl < nf
                    invariant
                        nx == gnx && ny == gny && nf == gnf,
                        ix < nx,
                        iy < ny,
                        ifl <= nf,
                        x == min_x + ix,
                        y == min_y + iy,
                        r@.len() == ix * gny * gnf + iy * gnf + ifl,
                        forall|a: int, b: int, c: int|
                            0 <= a < gnx && 0 <= b < gny && 0 <= c < gnf && (a < ix || (a == ix
                                && b < iy) || (a == ix && b == iy && c < ifl)) ==> r@[#[trigger] cover_index(
                                a,
                                b,
                                c,
                                gny,
                                gnf,
                            )] == (ZFXY {
                                zoom,
                                floor: (min_floor + c) as i32,
                                x: (min_x + a) as u32,
                                y: (min_y + b) as u32,
                            }),
                    decreases nf - ifl,
                {
                    let fl: i32 = ((min_floor as i64) + (ifl as i64)) as i32;
                    let ghost old_r = r@;
                    let ghost old_ifl: int = ifl as int;
                    proof {
                        assert((ix * gny + iy) * gnf + ifl == ix * gny * gnf + iy * gnf + ifl)
                            by (nonlinear_arith);
                    }
                    r.push(ZFXY { zoom, floor: fl, x, y });
                    ifl = ifl + 1;
                    proof {
                        assert forall|a: int, b: int, c: int|
                            0 <= a < gnx && 0 <= b < gny && 0 <= c < gnf && (a < ix || (a == ix
                                && b < iy) || (a == ix && b == iy && c
                                < ifl)) implies r@[#[trigger] cover_index(a, b, c, gny, gnf)]
                            == (ZFXY {
                            zoom,
                            floor: (min_floor + c) as i32,
                            x: (min_x + a) as u32,
                            y: (min_y + b) as u32,
                        }) by {
                            if a == ix && b == iy && c == old_ifl {
                                assert(cover_index(a, b, c, gny, gnf) == old_r.len());
                            } else {
                                lemma_cover_index_bound(
                                    a,
                                    b,
                                    c,
                                    ix as int,
                                    iy as int,
                                    old_ifl,
                                    gny,
                                    gnf,
                                );
                                assert(r@[cover_index(a, b, c, gny, gnf)] == old_r[cover_index(
                                    a,
                                    b,
                                    c,
                                    gny,
                                    gnf,
                                )]);
                            }
                        }
                    }
                }
                iy = iy + 1;
                proof {
                    assert(r@.len() == ix * gny * gnf + iy * gnf) by (nonlinear_arith)
                        requires
                            r@.len() == ix * gny * gnf + (iy - 1) * gnf + gnf,
                    ;
                }
            }
            ix = ix + 1;
            proof {
                assert(r@.len() == ix * gny * gnf) by (nonlinear_arith)
                    requires
                        r@.len() == (ix - 1) * gny * gnf + gny * gnf,
                ;
            }
        }
        r
    }

    /// The positional id string `"/{zoom}/{floor}/{x}/{y}"`: each field in
    /// base 10, the signed layer index with a `-` sign when negative.
    pub open spec fn spec_spatial_id(self) -> Seq<char> {
        seq!['/'] + dec_str(self.zoom as nat) + seq!['/'] + dec_str_signed(self.floor as int)
            + seq!['/'] + dec_str(self.x as nat) + seq!['/'] + dec_str(self.y as nat)
    }

    /// Formats the tile as its positional id string.
    pub fn to_spatial_id_str(&self) -> (r: String)
        ensures
            r@ == self.spec_spatial_id(),
    {
        let mut out = String::new();
        out.push('/');
        push_u32_dec(&mut out, self.zoom as u32);
        out.push('/');
        push_i32_dec(&mut out, self.floor);
        out.push('/');
        push_u32_dec(&mut out, self.x);
        out.push('/');
        push_u32_dec(&mut out, self.y);
        proof {
            assert(out@ =~= self.spec_spatial_id());
        }
        out
    }
}

/// The child index encoded by an octant digit character: the inverse of
/// `octant_char` on `'1'..='8'`.
pub open spec fn octant_index(c: char) -> int {
    if c == '1' {
        0
    } else if c == '2' {
        1
    } else if c == '3' {
        2
    } else if c == '4' {
        3
    } else if c == '5' {
        4
    } else if c == '6' {
        5
    } else if c == '7' {
        6
    } else {
        7
    }
}

/// The `(|floor|, x, y)` indices of the tile reached from the root tile by
/// following a string of octant digits, one child step per digit. The zoom
/// of the tile reached is the number of digits.
pub open spec fn walk_path(s: Seq<char>) -> (nat, nat, nat)
    decreases s.len(),
{
    if s.len() == 0 {
        (0nat, 0nat, 0nat)
    } else {
        let prev = walk_path(s.drop_last());
        let d = octant_index(s.last());
        ((2 * prev.0 + d / 4) as nat, (2 * prev.1 + d % 2) as nat, (2 * prev.2 + (d / 2) % 2) as nat)
    }
}

/// Law: among the eight children of a tile's parent there is exactly one
/// equal to the tile itself — the child the matching octant digit picks.
/// This holds for non-negative layer indices; the hierarchy itself only
/// ever carries magnitudes (a negative layer's parent has a non-negative
/// one, so the round trip re-yields the magnitude, not the sign).
pub proof fn lemma_parent_children_identify(t: ZFXY)
    requires
        t.zoom > 0,
        t.floor >= 0,
    ensures
        t.spec_parent().spec_child(
            t.x as int % 2 + 2 * (t.y as int % 2) + 4 * (t.floor as int % 2),
        ) == t,
        forall|i: int, j: int|
            0 <= i < 8 && 0 <= j < 8 && #[trigger] t.spec_parent().spec_child(i) == t
                && #[trigger] t.spec_parent().spec_child(j) == t ==> i == j,
{
    let d: int = t.x as int % 2 + 2 * (t.y as int % 2) + 4 * (t.floor as int % 2);
    assert(t.spec_parent().spec_child(d) == t);
    assert forall|i: int, j: int|
        0 <= i < 8 && 0 <= j < 8 && #[trigger] t.spec_parent().spec_child(i) == t
            && #[trigger] t.spec_parent().spec_child(j) == t implies i == j by {
        assert(2 * (t.x as int / 2) + i % 2 == t.x as int);
        assert(2 * (t.y as int / 2) + (i / 2) % 2 == t.y as int);
        assert(2 * (t.floor as int / 2) + i / 4 == t.floor as int);
        assert(2 * (t.x as int / 2) + j % 2 == t.x as int);
        assert(2 * (t.y as int / 2) + (j / 2) % 2 == t.y as int);
        assert(2 * (t.floor as int / 2) + j / 4 == t.floor as int);
    }
}

/// Law: the positional id string is a faithful rendering of the tuple:
/// two tiles with the same id string are the same tile, so parsing the
/// four `/`-separated fields back recovers the exact input tuple.
#[verifier::rlimit(100)]
pub proof fn lemma_spatial_id_injective(a: ZFXY, b: ZFXY)
    requires
        a.spec_spatial_id() == b.spec_spatial_id(),
    ensures
        a == b,
{
    let za = dec_str(a.zoom as nat);
    let fa = dec_str_signed(a.floor as int);
    let xa = dec_str(a.x as nat);
    let ya = dec_str(a.y as nat);
    let zb = dec_str(b.zoom as nat);
    let fb = dec_str_signed(b.floor as int);
    let xb = dec_str(b.x as nat);
    let yb = dec_str(b.y as nat);
    lemma_dec_str_chars(a.zoom as nat);
    lemma_dec_str_chars(a.x as nat);
    lemma_dec_str_chars(a.y as nat);
    lemma_dec_str_signed_chars(a.floor as int);
    lemma_dec_str_chars(b.zoom as nat);
    lemma_dec_str_chars(b.x as nat);
    lemma_dec_str_chars(b.y as nat);
    lemma_dec_str_signed_chars(b.floor as int);

    let sa = xa + seq!['/'] + ya;
    let ra = fa + seq!['/'] + sa;
    let ta = za + seq!['/'] + ra;
    let sb = xb + seq!['/'] + yb;
    let rb = fb + seq!['/'] + sb;
    let tb = zb + seq!['/'] + rb;

    assert(a.spec_spatial_id() =~= Seq::<char>::empty() + seq!['/'] + ta);
    assert(b.spec_spatial_id() =~= Seq::<char>::empty() + seq!['/'] + tb);
    lemma_sep_split('/', Seq::<char>::empty(), ta, Seq::<char>::empty(), tb);

    assert(forall|i: int| 0 <= i < za.len() ==> #[trigger] za[i] != '/');
    assert(forall|i: int| 0 <= i < zb.len() ==> #[trigger] zb[i] != '/');
    lemma_sep_split('/', za, ra, zb, rb);
    lemma_dec_str_injective(a.zoom as nat, b.zoom as nat);

    assert(forall|i: int| 0 <= i < fa.len() ==> #[trigger] fa[i] != '/');
    assert(forall|i: int| 0 <= i < fb.len() ==> #[trigger] fb[i] != '/');
    lemma_sep_split('/', fa, sa, fb, sb);
    lemma_dec_str_signed_injective(a.floor as int, b.floor as int);

    assert(forall|i: int| 0 <= i < xa.len() ==> #[trigger] xa[i] != '/');
    assert(forall|i: int| 0 <= i < xb.len() ==> #[trigger] xb[i] != '/');
    lemma_sep_split('/', xa, ya, xb, yb);
    lemma_dec_str_injective(a.x as nat, b.x as nat);
    lemma_dec_str_injective(a.y as nat, b.y as nat);
}

/// Law: the cover enumeration repeats no combination: distinct
/// `(a, b, c)` combinations of the index box stand at distinct positions.
pub proof fn lemma_cover_index_injective(
    a1: int,
    b1: int,
    c1: int,
    a2: int,
    b2: int,
    c2: int,
    ny: int,
    nf: int,
)
    requires
        0 <= a1,
        0 <= b1 < ny,
        0 <= c1 < nf,
        0 <= a2,
        0 <= b2 < ny,
        0 <= c2 < nf,
        cover_index(a1, b1, c1, ny, nf) == cover_index(a2, b2, c2, ny, nf),
    ensures
        a1 == a2,
        b1 == b2,
        c1 == c2,
{
    assert(a1 == a2 && b1 == b2 && c1 == c2) by (nonlinear_arith)
        requires
            0 <= a1,
            0 <= b1 < ny,
            0 <= c1 < nf,
            0 <= a2,
            0 <= b2 < ny,
            0 <= c2 < nf,
            (a1 * ny + b1) * nf + c1 == (a2 * ny + b2) * nf + c2,
    ;
}

/// Law: every position of a cover of box sides `nx`, `ny`, `nf` is the
/// position of some combination of the box. With the cover's contract and
/// `lemma_cover_index_injective`, the tiles of a cover are exactly the
/// box's combinations, each exactly once.
pub proof fn lemma_cover_index_decompose(k: int, nx: int, ny: int, nf: int)
    requires
        0 <= nx,
        0 <= ny,
        0 <= nf,
        0 <= k < nx * ny * nf,
    ensures
        exists|a: int, b: int, c: int|
            0 <= a < nx && 0 <= b < ny && 0 <= c < nf && #[trigger] cover_index(a, b, c, ny, nf)
                == k,
{
    let c = k % nf;
    let q = k / nf;
    let b = q % ny;
    let a = q / ny;
    assert(0 <= a < nx && 0 <= b < ny && 0 <= c < nf && cover_index(a, b, c, ny, nf) == k)
        by (nonlinear_arith)
        requires
            0 <= nx,
            0 <= ny,
            0 <= nf,
            0 <= k < nx * ny * nf,
            c == k % nf,
            q == k / nf,
            b == q % ny,
            a == q / ny,
    ;
}

/// Law: walking the octant path of `(z, f, x, y)` digit by digit from the
/// root reconstructs `(f, x, y)` exactly, whenever all three indices fit
/// the `2^z` grid. (A layer magnitude at or above `2^z` is truncated by
/// the path to its low `z` bits, so it is left out here.)
pub proof fn lemma_walk_path_digits(z: nat, f: nat, x: nat, y: nat)
    requires
        f < grid_width(z),
        x < grid_width(z),
        y < grid_width(z),
    ensures
        walk_path(path_digits(z, f, x, y)) == (f, x, y),
    decreases z,
{
    if z > 0 {
        let zp: nat = (z - 1) as nat;
        assert(grid_width(z) == 2 * grid_width(zp));
        lemma_walk_path_digits(zp, f / 2, x / 2, y / 2);
        let s = path_digits(z, f, x, y);
        let prefix = path_digits(zp, f / 2, x / 2, y / 2);
        let d: int = (x % 2 + 2 * (y % 2) + 4 * (f % 2)) as int;
        assert(s == prefix.push(octant_char(d)));
        assert(s.drop_last() =~= prefix);
        assert(s.last() == octant_char(d));
        assert(octant_index(octant_char(d)) == d);
        assert(walk_path(s).0 == 2 * (f / 2) + d / 4);
        assert(walk_path(s).1 == 2 * (x / 2) + d % 2);
        assert(walk_path(s).2 == 2 * (y / 2) + (d / 2) % 2);
    }
}

/// Law: a well-formed tile whose layer magnitude also fits its grid is
/// determined by its octant path: walking the digit part of the path hash
/// (what follows the optional sign, by `spec_tile_hash`) from the root
/// rebuilds `(|floor|, x, y)`.
pub proof fn lemma_tile_hash_reconstructs(t: ZFXY)
    requires
        t.wf(),
        t.abs_floor() < grid_width(t.zoom as nat),
    ensures
        walk_path(path_digits(t.zoom as nat, t.abs_floor() as nat, t.x as nat, t.y as nat)) == (
            t.abs_floor() as nat,
            t.x as nat,
            t.y as nat,
        ),
        t.floor >= 0 ==> walk_path(t.spec_tile_hash()) == (
            t.floor as nat,
            t.x as nat,
            t.y as nat,
        ),
{
    lemma_walk_path_digits(t.zoom as nat, t.abs_floor() as nat, t.x as nat, t.y as nat);
}

} // verus!
