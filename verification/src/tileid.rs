use vstd::prelude::*;
use vstd::arithmetic::power2::pow2;
use crate::hilbert::{
    pow4, spec_xy2d, spec_d2xy, spec_rot, spec_quadrant, mod_pow4, mod_pow2, lemma_xy2d_bound,
    lemma_pow4_pos, lemma_pow4_is_square, lemma_pow4_is_pow2, lemma_pow4_increases,
    lemma_mod_pow4_step, lemma_hilbert_round_trip,
};

verus! {

/// Number of tiles at all zoom levels below `z`: a complete quad pyramid.
pub open spec fn spec_pyramid(z: nat) -> nat
    decreases z,
{
    if z == 0 {
        0
    } else {
        spec_pyramid((z - 1) as nat) + pow4((z - 1) as nat)
    }
}

/// The id of tile `(z, x, y)`: all tiles of shallower zoom levels come
/// first, then the Hilbert distance within zoom `z`.
pub open spec fn spec_tile_id(z: nat, x: nat, y: nat) -> nat {
    spec_pyramid(z) + spec_xy2d(z, x, y)
}

/// Three pyramids and one more tile fill the next grid:
/// `3 * pyramid(z) == 4^z - 1`.
pub proof fn lemma_pyramid_times_three(z: nat)
    ensures
        3 * spec_pyramid(z) == pow4(z) - 1,
    decreases z,
{
    if z > 0 {
        lemma_pyramid_times_three((z - 1) as nat);
    }
}

/// Deeper pyramids hold more tiles; one zoom more adds a full grid.
pub proof fn lemma_pyramid_increases(z1: nat, z2: nat)
    requires
        z1 <= z2,
    ensures
        spec_pyramid(z1) <= spec_pyramid(z2),
        z1 < z2 ==> spec_pyramid(z1) + pow4(z1) <= spec_pyramid(z2),
    decreases z2,
{
    if z1 < z2 {
        lemma_pyramid_increases(z1, (z2 - 1) as nat);
        lemma_pow4_pos((z2 - 1) as nat);
        lemma_pow4_increases(z1, (z2 - 1) as nat);
    }
}

/// The pyramid brackets are disjoint: an id lies in the bracket of exactly
/// one zoom level.
pub proof fn lemma_zoom_unique(v: nat, z1: nat, z2: nat)
    requires
        spec_pyramid(z1) <= v < spec_pyramid(z1 + 1),
        spec_pyramid(z2) <= v < spec_pyramid(z2 + 1),
    ensures
        z1 == z2,
{
    if z1 < z2 {
        lemma_pyramid_increases(z1 + 1, z2);
    }
    if z2 < z1 {
        lemma_pyramid_increases(z2 + 1, z1);
    }
}

/// Every id of a tile at zoom 31 or below fits in 64 bits.
pub proof fn lemma_pyramid_bounds()
    ensures
        spec_pyramid(32) == 0x5555555555555555,
        pow4(31) == 0x4000000000000000,
        pow4(30) == 0x1000000000000000,
{
    lemma_pyramid_times_three(32);
    lemma_pow4_is_pow2(32);
    lemma_pow4_is_pow2(31);
    lemma_pow4_is_pow2(30);
    vstd::arithmetic::power2::lemma2_to64();
    vstd::arithmetic::power2::lemma2_to64_rest();
}

/// Tile-id round trip: the id of `(z, x, y)` falls in the pyramid bracket
/// of `z` and no other, and the Hilbert cell of its distance is `(x, y)`
/// again.  Together with the contracts of `encode` and `decode` this pins
/// `decode(encode(z, x, y)) == (z, x, y)`.
pub proof fn lemma_tile_id_round_trip(z: nat, x: nat, y: nat, z2: nat)
    requires
        x < pow2(z),
        y < pow2(z),
        spec_pyramid(z2) <= spec_tile_id(z, x, y) < spec_pyramid(z2 + 1),
    ensures
        z2 == z,
        spec_d2xy(z, (spec_tile_id(z, x, y) - spec_pyramid(z)) as nat) == (x, y),
{
    lemma_xy2d_bound(z, x, y);
    lemma_hilbert_round_trip(z, x, y);
    assert(spec_pyramid(z + 1) == spec_pyramid(z) + pow4(z));
    lemma_zoom_unique(spec_tile_id(z, x, y), z, z2);
}

/// A tile id: the quad-pyramid offset of its zoom level plus the
/// Hilbert-curve distance of its cell, in one 64-bit value.  Ids are unique
/// per tile, and their order within a zoom level is the Hilbert visiting
/// order.
#[derive(Clone, Copy, Debug, PartialEq, Eq, Structural)]
pub struct TileId {
    pub value: u64,
}

/// `2^e`, as a grid side length.
fn pow2_u32(e: u8) -> (r: u32)
    requires
        e <= 31,
    ensures
        r == pow2(e as nat),
{
    let mut r: u32 = 1;
    let mut i: u8 = 0;
    proof {
        vstd::arithmetic::power2::lemma2_to64();
    }
    while i < e
        invariant
            i <= e <= 31,
            r == pow2(i as nat),
        decreases e - i,
    {
        proof {
            vstd::arithmetic::power2::lemma2_to64();
            vstd::arithmetic::power2::lemma_pow2_unfold((i + 1) as nat);
            if i + 1 < 31 {
                vstd::arithmetic::power2::lemma_pow2_strictly_increases((i + 1) as nat, 31);
            }
        }
        r = r * 2;
        i = i + 1;
    }
    r
}

impl TileId {
    /// Wraps a raw id, as read back from a directory entry.
    pub fn new(value: u64) -> (r: TileId)
        ensures
            r.value == value,
    {
        TileId { value }
    }

    /// The raw 64-bit id.
    pub fn value(&self) -> (r: u64)
        ensures
            r == self.value,
    {
        self.value
    }

    /// Encodes `(z, x, y)` as a tile id.
    pub fn encode(z: u8, x: u32, y: u32) -> (r: TileId)
        requires
            z <= 31,
            x < pow2(z as nat),
            y < pow2(z as nat),
        ensures
            r.value == spec_tile_id(z as nat, x as nat, y as nat),
            spec_pyramid(z as nat) <= r.value < spec_pyramid(z as nat + 1),
    {
        proof {
            lemma_pyramid_bounds();
        }
        let mut base: u64 = 0;
        let mut p: u64 = 1;
        let mut k: u8 = 0;
        while k < z
            invariant
                k <= z <= 31,
                base == spec_pyramid(k as nat),
                p == pow4(k as nat),
            decreases z - k,
        {
            proof {
                lemma_pyramid_bounds();
                assert(spec_pyramid(k as nat + 1) == spec_pyramid(k as nat) + pow4(k as nat));
                lemma_pyramid_increases(k as nat + 1, 32);
                assert(spec_pyramid(k as nat + 2) == spec_pyramid(k as nat + 1) + pow4(
                    k as nat + 1,
                ));
                lemma_pyramid_increases(k as nat + 2, 32);
                assert(pow4(k as nat + 1) == 4 * pow4(k as nat));
            }
            base = base + p;
            p = p * 4;
            k = k + 1;
        }
        let h = Self::xy_to_hilbert(z, x, y);
        proof {
            lemma_pyramid_bounds();
            lemma_xy2d_bound(z as nat, x as nat, y as nat);
            assert(spec_pyramid(z as nat + 1) == spec_pyramid(z as nat) + pow4(z as nat));
            lemma_pyramid_increases(z as nat + 1, 32);
        }
        TileId { value: base + h }
    }

    /// Hilbert distance of `(x, y)` within zoom level `z`.
    fn xy_to_hilbert(z: u8, x: u32, y: u32) -> (r: u64)
        requires
            z <= 31,
            x < pow2(z as nat),
            y < pow2(z as nat),
        ensures
            r == spec_xy2d(z as nat, x as nat, y as nat),
    {
        let ghost total = spec_xy2d(z as nat, x as nat, y as nat);
        proof {
            lemma_xy2d_bound(z as nat, x as nat, y as nat);
            lemma_pow4_increases(z as nat, 31);
            lemma_pyramid_bounds();
        }
        let mut d: u64 = 0;
        let mut cx: u32 = x;
        let mut cy: u32 = y;
        let mut k: u8 = z;
        while k > 0
            invariant
                k <= z <= 31,
                cx < pow2(k as nat),
                cy < pow2(k as nat),
                total < 0x4000000000000000,
                total == d + spec_xy2d(k as nat, cx as nat, cy as nat),
        decreases k,
    {
            let ghost kj = (k - 1) as nat;
            let ghost px = cx as nat;
            let ghost py = cy as nat;
            let s: u32 = pow2_u32(k - 1);
            proof {
                vstd::arithmetic::power2::lemma_pow2_pos(kj);
                vstd::arithmetic::power2::lemma_pow2_unfold(k as nat);
                vstd::arithmetic::power2::lemma2_to64();
                if kj < 30 {
                    vstd::arithmetic::power2::lemma_pow2_strictly_increases(kj, 30);
                }
                lemma_pow4_is_square(kj);
                lemma_pyramid_bounds();
                lemma_pow4_increases(kj, 30);
            }
            let rx: u32 = if cx >= s {
                1
            } else {
                0
            };
            let ry: u32 = if cy >= s {
                1
            } else {
                0
            };
            let q: u64 = if rx == 0 {
                ry as u64
            } else {
                3 - (ry as u64)
            };
            let s2: u64 = (s as u64) * (s as u64);
            proof {
                assert(s2 == pow4(kj));
                assert(q == spec_quadrant(rx as nat, ry as nat));
            }
            if ry == 0 {
                if rx == 1 {
                    cx = 2 * s - 1 - cx;
                    cy = 2 * s - 1 - cy;
                }
                let t = cx;
                cx = cy;
                cy = t;
            }
            proof {
                assert((cx as nat, cy as nat) == spec_rot(2 * pow2(kj), px, py, rx as nat, ry as nat));
            }
            cx = cx % s;
            cy = cy % s;
            proof {
                let xy = spec_rot(2 * pow2(kj), px, py, rx as nat, ry as nat);
                assert(cx as nat == mod_pow2(xy.0, kj));
                assert(cy as nat == mod_pow2(xy.1, kj));
                assert(spec_xy2d(k as nat, px, py) == spec_quadrant(rx as nat, ry as nat) * pow4(
                    kj,
                ) + spec_xy2d(kj, mod_pow2(xy.0, kj), mod_pow2(xy.1, kj)));
                assert(q * s2 <= spec_xy2d(k as nat, px, py));
            }
            d = d + q * s2;
            k = k - 1;
        }
        d
    }

    /// Splits an id into its zoom level and cell coordinates.
    pub fn decode(&self) -> (r: (u8, u32, u32))
        requires
            self.value < spec_pyramid(32),
        ensures
            r.0 <= 31,
            spec_pyramid(r.0 as nat) <= self.value < spec_pyramid(r.0 as nat + 1),
            (r.1 as nat, r.2 as nat) == spec_d2xy(
                r.0 as nat,
                (self.value - spec_pyramid(r.0 as nat)) as nat,
            ),
            r.1 < pow2(r.0 as nat),
            r.2 < pow2(r.0 as nat),
    {
        proof {
            lemma_pyramid_bounds();
        }
        let mut rem: u64 = self.value;
        let mut z: u8 = 0;
        let mut next: u64 = 1;
        while rem >= next
            invariant
                z <= 31,
                next == pow4(z as nat),
                self.value == spec_pyramid(z as nat) + rem,
                self.value < spec_pyramid(32),
            decreases 32 - z,
        {
            proof {
                lemma_pyramid_bounds();
                assert(spec_pyramid(z as nat + 1) == spec_pyramid(z as nat) + pow4(z as nat));
                if z == 31 {
                    assert(self.value >= spec_pyramid(32));
                }
                lemma_pyramid_increases(z as nat + 1, 32);
                assert(pow4(z as nat + 1) == 4 * pow4(z as nat));
                lemma_pow4_increases(z as nat + 1, 31);
            }
            rem = rem - next;
            next = next * 4;
            z = z + 1;
        }
        proof {
            assert(spec_pyramid(z as nat + 1) == spec_pyramid(z as nat) + pow4(z as nat));
        }
        let (x, y) = Self::hilbert_to_xy(z, rem);
        (z, x, y)
    }

    /// Cell of zoom level `z` at Hilbert distance `d`.
    fn hilbert_to_xy(z: u8, d: u64) -> (r: (u32, u32))
        requires
            z <= 31,
            d < pow4(z as nat),
        ensures
            (r.0 as nat, r.1 as nat) == spec_d2xy(z as nat, d as nat),
            r.0 < pow2(z as nat),
            r.1 < pow2(z as nat),
    {
        let mut cx: u32 = 0;
        let mut cy: u32 = 0;
        let mut t: u64 = d;
        let mut s: u32 = 1;
        let mut j: u8 = 0;
        proof {
            vstd::arithmetic::power2::lemma2_to64();
            lemma_pow4_pos(0);
            vstd::arithmetic::div_mod::lemma_small_mod(0, 1);
            assert(mod_pow4(d as nat, 0) == d as nat % 1);
            vstd::arithmetic::div_mod::lemma_mod_division_less_than_divisor(d as int, 1);
            vstd::arithmetic::div_mod::lemma_div_by_self(1);
            vstd::arithmetic::div_mod::lemma_div_basics(d as int);
        }
        while j < z
            invariant
                j <= z <= 31,
                s == pow2(j as nat),
                t as nat == d as nat / pow4(j as nat),
                (cx as nat, cy as nat) == spec_d2xy(j as nat, mod_pow4(d as nat, j as nat)),
                cx < pow2(j as nat),
                cy < pow2(j as nat),
                d < pow4(z as nat),
            decreases z - j,
        {
            let ghost pj = j as nat;
            let ghost px = cx as nat;
            let ghost py = cy as nat;
            let ghost m = mod_pow4(d as nat, pj + 1);
            proof {
                vstd::arithmetic::power2::lemma_pow2_pos(pj);
                vstd::arithmetic::power2::lemma_pow2_unfold(pj + 1);
                vstd::arithmetic::power2::lemma2_to64();
                if pj + 1 < 31 {
                    vstd::arithmetic::power2::lemma_pow2_strictly_increases(pj + 1, 31);
                }
                lemma_pow4_pos(pj);
                lemma_mod_pow4_step(d as nat, pj);
            }
            let q64: u64 = t % 4;
            let rx: u32 = (q64 / 2) as u32;
            let ry: u32 = if q64 == 1 || q64 == 2 {
                1
            } else {
                0
            };
            if ry == 0 {
                if rx == 1 {
                    cx = s - 1 - cx;
                    cy = s - 1 - cy;
                }
                let tmp = cx;
                cx = cy;
                cy = tmp;
            }
            proof {
                assert((cx as nat, cy as nat) == spec_rot(pow2(pj), px, py, rx as nat, ry as nat));
                assert((m / pow4(pj)) % 4 == q64);
                assert(mod_pow4(m, pj) == mod_pow4(d as nat, pj));
                assert(spec_d2xy(pj + 1, m) == ({
                    let r = spec_rot(pow2(pj), px, py, rx as nat, ry as nat);
                    (r.0 + pow2(pj) * (rx as nat), r.1 + pow2(pj) * (ry as nat))
                }));
                if rx == 1 {
                    assert(pow2(pj) * (rx as nat) == pow2(pj)) by (nonlinear_arith)
                        requires
                            rx == 1,
                    ;
                } else {
                    assert(pow2(pj) * (rx as nat) == 0) by (nonlinear_arith)
                        requires
                            rx == 0,
                    ;
                }
                if ry == 1 {
                    assert(pow2(pj) * (ry as nat) == pow2(pj)) by (nonlinear_arith)
                        requires
                            ry == 1,
                    ;
                } else {
                    assert(pow2(pj) * (ry as nat) == 0) by (nonlinear_arith)
                        requires
                            ry == 0,
                    ;
                }
            }
            if rx == 1 {
                cx = cx + s;
            }
            if ry == 1 {
                cy = cy + s;
            }
            proof {
                assert((cx as nat, cy as nat) == spec_d2xy(pj + 1, m));
                assert(pow4(pj + 1) == 4 * pow4(pj));
                vstd::arithmetic::div_mod::lemma_div_denominator(d as int, pow4(pj) as int, 4);
            }
            t = t / 4;
            s = s * 2;
            j = j + 1;
        }
        proof {
            vstd::arithmetic::div_mod::lemma_small_mod(d as nat, pow4(z as nat));
        }
        (cx, cy)
    }
}

} // verus!
