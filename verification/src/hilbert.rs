use vstd::prelude::*;
use vstd::arithmetic::power2::pow2;

verus! {

/// `4^z`: the number of cells of the `2^z` by `2^z` grid at depth `z`.
pub open spec fn pow4(z: nat) -> nat
    decreases z,
{
    if z == 0 {
        1
    } else {
        4 * pow4((z - 1) as nat)
    }
}

/// `4^z` is the square of the side length `2^z`.
pub proof fn lemma_pow4_is_square(z: nat)
    ensures
        pow4(z) == pow2(z) * pow2(z),
    decreases z,
{
    if z == 0 {
        vstd::arithmetic::power2::lemma2_to64();
    } else {
        lemma_pow4_is_square((z - 1) as nat);
        vstd::arithmetic::power2::lemma_pow2_unfold(z);
        let p = pow2((z - 1) as nat) as int;
        assert((2 * p) * (2 * p) == 4 * (p * p)) by (nonlinear_arith);
    }
}

/// The low `2j` bits of a Hilbert distance: what is left for the quadrants
/// below depth `j`.
pub open spec fn mod_pow4(d: nat, j: nat) -> nat {
    d % pow4(j)
}

/// The low `j` bits of a coordinate: its position within the frame of side
/// `2^j`.
pub open spec fn mod_pow2(x: nat, j: nat) -> nat {
    x % pow2(j)
}

/// One reflect/transpose step of the Hilbert construction: inside an `n` by
/// `n` frame, the two lower quadrants (`ry == 0`) are transposed, the lower
/// right one (`rx == 1`) after a point reflection of the frame.
pub open spec fn spec_rot(n: nat, x: nat, y: nat, rx: nat, ry: nat) -> (nat, nat) {
    if ry == 0 {
        if rx == 1 {
            ((n - 1 - y) as nat, (n - 1 - x) as nat)
        } else {
            (y, x)
        }
    } else {
        (x, y)
    }
}

/// Order in which the curve visits the four quadrants, from their bits:
/// lower left, upper left, upper right, lower right.
pub open spec fn spec_quadrant(rx: nat, ry: nat) -> nat {
    if rx == 0 {
        ry
    } else {
        (3 - ry) as nat
    }
}

/// Hilbert distance of cell `(x, y)` on the `2^z` by `2^z` grid: the top
/// quadrant contributes its index times a quarter of the grid, the rest is
/// the distance within the quadrant, whose frame is reflected and transposed
/// so that consecutive cells stay neighbours.
pub open spec fn spec_xy2d(z: nat, x: nat, y: nat) -> nat
    decreases z,
{
    if z == 0 {
        0
    } else {
        let j = (z - 1) as nat;
        let s = pow2(j);
        let rx: nat = if x >= s {
            1
        } else {
            0
        };
        let ry: nat = if y >= s {
            1
        } else {
            0
        };
        let q = spec_quadrant(rx, ry);
        let xy = spec_rot(2 * s, x, y, rx, ry);
        q * pow4(j) + spec_xy2d(j, mod_pow2(xy.0, j), mod_pow2(xy.1, j))
    }
}

/// Cell of the `2^z` by `2^z` grid at Hilbert distance `d`: the two top bits
/// of `d` pick the quadrant, the rest places the cell within the quadrant's
/// reflected and transposed frame.
pub open spec fn spec_d2xy(z: nat, d: nat) -> (nat, nat)
    decreases z,
{
    if z == 0 {
        (0, 0)
    } else {
        let j = (z - 1) as nat;
        let s = pow2(j);
        let q = (d / pow4(j)) % 4;
        let rx: nat = q / 2;
        let ry: nat = if q == 1 || q == 2 {
            1
        } else {
            0
        };
        let xy = spec_d2xy(j, mod_pow4(d, j));
        let r = spec_rot(s, xy.0, xy.1, rx, ry);
        (r.0 + s * rx, r.1 + s * ry)
    }
}

/// There is at least one cell at every depth.
pub proof fn lemma_pow4_pos(z: nat)
    ensures
        pow4(z) >= 1,
    decreases z,
{
    if z > 0 {
        lemma_pow4_pos((z - 1) as nat);
    }
}

/// Adding one full frame width does not change a position within the frame.
proof fn lemma_mod_shift(s: int, t: int)
    requires
        s > 0,
        0 <= t < s,
    ensures
        (s + t) % s == t,
{
    vstd::arithmetic::div_mod::lemma_mod_add_multiples_vanish(t, s);
    vstd::arithmetic::div_mod::lemma_small_mod(t as nat, s as nat);
}

/// Hilbert round trip: decoding the distance of a cell yields the cell.
pub proof fn lemma_hilbert_round_trip(z: nat, x: nat, y: nat)
    requires
        x < pow2(z),
        y < pow2(z),
    ensures
        spec_xy2d(z, x, y) < pow4(z),
        spec_d2xy(z, spec_xy2d(z, x, y)) == (x, y),
    decreases z,
{
    lemma_xy2d_bound(z, x, y);
    vstd::arithmetic::power2::lemma2_to64();
    if z == 0 {
        assert(x == 0 && y == 0);
    } else {
        let j = (z - 1) as nat;
        let s = pow2(j);
        let s2 = pow4(j);
        vstd::arithmetic::power2::lemma_pow2_pos(j);
        lemma_pow4_pos(j);
        vstd::arithmetic::power2::lemma_pow2_unfold(z);
        let rx: nat = if x >= s {
            1
        } else {
            0
        };
        let ry: nat = if y >= s {
            1
        } else {
            0
        };
        let q = spec_quadrant(rx, ry);
        let xy = spec_rot(2 * s, x, y, rx, ry);
        let a = mod_pow2(xy.0, j);
        let b = mod_pow2(xy.1, j);
        let dd = spec_xy2d(j, a, b);
        let dist = spec_xy2d(z, x, y);
        assert(dist == q * s2 + dd);
        lemma_xy2d_bound(j, a, b);
        vstd::arithmetic::div_mod::lemma_mod_division_less_than_divisor(xy.0 as int, s as int);
        vstd::arithmetic::div_mod::lemma_mod_division_less_than_divisor(xy.1 as int, s as int);
        lemma_hilbert_round_trip(j, a, b);
        // split the distance back into quadrant index and remainder
        vstd::arithmetic::div_mod::lemma_fundamental_div_mod_converse(
            dist as int,
            s2 as int,
            q as int,
            dd as int,
        );
        assert(dist / s2 == q && dist % s2 == dd);
        vstd::arithmetic::div_mod::lemma_small_mod(q, 4);
        assert((dist / pow4(j)) % 4 == q);
        assert(mod_pow4(dist, j) == dd);
        assert(spec_d2xy(j, mod_pow4(dist, j)) == (a, b));
        // the quadrant bits are recovered from the quadrant index
        let rx2: nat = q / 2;
        let ry2: nat = if q == 1 || q == 2 {
            1
        } else {
            0
        };
        assert(rx2 == rx && ry2 == ry);
        let r = spec_rot(s, a, b, rx, ry);
        assert(spec_d2xy(z, dist) == (r.0 + s * rx2, r.1 + s * ry2));
        // undo the reflect/transpose of the quadrant frame
        if ry == 1 {
            assert(xy == (x, y));
            assert(r == (a, b));
            assert(y >= s && y < 2 * s);
            lemma_mod_shift(s as int, y - s);
            assert(b == y - s);
            if rx == 1 {
                assert(x >= s && x < 2 * s);
                lemma_mod_shift(s as int, x - s);
                assert(a == x - s);
                assert(s * rx2 == s && s * ry2 == s) by (nonlinear_arith)
                    requires
                        rx2 == 1,
                        ry2 == 1,
                        s >= 0,
                ;
            } else {
                vstd::arithmetic::div_mod::lemma_small_mod(x, s);
                assert(a == x);
                assert(s * rx2 == 0 && s * ry2 == s) by (nonlinear_arith)
                    requires
                        rx2 == 0,
                        ry2 == 1,
                        s >= 0,
                ;
            }
        } else if rx == 0 {
            assert(x < s && y < s);
            assert(xy == (y, x));
            vstd::arithmetic::div_mod::lemma_small_mod(x, s);
            vstd::arithmetic::div_mod::lemma_small_mod(y, s);
            assert(a == y && b == x);
            assert(r == (b, a));
            assert(s * rx2 == 0 && s * ry2 == 0) by (nonlinear_arith)
                requires
                    rx2 == 0,
                    ry2 == 0,
                    s >= 0,
            ;
        } else {
            // lower right quadrant: the frame was point-reflected, then
            // transposed
            assert(x >= s && y < s);
            assert(xy == ((2 * s - 1 - y) as nat, (2 * s - 1 - x) as nat));
            lemma_mod_shift(s as int, s - 1 - y);
            assert(a == s - 1 - y);
            vstd::arithmetic::div_mod::lemma_small_mod((2 * s - 1 - x) as nat, s);
            assert(b == 2 * s - 1 - x);
            assert(r == (((s - 1 - b) as nat, (s - 1 - a) as nat)));
            assert(r.0 == x - s && r.1 == y);
            assert(s * rx2 == s && s * ry2 == 0) by (nonlinear_arith)
                requires
                    rx2 == 1,
                    ry2 == 0,
                    s >= 0,
            ;
        }
        assert(spec_d2xy(z, dist) == (x, y));
    }
}

/// Hilbert round trip, the other way: the cell at a distance has exactly
/// that distance.
pub proof fn lemma_hilbert_inverse(z: nat, d: nat)
    requires
        d < pow4(z),
    ensures
        spec_xy2d(z, spec_d2xy(z, d).0, spec_d2xy(z, d).1) == d,
    decreases z,
{
    if z == 0 {
    } else {
        let j = (z - 1) as nat;
        let s = pow2(j);
        let s2 = pow4(j);
        vstd::arithmetic::power2::lemma_pow2_pos(j);
        lemma_pow4_pos(j);
        vstd::arithmetic::power2::lemma_pow2_unfold(z);
        assert(pow4(z) == 4 * s2);
        vstd::arithmetic::div_mod::lemma_multiply_divide_lt(d as int, s2 as int, 4);
        vstd::arithmetic::div_mod::lemma_small_mod((d / s2) as nat, 4);
        let q = (d / pow4(j)) % 4;
        assert(q == d / s2);
        let rx: nat = q / 2;
        let ry: nat = if q == 1 || q == 2 {
            1
        } else {
            0
        };
        let dd = mod_pow4(d, j);
        vstd::arithmetic::div_mod::lemma_mod_division_less_than_divisor(d as int, s2 as int);
        lemma_hilbert_inverse(j, dd);
        lemma_d2xy_in_range(j, dd);
        let ab = spec_d2xy(j, dd);
        let a = ab.0;
        let b = ab.1;
        assert(a < s && b < s);
        let r = spec_rot(s, a, b, rx, ry);
        let big = spec_d2xy(z, d);
        assert(big == (r.0 + s * rx, r.1 + s * ry));
        let gx = big.0;
        let gy = big.1;
        // the quadrant of the decoded cell is the quadrant of the distance
        let rx3: nat = if gx >= s {
            1
        } else {
            0
        };
        let ry3: nat = if gy >= s {
            1
        } else {
            0
        };
        let xy3 = spec_rot(2 * s, gx, gy, rx3, ry3);
        if ry == 1 {
            assert(r == (a, b));
            if rx == 1 {
                assert(s * rx == s && s * ry == s) by (nonlinear_arith)
                    requires
                        rx == 1,
                        ry == 1,
                        s >= 0,
                ;
                assert(gx == a + s && gy == b + s);
                lemma_mod_shift(s as int, a as int);
                lemma_mod_shift(s as int, b as int);
            } else {
                assert(s * rx == 0 && s * ry == s) by (nonlinear_arith)
                    requires
                        rx == 0,
                        ry == 1,
                        s >= 0,
                ;
                assert(gx == a && gy == b + s);
                vstd::arithmetic::div_mod::lemma_small_mod(a, s);
                lemma_mod_shift(s as int, b as int);
            }
            assert(rx3 == rx && ry3 == ry);
            assert(xy3 == (gx, gy));
            assert(mod_pow2(xy3.0, j) == a && mod_pow2(xy3.1, j) == b);
        } else if rx == 0 {
            assert(s * rx == 0 && s * ry == 0) by (nonlinear_arith)
                requires
                    rx == 0,
                    ry == 0,
                    s >= 0,
            ;
            assert(r == (b, a));
            assert(gx == b && gy == a);
            assert(rx3 == rx && ry3 == ry);
            assert(xy3 == (a, b));
            vstd::arithmetic::div_mod::lemma_small_mod(a, s);
            vstd::arithmetic::div_mod::lemma_small_mod(b, s);
            assert(mod_pow2(xy3.0, j) == a && mod_pow2(xy3.1, j) == b);
        } else {
            assert(s * rx == s && s * ry == 0) by (nonlinear_arith)
                requires
                    rx == 1,
                    ry == 0,
                    s >= 0,
            ;
            assert(r == (((s - 1 - b) as nat, (s - 1 - a) as nat)));
            assert(gx == 2 * s - 1 - b && gy == s - 1 - a);
            assert(rx3 == rx && ry3 == ry);
            assert(xy3 == ((2 * s - 1 - gy) as nat, (2 * s - 1 - gx) as nat));
            assert(xy3 == (s + a, b));
            lemma_mod_shift(s as int, a as int);
            vstd::arithmetic::div_mod::lemma_small_mod(b, s);
            assert(mod_pow2(xy3.0, j) == a && mod_pow2(xy3.1, j) == b);
        }
        let q3 = spec_quadrant(rx3, ry3);
        assert(q3 == q);
        assert(spec_xy2d(z, gx, gy) == q3 * pow4(j) + spec_xy2d(
            j,
            mod_pow2(xy3.0, j),
            mod_pow2(xy3.1, j),
        ));
        assert(spec_xy2d(j, a, b) == dd);
        vstd::arithmetic::div_mod::lemma_fundamental_div_mod(d as int, s2 as int);
        assert(q * s2 == s2 * q) by (nonlinear_arith);
        assert(spec_xy2d(z, gx, gy) == d);
    }
}

/// Within one zoom level the curve visits every cell exactly once: distinct
/// distances land on distinct cells.  Together with the round trip, every
/// cell of the grid is reached, namely from the distance that encodes it.
pub proof fn lemma_hilbert_bijection(z: nat, d1: nat, d2: nat)
    requires
        d1 < pow4(z),
        d2 < pow4(z),
        d1 != d2,
    ensures
        spec_d2xy(z, d1) != spec_d2xy(z, d2),
{
    lemma_hilbert_inverse(z, d1);
    lemma_hilbert_inverse(z, d2);
}

/// Taxicab distance between two cells.
pub open spec fn cell_distance(p: (nat, nat), q: (nat, nat)) -> int {
    (if p.0 >= q.0 {
        p.0 - q.0
    } else {
        q.0 - p.0
    }) + (if p.1 >= q.1 {
        p.1 - q.1
    } else {
        q.1 - p.1
    })
}

/// The curve enters every grid at the lower left corner.
pub proof fn lemma_d2xy_start(z: nat)
    ensures
        spec_d2xy(z, 0) == (0nat, 0nat),
    decreases z,
{
    if z > 0 {
        let j = (z - 1) as nat;
        let s2 = pow4(j);
        lemma_pow4_pos(j);
        lemma_d2xy_start(j);
        vstd::arithmetic::div_mod::lemma_small_mod(0, s2);
        vstd::arithmetic::div_mod::lemma_small_div_converse(0, s2 as int);
        assert(mod_pow4(0, j) == 0);
        vstd::arithmetic::div_mod::lemma_small_mod(0, 4);
        let s = pow2(j);
        assert(s * 0 == 0) by (nonlinear_arith);
        assert(spec_d2xy(z, 0) == (0nat + s * 0, 0nat + s * 0));
    }
}

/// The curve leaves every grid at the lower right corner.
pub proof fn lemma_d2xy_end(z: nat)
    ensures
        spec_d2xy(z, (pow4(z) - 1) as nat) == ((pow2(z) - 1) as nat, 0nat),
    decreases z,
{
    vstd::arithmetic::power2::lemma2_to64();
    if z == 0 {
    } else {
        let j = (z - 1) as nat;
        let s = pow2(j);
        let s2 = pow4(j);
        lemma_pow4_pos(j);
        vstd::arithmetic::power2::lemma_pow2_pos(j);
        vstd::arithmetic::power2::lemma_pow2_unfold(z);
        lemma_d2xy_end(j);
        let d = (pow4(z) - 1) as nat;
        assert(pow4(z) == 4 * s2);
        assert(d == 3 * s2 + (s2 - 1));
        vstd::arithmetic::div_mod::lemma_fundamental_div_mod_converse(
            d as int,
            s2 as int,
            3,
            s2 - 1,
        );
        vstd::arithmetic::div_mod::lemma_small_mod(3, 4);
        assert((d / pow4(j)) % 4 == 3);
        assert(mod_pow4(d, j) == (s2 - 1) as nat);
        let inner = spec_d2xy(j, (s2 - 1) as nat);
        assert(inner == (((s - 1) as nat, 0nat)));
        let r = spec_rot(s, (s - 1) as nat, 0nat, 1, 0);
        assert(r == (((s - 1) as nat, 0nat)));
        assert(s * 1 == s && s * 0 == 0) by (nonlinear_arith);
        assert(spec_d2xy(z, d) == (r.0 + s * 1, r.1 + s * 0));
        assert(spec_d2xy(z, d).0 == (s - 1) + s == (pow2(z) - 1));
    }
}

/// Hilbert locality: cells at consecutive distances are grid neighbours.
pub proof fn lemma_hilbert_adjacent(z: nat, d: nat)
    requires
        d + 1 < pow4(z),
    ensures
        cell_distance(spec_d2xy(z, d), spec_d2xy(z, d + 1)) == 1,
    decreases z,
{
    if z == 0 {
        assert(false);
    } else {
        let j = (z - 1) as nat;
        let s = pow2(j);
        let s2 = pow4(j);
        lemma_pow4_pos(j);
        vstd::arithmetic::power2::lemma_pow2_pos(j);
        assert(pow4(z) == 4 * s2);
        let q = d / s2;
        let dd = d % s2;
        vstd::arithmetic::div_mod::lemma_fundamental_div_mod(d as int, s2 as int);
        vstd::arithmetic::div_mod::lemma_mod_division_less_than_divisor(d as int, s2 as int);
        vstd::arithmetic::div_mod::lemma_multiply_divide_lt(d as int, s2 as int, 4);
        vstd::arithmetic::div_mod::lemma_small_mod(q as nat, 4);
        assert((d / pow4(j)) % 4 == q);
        assert(mod_pow4(d, j) == dd);
        if dd + 1 < s2 {
            // both distances fall in the same quadrant
            vstd::arithmetic::div_mod::lemma_fundamental_div_mod_converse(
                d as int + 1,
                s2 as int,
                q as int,
                dd as int + 1,
            );
            vstd::arithmetic::div_mod::lemma_small_mod(q as nat, 4);
            assert(((d + 1) as nat / pow4(j)) % 4 == q);
            assert(mod_pow4((d + 1) as nat, j) == dd + 1);
            lemma_hilbert_adjacent(j, dd);
            lemma_d2xy_in_range(j, dd);
            lemma_d2xy_in_range(j, (dd + 1) as nat);
            let p = spec_d2xy(j, dd);
            let p2 = spec_d2xy(j, (dd + 1) as nat);
            let rx: nat = q / 2;
            let ry: nat = if q == 1 || q == 2 {
                1
            } else {
                0
            };
            let r = spec_rot(s, p.0, p.1, rx, ry);
            let r2 = spec_rot(s, p2.0, p2.1, rx, ry);
            assert(cell_distance(r, r2) == cell_distance(p, p2));
            if rx == 0 {
                assert(s * rx == 0) by (nonlinear_arith)
                    requires
                        rx == 0,
                ;
            } else {
                assert(s * rx == s) by (nonlinear_arith)
                    requires
                        rx == 1,
                ;
            }
            if ry == 0 {
                assert(s * ry == 0) by (nonlinear_arith)
                    requires
                        ry == 0,
                ;
            } else {
                assert(s * ry == s) by (nonlinear_arith)
                    requires
                        ry == 1,
                ;
            }
            assert(spec_d2xy(z, d) == (r.0 + s * rx, r.1 + s * ry));
            assert(spec_d2xy(z, d + 1) == (r2.0 + s * rx, r2.1 + s * ry));
        } else {
            // the quadrant boundary: the end corner of one sub-curve meets
            // the start corner of the next
            assert(dd == s2 - 1);
            assert(d + 1 == (q + 1) * s2 + 0) by (nonlinear_arith)
                requires
                    d == q * s2 + dd,
                    dd == s2 - 1,
            ;
            assert(q + 1 <= 3) by {
                if q >= 3 {
                    assert(d + 1 >= 4 * s2) by (nonlinear_arith)
                        requires
                            d + 1 == (q + 1) * s2 + 0,
                            q >= 3,
                            s2 >= 1,
                    ;
                }
            }
            vstd::arithmetic::div_mod::lemma_fundamental_div_mod_converse(
                d as int + 1,
                s2 as int,
                q as int + 1,
                0,
            );
            vstd::arithmetic::div_mod::lemma_small_mod((q + 1) as nat, 4);
            assert(((d + 1) as nat / pow4(j)) % 4 == q + 1);
            assert(mod_pow4((d + 1) as nat, j) == 0);
            lemma_d2xy_start(j);
            lemma_d2xy_end(j);
            assert(spec_d2xy(j, mod_pow4(d, j)) == (((s - 1) as nat, 0nat))) by {
                assert(s2 - 1 == pow4(j) - 1);
            }
            let e = (((s - 1) as nat, 0nat));
            assert(s * 0 == 0 && s * 1 == s) by (nonlinear_arith);
            if q == 0 {
                let r = spec_rot(s, e.0, e.1, 0, 0);
                assert(r == (0nat, (s - 1) as nat));
                assert(spec_d2xy(z, d) == (r.0 + s * 0, r.1 + s * 0));
                let r2 = spec_rot(s, 0nat, 0nat, 0, 1);
                assert(r2 == (0nat, 0nat));
                assert(spec_d2xy(z, d + 1) == (r2.0 + s * 0, r2.1 + s * 1));
            } else if q == 1 {
                let r = spec_rot(s, e.0, e.1, 0, 1);
                assert(r == e);
                assert(spec_d2xy(z, d) == (r.0 + s * 0, r.1 + s * 1));
                let r2 = spec_rot(s, 0nat, 0nat, 1, 1);
                assert(r2 == (0nat, 0nat));
                assert(spec_d2xy(z, d + 1) == (r2.0 + s * 1, r2.1 + s * 1));
            } else {
                assert(q == 2);
                let r = spec_rot(s, e.0, e.1, 1, 1);
                assert(r == e);
                assert(spec_d2xy(z, d) == (r.0 + s * 1, r.1 + s * 1));
                let r2 = spec_rot(s, 0nat, 0nat, 1, 0);
                assert(r2 == (((s - 1) as nat, (s - 1) as nat)));
                assert(spec_d2xy(z, d + 1) == (r2.0 + s * 1, r2.1 + s * 0));
            }
        }
    }
}

/// `4^z` as a power of two.
pub proof fn lemma_pow4_is_pow2(z: nat)
    ensures
        pow4(z) == pow2(2 * z),
{
    lemma_pow4_is_square(z);
    vstd::arithmetic::power2::lemma_pow2_adds(z, z);
}

/// Deeper grids have more cells.
pub proof fn lemma_pow4_increases(z1: nat, z2: nat)
    requires
        z1 <= z2,
    ensures
        pow4(z1) <= pow4(z2),
    decreases z2,
{
    if z1 < z2 {
        lemma_pow4_increases(z1, (z2 - 1) as nat);
        lemma_pow4_pos((z2 - 1) as nat);
    }
}

/// Peeling one depth off a truncated distance: the quadrant bits and the
/// remainder below depth `j` are unchanged by first truncating at `j + 1`.
pub proof fn lemma_mod_pow4_step(d: nat, j: nat)
    ensures
        (mod_pow4(d, j + 1) / pow4(j)) % 4 == (d / pow4(j)) % 4,
        mod_pow4(mod_pow4(d, j + 1), j) == mod_pow4(d, j),
{
    lemma_pow4_pos(j);
    let p = pow4(j) as int;
    assert(pow4(j + 1) == 4 * pow4(j));
    vstd::arithmetic::div_mod::lemma_breakdown(d as int, p, 4);
    let qq = (d as int / p) % 4;
    let rr = d as int % p;
    assert(d as int % (p * 4) == p * qq + rr);
    assert(p * 4 == 4 * p);
    vstd::arithmetic::div_mod::lemma_mod_division_less_than_divisor(d as int, p);
    vstd::arithmetic::div_mod::lemma_mod_division_less_than_divisor(d as int / p, 4);
    assert(p * qq == qq * p) by (nonlinear_arith);
    vstd::arithmetic::div_mod::lemma_fundamental_div_mod_converse(p * qq + rr, p, qq, rr);
    vstd::arithmetic::div_mod::lemma_small_mod(qq as nat, 4);
}

/// Decoded cells lie on the grid.
pub proof fn lemma_d2xy_in_range(z: nat, d: nat)
    ensures
        spec_d2xy(z, d).0 < pow2(z),
        spec_d2xy(z, d).1 < pow2(z),
    decreases z,
{
    vstd::arithmetic::power2::lemma2_to64();
    if z == 0 {
    } else {
        let j = (z - 1) as nat;
        let s = pow2(j);
        let q = (d / pow4(j)) % 4;
        let rx: nat = q / 2;
        let ry: nat = if q == 1 || q == 2 {
            1
        } else {
            0
        };
        vstd::arithmetic::power2::lemma_pow2_pos(j);
        vstd::arithmetic::power2::lemma_pow2_unfold(z);
        lemma_d2xy_in_range(j, mod_pow4(d, j));
        let xy = spec_d2xy(j, mod_pow4(d, j));
        let r = spec_rot(s, xy.0, xy.1, rx, ry);
        assert(r.0 < s && r.1 < s);
        if rx == 0 {
            assert(s * rx == 0) by (nonlinear_arith)
                requires
                    rx == 0,
            ;
        } else {
            assert(s * rx == s) by (nonlinear_arith)
                requires
                    rx == 1,
            ;
        }
        if ry == 0 {
            assert(s * ry == 0) by (nonlinear_arith)
                requires
                    ry == 0,
            ;
        } else {
            assert(s * ry == s) by (nonlinear_arith)
                requires
                    ry == 1,
            ;
        }
        assert(spec_d2xy(z, d) == (r.0 + s * rx, r.1 + s * ry));
        assert(pow2(z) == 2 * s);
    }
}

/// Distances stay below the cell count of the grid.
pub proof fn lemma_xy2d_bound(z: nat, x: nat, y: nat)
    ensures
        spec_xy2d(z, x, y) < pow4(z),
    decreases z,
{
    if z == 0 {
    } else {
        let j = (z - 1) as nat;
        let s = pow2(j);
        let rx: nat = if x >= s {
            1
        } else {
            0
        };
        let ry: nat = if y >= s {
            1
        } else {
            0
        };
        let q = spec_quadrant(rx, ry);
        let xy = spec_rot(2 * s, x, y, rx, ry);
        lemma_xy2d_bound(j, mod_pow2(xy.0, j), mod_pow2(xy.1, j));
        let sub = spec_xy2d(j, mod_pow2(xy.0, j), mod_pow2(xy.1, j));
        assert(q <= 3);
        assert(0 <= q * pow4(j) <= 3 * pow4(j)) by (nonlinear_arith)
            requires
                0 <= q <= 3,
                pow4(j) >= 0,
        ;
        assert(spec_xy2d(z, x, y) == q * pow4(j) + sub);
        assert(sub < pow4(j));
        assert(pow4(z) == 4 * pow4(j));
    }
}

} // verus!
