//! Tile ids: tiles are numbered zoom level by zoom level, and within a zoom
//! level along the Hilbert curve.

use vstd::prelude::*;

verus! {

/// 2^k.
pub open spec fn pow2(k: nat) -> nat
    decreases k,
{
    if k == 0 {
        1
    } else {
        2 * pow2((k - 1) as nat)
    }
}

/// The number of tiles on the zoom levels below `z`: the sum of 4^t for t < z.
/// It is the id of the first tile of zoom level `z`.
pub open spec fn zoom_base(z: nat) -> nat
    decreases z,
{
    if z == 0 {
        0
    } else {
        zoom_base((z - 1) as nat) + pow2((z - 1) as nat) * pow2((z - 1) as nat)
    }
}

/// The quadrant number on the Hilbert curve for the quadrant in column half
/// `rx` and row half `ry`: lower left 0, upper left 1, upper right 2, lower
/// right 3.
pub open spec fn quadrant(rx: bool, ry: bool) -> int {
    if !rx {
        if !ry {
            0
        } else {
            1
        }
    } else {
        if !ry {
            3
        } else {
            2
        }
    }
}

/// The position along the Hilbert curve of order `level` of the cell at
/// column `tx`, row `ty`. Each level reads one bit of each coordinate,
/// adds the quadrant times the size of a quadrant, and rotates or reflects
/// the coordinates into the frame of the sub-curve. Bits of `tx` and `ty`
/// above the curve's order are never read.
pub open spec fn hilbert_from(level: nat, tx: i64, ty: i64) -> int
    decreases level,
{
    if level == 0 {
        0
    } else {
        let s = pow2((level - 1) as nat) as int;
        let rx = (tx & (s as i64)) > 0;
        let ry = (ty & (s as i64)) > 0;
        let cells = s * s * quadrant(rx, ry);
        if !ry {
            if rx {
                cells + hilbert_from((level - 1) as nat, (s - 1 - ty) as i64, (s - 1 - tx) as i64)
            } else {
                cells + hilbert_from((level - 1) as nat, ty, tx)
            }
        } else {
            cells + hilbert_from((level - 1) as nat, tx, ty)
        }
    }
}

/// The PMTiles id of the tile at zoom `z`, column `x`, row `y`.
pub open spec fn tile_id_of(z: nat, x: u32, y: u32) -> int {
    zoom_base(z) + hilbert_from(z, x as i64, y as i64)
}

/// 2^k is at least 1.
pub proof fn lemma_pow2_positive(k: nat)
    ensures
        pow2(k) >= 1,
    decreases k,
{
    if k > 0 {
        lemma_pow2_positive((k - 1) as nat);
    }
}

/// 2^k grows with k.
pub proof fn lemma_pow2_monotone(a: nat, b: nat)
    requires
        a <= b,
    ensures
        pow2(a) <= pow2(b),
    decreases b,
{
    if a < b {
        lemma_pow2_monotone(a, (b - 1) as nat);
        lemma_pow2_positive((b - 1) as nat);
    }
}

/// The powers of two that bound 32-bit columns and rows.
pub proof fn lemma_pow2_facts()
    ensures
        pow2(30) == 0x4000_0000,
        pow2(31) == 0x8000_0000,
        pow2(32) == 0x1_0000_0000,
{
    reveal_with_fuel(pow2, 33);
}

/// Three times the tiles below zoom `z`, plus one, is the tile count of zoom `z`.
pub proof fn lemma_zoom_base_closed(z: nat)
    ensures
        3 * zoom_base(z) + 1 == pow2(z) * pow2(z),
    decreases z,
{
    if z == 0 {
        assert(pow2(0) == 1);
    } else {
        let k = (z - 1) as nat;
        lemma_zoom_base_closed(k);
        let a = pow2(k);
        assert(pow2(z) == 2 * a);
        assert(zoom_base(z) == zoom_base(k) + a * a);
        let b = pow2(z);
        let zb = zoom_base(k);
        assert(3 * (zb + a * a) + 1 == b * b) by (nonlinear_arith)
            requires
                b == 2 * a,
                3 * zb + 1 == a * a,
        ;
    }
}

/// The curve of order `level` visits each of its 4^level cells once, so a
/// position is below 4^level, whatever the coordinates.
pub proof fn lemma_hilbert_range(level: nat, tx: i64, ty: i64)
    ensures
        0 <= hilbert_from(level, tx, ty) < pow2(level) * pow2(level),
    decreases level,
{
    if level == 0 {
        assert(pow2(0) == 1);
    } else {
        let k = (level - 1) as nat;
        let s = pow2(k) as int;
        let rx = (tx & (s as i64)) > 0;
        let ry = (ty & (s as i64)) > 0;
        let q = quadrant(rx, ry);
        let (nx, ny) = if !ry {
            if rx {
                ((s - 1 - ty) as i64, (s - 1 - tx) as i64)
            } else {
                (ty, tx)
            }
        } else {
            (tx, ty)
        };
        lemma_hilbert_range(k, nx, ny);
        let h = hilbert_from(k, nx, ny);
        assert(pow2(level) == 2 * s);
        assert(hilbert_from(level, tx, ty) == s * s * q + h);
        let b = pow2(level);
        assert(0 <= s * s * q + h < b * b) by (nonlinear_arith)
            requires
                0 <= h < s * s,
                0 <= q <= 3,
                s >= 0,
                b == 2 * s,
        ;
    }
}

/// Doubling a power of two keeps it a single bit.
proof fn lemma_double_single_bit(s: i64, t: i64)
    by (bit_vector)
    requires
        0 < s <= 0x4000_0000,
        s & ((s - 1) as i64) == 0,
        t == s + s,
    ensures
        t & ((t - 1) as i64) == 0,
{
}

/// 2^k, for k up to 31, has a single bit set.
proof fn lemma_pow2_single_bit(k: nat)
    requires
        k <= 31,
    ensures
        0 < pow2(k) <= 0x8000_0000,
        (pow2(k) as i64) & ((pow2(k) - 1) as i64) == 0,
    decreases k,
{
    lemma_pow2_facts();
    lemma_pow2_positive(k);
    lemma_pow2_monotone(k, 31);
    if k == 0 {
        assert(pow2(0) == 1);
        assert((1i64 & 0i64) == 0) by (bit_vector);
    } else {
        let j = (k - 1) as nat;
        lemma_pow2_single_bit(j);
        lemma_pow2_monotone(j, 30);
        assert(pow2(k) == pow2(j) + pow2(j));
        lemma_double_single_bit(pow2(j) as i64, pow2(k) as i64);
    }
}

/// Below a single bit `s`, the low bits of `s - 1 - t` are those of `t`
/// flipped.
proof fn lemma_low_bits_flip(s: i64, t: i64, u: i64)
    by (bit_vector)
    requires
        0 < s <= 0x8000_0000,
        s & ((s - 1) as i64) == 0,
        u == s - 1 - t,
    ensures
        u & ((s - 1) as i64) == s - 1 - (t & ((s - 1) as i64)),
{
}

/// Two values that agree below a single bit `s` and on that bit agree on
/// all bits below `2s`.
proof fn lemma_low_bits_join(a: i64, b: i64, s: i64)
    by (bit_vector)
    requires
        0 < s <= 0x8000_0000,
        s & ((s - 1) as i64) == 0,
        a & ((s - 1) as i64) == b & ((s - 1) as i64),
        ((a & s) > 0) == ((b & s) > 0),
    ensures
        a & ((s + s - 1) as i64) == b & ((s + s - 1) as i64),
{
}

/// A value in `[0, 2s)` is its own low bits below `2s`.
proof fn lemma_low_bits_small(a: i64, s: i64)
    by (bit_vector)
    requires
        0 < s <= 0x8000_0000,
        s & ((s - 1) as i64) == 0,
        0 <= a < s + s,
    ensures
        a & ((s + s - 1) as i64) == a,
{
}

/// A position on a curve of order `level` splits into its quadrant and the
/// position inside the quadrant in one way only.
proof fn lemma_quadrant_split_unique(side: int, q1: int, h1: int, q2: int, h2: int)
    by (nonlinear_arith)
    requires
        side > 0,
        0 <= q1 <= 3,
        0 <= q2 <= 3,
        0 <= h1 < side,
        0 <= h2 < side,
        side * q1 + h1 == side * q2 + h2,
    ensures
        q1 == q2,
        h1 == h2,
{
}

/// Equal positions on a curve of order `level` come from cells whose
/// coordinates agree on their low `level` bits.
proof fn lemma_hilbert_low_bits(level: nat, x1: i64, y1: i64, x2: i64, y2: i64)
    requires
        level <= 32,
        -(0x2_0000_0000 - pow2(level)) <= x1 <= 0x2_0000_0000 - pow2(level),
        -(0x2_0000_0000 - pow2(level)) <= y1 <= 0x2_0000_0000 - pow2(level),
        -(0x2_0000_0000 - pow2(level)) <= x2 <= 0x2_0000_0000 - pow2(level),
        -(0x2_0000_0000 - pow2(level)) <= y2 <= 0x2_0000_0000 - pow2(level),
        hilbert_from(level, x1, y1) == hilbert_from(level, x2, y2),
    ensures
        x1 & ((pow2(level) - 1) as i64) == x2 & ((pow2(level) - 1) as i64),
        y1 & ((pow2(level) - 1) as i64) == y2 & ((pow2(level) - 1) as i64),
    decreases level,
{
    if level == 0 {
        assert(pow2(0) == 1);
        assert((x1 & 0i64) == 0 && (x2 & 0i64) == 0 && (y1 & 0i64) == 0 && (y2 & 0i64) == 0)
            by (bit_vector);
    } else {
        let k = (level - 1) as nat;
        lemma_pow2_single_bit(k);
        let s = pow2(k) as int;
        let si = s as i64;
        assert(pow2(level) == s + s);
        let rx1 = (x1 & si) > 0;
        let ry1 = (y1 & si) > 0;
        let rx2 = (x2 & si) > 0;
        let ry2 = (y2 & si) > 0;
        let (nx1, ny1) = if !ry1 {
            if rx1 {
                ((s - 1 - y1) as i64, (s - 1 - x1) as i64)
            } else {
                (y1, x1)
            }
        } else {
            (x1, y1)
        };
        let (nx2, ny2) = if !ry2 {
            if rx2 {
                ((s - 1 - y2) as i64, (s - 1 - x2) as i64)
            } else {
                (y2, x2)
            }
        } else {
            (x2, y2)
        };
        lemma_hilbert_range(k, nx1, ny1);
        lemma_hilbert_range(k, nx2, ny2);
        let h1 = hilbert_from(k, nx1, ny1);
        let h2 = hilbert_from(k, nx2, ny2);
        let q1 = quadrant(rx1, ry1);
        let q2 = quadrant(rx2, ry2);
        assert(hilbert_from(level, x1, y1) == s * s * q1 + h1);
        assert(hilbert_from(level, x2, y2) == s * s * q2 + h2);
        assert(s * s > 0) by (nonlinear_arith)
            requires
                s > 0,
        ;
        assert(s * s * q1 == (s * s) * q1 && s * s * q2 == (s * s) * q2);
        lemma_quadrant_split_unique(s * s, q1, h1, q2, h2);
        assert(rx1 == rx2 && ry1 == ry2);
        lemma_hilbert_low_bits(k, nx1, ny1, nx2, ny2);
        let m = (s - 1) as i64;
        assert(m == ((pow2(k) - 1) as i64));
        if !ry1 && rx1 {
            lemma_low_bits_flip(si, y1, nx1);
            lemma_low_bits_flip(si, y2, nx2);
            lemma_low_bits_flip(si, x1, ny1);
            lemma_low_bits_flip(si, x2, ny2);
        }
        assert(x1 & m == x2 & m);
        assert(y1 & m == y2 & m);
        lemma_low_bits_join(x1, x2, si);
        lemma_low_bits_join(y1, y2, si);
        assert(((pow2(level) - 1) as i64) == ((si + si - 1) as i64));
    }
}

/// Distinct cells of the grid of order `level` lie at distinct positions on
/// its Hilbert curve.
pub proof fn lemma_hilbert_injective(level: nat, x1: u32, y1: u32, x2: u32, y2: u32)
    requires
        level <= 32,
        x1 < pow2(level),
        y1 < pow2(level),
        x2 < pow2(level),
        y2 < pow2(level),
        hilbert_from(level, x1 as i64, y1 as i64) == hilbert_from(level, x2 as i64, y2 as i64),
    ensures
        x1 == x2,
        y1 == y2,
{
    lemma_pow2_facts();
    lemma_pow2_monotone(level, 32);
    if level == 0 {
        assert(pow2(0) == 1);
    } else {
        let k = (level - 1) as nat;
        lemma_pow2_single_bit(k);
        let si = pow2(k) as i64;
        assert(pow2(level) == si + si);
        lemma_hilbert_low_bits(level, x1 as i64, y1 as i64, x2 as i64, y2 as i64);
        assert(((pow2(level) - 1) as i64) == ((si + si - 1) as i64));
        lemma_low_bits_small(x1 as i64, si);
        lemma_low_bits_small(y1 as i64, si);
        lemma_low_bits_small(x2 as i64, si);
        lemma_low_bits_small(y2 as i64, si);
    }
}

/// Two values that agree on all bits below `2s` agree below the single bit
/// `s` and on that bit.
proof fn lemma_low_bits_split(a: i64, b: i64, s: i64)
    by (bit_vector)
    requires
        0 < s <= 0x8000_0000,
        s & ((s - 1) as i64) == 0,
        a & ((s + s - 1) as i64) == b & ((s + s - 1) as i64),
    ensures
        a & ((s - 1) as i64) == b & ((s - 1) as i64),
        ((a & s) > 0) == ((b & s) > 0),
{
}

/// Where a value lies below `2s`: the bit `s` is set exactly in the upper
/// half, and the bits below `s` are the offset into that half.
proof fn lemma_halves(v: i64, s: i64)
    by (bit_vector)
    requires
        0 < s <= 0x8000_0000,
        s & ((s - 1) as i64) == 0,
        0 <= v < s + s,
    ensures
        ((v & s) > 0) == (v >= s),
        v < s ==> v & ((s - 1) as i64) == v,
        v >= s ==> v & ((s - 1) as i64) == v - s,
{
}

/// Moving a value by `s` keeps its bits below the single bit `s`.
proof fn lemma_low_bits_shift(b: i64, u: i64, s: i64)
    by (bit_vector)
    requires
        0 < s <= 0x8000_0000,
        s & ((s - 1) as i64) == 0,
        u == b - s,
    ensures
        u & ((s - 1) as i64) == b & ((s - 1) as i64),
{
}

/// The position on a curve of order `level` reads only the low `level` bits
/// of each coordinate.
proof fn lemma_hilbert_congruent(level: nat, x1: i64, y1: i64, x2: i64, y2: i64)
    requires
        level <= 32,
        -(0x2_0000_0000 - pow2(level)) <= x1 <= 0x2_0000_0000 - pow2(level),
        -(0x2_0000_0000 - pow2(level)) <= y1 <= 0x2_0000_0000 - pow2(level),
        -(0x2_0000_0000 - pow2(level)) <= x2 <= 0x2_0000_0000 - pow2(level),
        -(0x2_0000_0000 - pow2(level)) <= y2 <= 0x2_0000_0000 - pow2(level),
        x1 & ((pow2(level) - 1) as i64) == x2 & ((pow2(level) - 1) as i64),
        y1 & ((pow2(level) - 1) as i64) == y2 & ((pow2(level) - 1) as i64),
    ensures
        hilbert_from(level, x1, y1) == hilbert_from(level, x2, y2),
    decreases level,
{
    if level > 0 {
        let k = (level - 1) as nat;
        lemma_pow2_single_bit(k);
        let s = pow2(k) as int;
        let si = s as i64;
        assert(pow2(level) == s + s);
        assert(((pow2(level) - 1) as i64) == ((si + si - 1) as i64));
        lemma_low_bits_split(x1, x2, si);
        lemma_low_bits_split(y1, y2, si);
        let rx = (x1 & si) > 0;
        let ry = (y1 & si) > 0;
        let (nx1, ny1) = if !ry {
            if rx {
                ((s - 1 - y1) as i64, (s - 1 - x1) as i64)
            } else {
                (y1, x1)
            }
        } else {
            (x1, y1)
        };
        let (nx2, ny2) = if !ry {
            if rx {
                ((s - 1 - y2) as i64, (s - 1 - x2) as i64)
            } else {
                (y2, x2)
            }
        } else {
            (x2, y2)
        };
        if !ry && rx {
            lemma_low_bits_flip(si, y1, nx1);
            lemma_low_bits_flip(si, y2, nx2);
            lemma_low_bits_flip(si, x1, ny1);
            lemma_low_bits_flip(si, x2, ny2);
        }
        assert(((pow2(k) - 1) as i64) == ((s - 1) as i64));
        lemma_hilbert_congruent(k, nx1, ny1, nx2, ny2);
    }
}

/// The cell at position `d` of the curve of order `level`.
proof fn hilbert_cell(level: nat, d: int) -> (xy: (u32, u32))
    requires
        level <= 32,
        0 <= d < pow2(level) * pow2(level),
    ensures
        xy.0 < pow2(level),
        xy.1 < pow2(level),
        hilbert_from(level, xy.0 as i64, xy.1 as i64) == d,
    decreases level,
{
    lemma_pow2_facts();
    lemma_pow2_monotone(level, 32);
    if level == 0 {
        assert(pow2(level) == 1);
        assert(pow2(level) * pow2(level) == 1) by (nonlinear_arith)
            requires
                pow2(level) == 1,
        ;
        let res: (u32, u32) = (0, 0);
        assert(hilbert_from(0, res.0 as i64, res.1 as i64) == 0);
        res
    } else {
        let k = (level - 1) as nat;
        lemma_pow2_single_bit(k);
        let s = pow2(k) as int;
        let si = s as i64;
        let ss = s * s;
        assert(pow2(level) == s + s);
        assert(ss > 0 && pow2(level) * pow2(level) == 4 * ss) by (nonlinear_arith)
            requires
                ss == s * s,
                s > 0,
                pow2(level) == s + s,
        ;
        let q = d / ss;
        let r = d % ss;
        assert(d == ss * q + r && 0 <= r < ss && 0 <= q <= 3) by (nonlinear_arith)
            requires
                ss > 0,
                0 <= d < 4 * ss,
                q == d / ss,
                r == d % ss,
        ;
        let (a, b) = hilbert_cell(k, r);
        let ai = a as i64;
        let bi = b as i64;
        let (x, y): (int, int) = if q == 0 {
            (b as int, a as int)
        } else if q == 1 {
            (a as int, s + b)
        } else if q == 2 {
            (s + a, s + b)
        } else {
            (s + s - 1 - b, s - 1 - a)
        };
        let xi = x as i64;
        let yi = y as i64;
        lemma_halves(xi, si);
        lemma_halves(yi, si);
        let rx = (xi & si) > 0;
        let ry = (yi & si) > 0;
        let (nx, ny) = if !ry {
            if rx {
                ((s - 1 - yi) as i64, (s - 1 - xi) as i64)
            } else {
                (yi, xi)
            }
        } else {
            (xi, yi)
        };
        assert(hilbert_from(level, xi, yi) == ss * quadrant(rx, ry) + hilbert_from(k, nx, ny));
        assert(quadrant(rx, ry) == q);
        lemma_halves(ai, si);
        lemma_halves(bi, si);
        if q == 3 {
            lemma_low_bits_shift(bi, ny, si);
        }
        if q == 1 || q == 2 {
            lemma_halves(nx, si);
            lemma_halves(ny, si);
        }
        assert(((pow2(k) - 1) as i64) == ((s - 1) as i64));
        lemma_hilbert_congruent(k, nx, ny, ai, bi);
        assert(hilbert_from(k, nx, ny) == r);
        assert(hilbert_from(level, xi, yi) == d);
        assert(0 <= x < s + s && 0 <= y < s + s);
        let res: (u32, u32) = (x as u32, y as u32);
        assert(res.0 as i64 == xi && res.1 as i64 == yi);
        assert(hilbert_from(level, res.0 as i64, res.1 as i64) == d);
        res
    }
}

/// Every position of the curve of order `level` is the position of a cell:
/// with `lemma_hilbert_injective`, the curve visits each cell once.
pub proof fn lemma_hilbert_onto(level: nat, d: int)
    requires
        level <= 32,
        0 <= d < pow2(level) * pow2(level),
    ensures
        exists|x: u32, y: u32|
            x < pow2(level) && y < pow2(level) && #[trigger] hilbert_from(level, x as i64, y as i64)
                == d,
{
    let (x, y) = hilbert_cell(level, d);
    assert(hilbert_from(level, x as i64, y as i64) == d);
}

/// The curve starts at column 0, row 0.
pub proof fn lemma_hilbert_origin(level: nat)
    requires
        level <= 32,
    ensures
        hilbert_from(level, 0, 0) == 0,
    decreases level,
{
    if level > 0 {
        let k = (level - 1) as nat;
        lemma_pow2_single_bit(k);
        let si = pow2(k) as i64;
        assert((0i64 & si) == 0) by (bit_vector);
        lemma_hilbert_origin(k);
    }
}

/// Every id of the band of zoom level `z` is the id of a tile of that level,
/// and the level's first id is that of column 0, row 0.
pub proof fn lemma_tile_id_onto(z: nat, t: int)
    requires
        z <= 32,
        zoom_base(z) <= t < zoom_base(z + 1),
    ensures
        tile_id_of(z, 0, 0) == zoom_base(z),
        exists|x: u32, y: u32|
            x < pow2(z) && y < pow2(z) && #[trigger] tile_id_of(z, x, y) == t,
{
    lemma_hilbert_origin(z);
    assert(zoom_base(z + 1) == zoom_base(z) + pow2(z) * pow2(z));
    let (x, y) = hilbert_cell(z, t - zoom_base(z));
    assert(tile_id_of(z, x, y) == t);
}

/// The curve of order `level` ends at the last column of row 0.
pub proof fn lemma_hilbert_end(level: nat)
    requires
        level <= 32,
    ensures
        pow2(level) <= 0x1_0000_0000,
        hilbert_from(level, (pow2(level) - 1) as i64, 0) == pow2(level) * pow2(level) - 1,
    decreases level,
{
    lemma_pow2_facts();
    lemma_pow2_monotone(level, 32);
    if level == 0 {
        assert(pow2(0) == 1);
    } else {
        let k = (level - 1) as nat;
        lemma_pow2_single_bit(k);
        let s = pow2(k) as int;
        let si = s as i64;
        assert(pow2(level) == s + s);
        let xi = (s + s - 1) as i64;
        lemma_halves(xi, si);
        lemma_halves(0i64, si);
        let ny = (s - 1 - xi) as i64;
        lemma_low_bits_shift(0i64, ny, si);
        lemma_halves((s - 1) as i64, si);
        assert(((pow2(k) - 1) as i64) == ((s - 1) as i64));
        lemma_hilbert_congruent(k, (s - 1) as i64, ny, (s - 1) as i64, 0);
        lemma_hilbert_end(k);
        assert(hilbert_from(level, xi, 0) == s * s * 3 + hilbert_from(k, (s - 1) as i64, ny));
        assert(s * s * 3 + s * s - 1 == (s + s) * (s + s) - 1) by (nonlinear_arith);
    }
}

/// Columns `x1`, `x2` and rows `y1`, `y2` name cells that share an edge.
pub open spec fn edge_adjacent(x1: int, y1: int, x2: int, y2: int) -> bool {
    ||| (x1 == x2 && (y1 - y2 == 1 || y2 - y1 == 1))
    ||| (y1 == y2 && (x1 - x2 == 1 || x2 - x1 == 1))
}

/// One level of the curve for a cell of the grid of order `level`: its
/// quadrant, and its cell in the frame of the quadrant's sub-curve.
proof fn lemma_hilbert_step(level: nat, x: u32, y: u32) -> (qab: (int, u32, u32))
    requires
        1 <= level <= 32,
        x < pow2(level),
        y < pow2(level),
    ensures
        ({
            let s = pow2((level - 1) as nat) as int;
            let (q, a, b) = qab;
            &&& a < s && b < s
            &&& q == quadrant(x >= s, y >= s)
            &&& (x < s && y < s) ==> a == y && b == x
            &&& (x < s && y >= s) ==> a == x && b == y - s
            &&& (x >= s && y >= s) ==> a == x - s && b == y - s
            &&& (x >= s && y < s) ==> a == s - 1 - y && b == s + s - 1 - x
            &&& hilbert_from(level, x as i64, y as i64) == s * s * q + hilbert_from(
                (level - 1) as nat,
                a as i64,
                b as i64,
            )
        }),
{
    lemma_pow2_facts();
    let k = (level - 1) as nat;
    lemma_pow2_single_bit(k);
    let s = pow2(k) as int;
    let si = s as i64;
    assert(pow2(level) == s + s);
    let xi = x as i64;
    let yi = y as i64;
    lemma_halves(xi, si);
    lemma_halves(yi, si);
    let rx = (xi & si) > 0;
    let ry = (yi & si) > 0;
    let (nx, ny) = if !ry {
        if rx {
            ((s - 1 - yi) as i64, (s - 1 - xi) as i64)
        } else {
            (yi, xi)
        }
    } else {
        (xi, yi)
    };
    let (a, b): (int, int) = if x < s && y < s {
        (y as int, x as int)
    } else if x < s {
        (x as int, y - s)
    } else if y >= s {
        (x - s, y - s)
    } else {
        (s - 1 - y, s + s - 1 - x)
    };
    let ai = a as i64;
    let bi = b as i64;
    lemma_halves(ai, si);
    lemma_halves(bi, si);
    lemma_halves(nx, si);
    if x >= s && y < s {
        lemma_low_bits_shift(bi, ny, si);
    } else {
        lemma_halves(ny, si);
    }
    assert(((pow2(k) - 1) as i64) == ((s - 1) as i64));
    lemma_hilbert_congruent(k, nx, ny, ai, bi);
    let res: (int, u32, u32) = (quadrant(rx, ry), a as u32, b as u32);
    assert(res.1 as i64 == ai && res.2 as i64 == bi);
    res
}

/// A position on a curve of order `level` one past another splits into the
/// same quadrant and the next position inside it, or into the next quadrant
/// where the first position ends its quadrant and the second starts the next.
proof fn lemma_next_position(side: int, q1: int, h1: int, q2: int, h2: int)
    by (nonlinear_arith)
    requires
        side > 0,
        0 <= q1 <= 3,
        0 <= q2 <= 3,
        0 <= h1 < side,
        0 <= h2 < side,
        side * q1 + h1 + 1 == side * q2 + h2,
    ensures
        (q1 == q2 && h1 + 1 == h2) || (q2 == q1 + 1 && h1 == side - 1 && h2 == 0),
{
}

/// Consecutive positions on the curve of order `level` are cells that share
/// an edge.
pub proof fn lemma_hilbert_adjacent(level: nat, x1: u32, y1: u32, x2: u32, y2: u32)
    requires
        level <= 32,
        x1 < pow2(level),
        y1 < pow2(level),
        x2 < pow2(level),
        y2 < pow2(level),
        hilbert_from(level, x1 as i64, y1 as i64) + 1 == hilbert_from(level, x2 as i64, y2 as i64),
    ensures
        edge_adjacent(x1 as int, y1 as int, x2 as int, y2 as int),
    decreases level,
{
    if level == 0 {
        assert(false);
    } else {
        let k = (level - 1) as nat;
        lemma_pow2_single_bit(k);
        let s = pow2(k) as int;
        let (q1, a1, b1) = lemma_hilbert_step(level, x1, y1);
        let (q2, a2, b2) = lemma_hilbert_step(level, x2, y2);
        let h1 = hilbert_from(k, a1 as i64, b1 as i64);
        let h2 = hilbert_from(k, a2 as i64, b2 as i64);
        lemma_hilbert_range(k, a1 as i64, b1 as i64);
        lemma_hilbert_range(k, a2 as i64, b2 as i64);
        assert(s * s > 0) by (nonlinear_arith)
            requires
                s > 0,
        ;
        assert(s * s * q1 == (s * s) * q1 && s * s * q2 == (s * s) * q2);
        lemma_next_position(s * s, q1, h1, q2, h2);
        if q1 == q2 {
            lemma_hilbert_adjacent(k, a1, b1, a2, b2);
        } else {
            lemma_hilbert_end(k);
            lemma_hilbert_origin(k);
            let last = (s - 1) as u32;
            assert(last as i64 == (pow2(k) - 1) as i64);
            lemma_hilbert_injective(k, a1, b1, last, 0);
            lemma_hilbert_injective(k, a2, b2, 0, 0);
        }
    }
}

/// Consecutive ids of one zoom level are tiles that share an edge.
pub proof fn lemma_tile_id_adjacent(z: nat, x1: u32, y1: u32, x2: u32, y2: u32)
    requires
        z <= 32,
        x1 < pow2(z),
        y1 < pow2(z),
        x2 < pow2(z),
        y2 < pow2(z),
        tile_id_of(z, x1, y1) + 1 == tile_id_of(z, x2, y2),
    ensures
        edge_adjacent(x1 as int, y1 as int, x2 as int, y2 as int),
{
    lemma_hilbert_adjacent(z, x1, y1, x2, y2);
}

/// Zoom levels further up start further along.
pub proof fn lemma_zoom_base_monotone(a: nat, b: nat)
    requires
        a <= b,
    ensures
        zoom_base(a) <= zoom_base(b),
    decreases b,
{
    if a < b {
        lemma_zoom_base_monotone(a, (b - 1) as nat);
    }
}

/// Distinct tiles get distinct ids: an id names one zoom level, column and
/// row.
pub proof fn lemma_tile_id_injective(z1: nat, x1: u32, y1: u32, z2: nat, x2: u32, y2: u32)
    requires
        z1 <= 32,
        z2 <= 32,
        x1 < pow2(z1),
        y1 < pow2(z1),
        x2 < pow2(z2),
        y2 < pow2(z2),
        tile_id_of(z1, x1, y1) == tile_id_of(z2, x2, y2),
    ensures
        z1 == z2,
        x1 == x2,
        y1 == y2,
{
    lemma_hilbert_range(z1, x1 as i64, y1 as i64);
    lemma_hilbert_range(z2, x2 as i64, y2 as i64);
    if z1 < z2 {
        lemma_zoom_base_monotone(z1 + 1, z2);
        assert(zoom_base(z1 + 1) == zoom_base(z1) + pow2(z1) * pow2(z1));
    } else if z2 < z1 {
        lemma_zoom_base_monotone(z2 + 1, z1);
        assert(zoom_base(z2 + 1) == zoom_base(z2) + pow2(z2) * pow2(z2));
    }
    assert(z1 == z2);
    lemma_hilbert_injective(z1, x1, y1, x2, y2);
}

/// Every tile that `zxy_to_tile_id` accepts has an id that fits in 64 bits.
pub proof fn lemma_tile_id_fits(z: nat, x: u32, y: u32)
    requires
        z < 32 || (z == 32 && x < 0x8000_0000),
    ensures
        0 <= tile_id_of(z, x, y) <= u64::MAX,
{
    lemma_pow2_facts();
    lemma_zoom_base_closed(32);
    lemma_hilbert_range(z, x as i64, y as i64);
    if z < 32 {
        lemma_zoom_base_monotone(z + 1, 32);
        assert(zoom_base(z + 1) == zoom_base(z) + pow2(z) * pow2(z));
    } else {
        let s = pow2(31) as int;
        let xi = x as i64;
        let yi = y as i64;
        assert((xi & 0x8000_0000i64) == 0) by (bit_vector)
            requires
                0 <= xi < 0x8000_0000,
        ;
        let ry = (yi & (s as i64)) > 0;
        let (nx, ny) = if !ry {
            (yi, xi)
        } else {
            (xi, yi)
        };
        lemma_hilbert_range(31, nx, ny);
        assert(hilbert_from(32, xi, yi) == s * s * quadrant(false, ry) + hilbert_from(31, nx, ny));
        assert(s * s == 0x4000_0000_0000_0000) by (nonlinear_arith)
            requires
                s == 0x8000_0000,
        ;
    }
}

/// The id of the tile at zoom `z`, column `x`, row `y`: the tiles of lower
/// zoom levels come first, then this level's tiles in Hilbert-curve order.
/// Every id lies in the range of its zoom level.
pub fn zxy_to_tile_id(z: u8, x: u32, y: u32) -> (id: u64)
    requires
        z < 32 || (z == 32 && x < 0x8000_0000),
    ensures
        id == tile_id_of(z as nat, x, y),
        zoom_base(z as nat) <= id < zoom_base(z as nat + 1),
{
    proof {
        lemma_pow2_facts();
        lemma_zoom_base_closed(z as nat);
        lemma_zoom_base_closed(32);
        lemma_pow2_monotone(z as nat, 32);
    }
    // Tiles on the lower zoom levels.
    let mut acc: u64 = 0;
    let mut cells: u64 = 1;
    assert(pow2(0) == 1);
    let mut t: u8 = 0;
    while t < z
        invariant
            t <= z <= 32,
            acc == zoom_base(t as nat),
            t < z ==> cells == pow2(t as nat) * pow2(t as nat),
            3 * zoom_base(32) + 1 == pow2(32) * pow2(32),
            pow2(32) == 0x1_0000_0000,
        decreases z - t,
    {
        proof {
            lemma_zoom_base_closed((t + 1) as nat);
            lemma_pow2_monotone((t + 1) as nat, 32);
            let a = pow2((t + 1) as nat);
            assert(a * a <= 0x1_0000_0000 * 0x1_0000_0000) by (nonlinear_arith)
                requires
                    a <= 0x1_0000_0000,
            ;
        }
        acc = acc + cells;
        t = t + 1;
        if t < z {
            proof {
                lemma_pow2_monotone(t as nat, 31);
                let a = pow2((t - 1) as nat);
                assert(pow2(t as nat) == 2 * a);
                assert((2 * a) * (2 * a) == 4 * (a * a)) by (nonlinear_arith);
                lemma_pow2_monotone((t - 1) as nat, 30);
                assert(a * a <= 0x4000_0000 * 0x4000_0000) by (nonlinear_arith)
                    requires
                        a <= 0x4000_0000,
                ;
            }
            cells = cells * 4;
        }
    }
    // The side of a quadrant on the top level of the curve.
    let mut s: i64 = if z == 0 {
        0
    } else {
        1
    };
    let mut k: u8 = 1;
    while k < z
        invariant
            1 <= k,
            z == 0 ==> s == 0,
            z > 0 ==> k <= z && s == pow2((k - 1) as nat),
            z <= 32,
            pow2(31) == 0x8000_0000,
        decreases z - k,
    {
        proof {
            lemma_pow2_monotone(k as nat, 31);
        }
        s = s * 2;
        k = k + 1;
    }
    let mut level: u8 = z;
    let mut tx: i64 = x as i64;
    let mut ty: i64 = y as i64;
    let mut d: i64 = 0;
    let ghost bound: int = if z == 32 {
        0x8000_0000_0000_0000int
    } else {
        (pow2(z as nat) * pow2(z as nat)) as int
    };
    proof {
        lemma_pow2_monotone(z as nat, 32);
        assert(tx <= 0x2_0000_0000 - pow2(z as nat));
        if z < 32 {
            lemma_pow2_monotone(z as nat, 31);
            let a = pow2(z as nat);
            assert(a * a <= 0x8000_0000 * 0x8000_0000) by (nonlinear_arith)
                requires
                    a <= 0x8000_0000,
            ;
        }
    }
    while level > 0
        invariant
            level <= z <= 32,
            z == 32 ==> x < 0x8000_0000,
            level > 0 ==> s == pow2((level - 1) as nat),
            level == 0 ==> s == 0,
            -(0x2_0000_0000 - pow2(level as nat)) <= tx <= 0x2_0000_0000 - pow2(
                level as nat,
            ),
            -(0x2_0000_0000 - pow2(level as nat)) <= ty <= 0x2_0000_0000 - pow2(
                level as nat,
            ),
            level == z ==> d == 0 && tx == x as i64 && ty == y as i64,
            0 <= d,
            (z < 32 || level < z) ==> d + pow2(level as nat) * pow2(level as nat) <= bound,
            bound <= 0x8000_0000_0000_0000,
            z == 32 ==> bound == 0x8000_0000_0000_0000,
            d + hilbert_from(level as nat, tx, ty) == hilbert_from(z as nat, x as i64, y as i64),
            pow2(30) == 0x4000_0000,
            pow2(31) == 0x8000_0000,
            pow2(32) == 0x1_0000_0000,
        decreases level,
    {
        let ghost lv = (level - 1) as nat;
        proof {
            lemma_pow2_monotone(lv, 31);
            lemma_pow2_positive(lv);
        }
        let rx = (tx & s) > 0;
        let ry = (ty & s) > 0;
        if level == 32 {
            assert((tx & 0x8000_0000i64) == 0) by (bit_vector)
                requires
                    0 <= tx < 0x8000_0000,
            ;
        }
        let q: i64 = if !rx {
            if !ry {
                0
            } else {
                1
            }
        } else {
            if !ry {
                3
            } else {
                2
            }
        };
        let ghost sq = (s as int) * (s as int);
        proof {
            if level < 32 {
                lemma_pow2_monotone(lv, 30);
            }
            assert(sq <= 0x4000_0000_0000_0000) by (nonlinear_arith)
                requires
                    sq == (s as int) * (s as int),
                    0 < s <= 0x8000_0000,
            ;
            assert(pow2(level as nat) == 2 * s);
            assert(pow2(level as nat) * pow2(level as nat) == 4 * sq) by (nonlinear_arith)
                requires
                    pow2(level as nat) == 2 * s,
                    sq == (s as int) * (s as int),
            ;
            if level < 32 {
                assert(sq <= 0x1000_0000_0000_0000) by (nonlinear_arith)
                    requires
                        sq == (s as int) * (s as int),
                        0 < s <= 0x4000_0000,
                ;
            }
            assert(sq * q <= 3 * sq) by (nonlinear_arith)
                requires
                    0 <= q <= 3,
                    sq >= 0,
            ;
            assert(sq * q <= 0x7fff_ffff_ffff_ffff);
            if level == z && z == 32 {
                assert(!rx);
                assert(q <= 1);
                assert(sq == 0x4000_0000_0000_0000) by (nonlinear_arith)
                    requires
                        sq == (s as int) * (s as int),
                        s == 0x8000_0000,
                ;
                assert(sq * q <= sq) by (nonlinear_arith)
                    requires
                        0 <= q <= 1,
                        sq >= 0,
                ;
                assert(d + sq * q + sq <= bound);
            } else if level == z {
                assert(d + sq * q + sq <= bound);
            } else {
                assert(d + sq * q + sq <= bound);
            }
        }
        let cells = s * s * q;
        d = d + cells;
        if !ry {
            if rx {
                let nx = s - 1 - ty;
                let ny = s - 1 - tx;
                tx = nx;
                ty = ny;
            } else {
                let nx = ty;
                ty = tx;
                tx = nx;
            }
        }
        let ghost old_s = s;
        level = level - 1;
        s = s / 2;
        proof {
            assert(pow2(level as nat) == old_s);
            if level > 0 {
                assert(pow2(level as nat) == 2 * pow2((level - 1) as nat));
            } else {
                assert(pow2(0) == 1);
            }
        }
    }
    proof {
        lemma_hilbert_range(z as nat, x as i64, y as i64);
        lemma_zoom_base_closed((z + 1) as nat);
    }
    acc + d as u64
}

} // verus!
