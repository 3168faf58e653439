//! Wrap-around (Euclidean modulo) arithmetic for the coordinate mapper.

use vstd::prelude::*;

verus! {

use vstd::arithmetic::div_mod::{
    lemma_fundamental_div_mod,
    lemma_fundamental_div_mod_converse,
    lemma_mod_bound,
    lemma_div_of0,
    lemma_div_basics,
    lemma_div_pos_is_pos,
    lemma_div_is_ordered_by_denominator,
};
use crate::matrix::Matrix;

/// Wraps `x` into `[0, y)` with a Euclidean (always non-negative) modulo,
/// computed as `((x % y) + y) % y` over the host's truncating remainder.
///
/// The upper bound on `y` keeps the intermediate sum `(x % y) + y` inside
/// the `i64` range; every realistic grid dimension is far below it.
pub fn modulo(x: i64, y: i64) -> (r: i64)
    requires
        1 <= y <= 0x4000_0000_0000_0000,
    ensures
        0 <= r < y,
        r == (x as int) % (y as int),
{
    proof {
        lemma_mod_bound(x as int, y as int);
        lemma_mod_bound(-(x as int), y as int);
    }
    let m = x.checked_rem(y).unwrap();
    proof {
        if x == 0 {
            lemma_fundamental_div_mod_converse(0, y as int, 0, 0);
        }
        if x < 0 {
            let em = (-(x as int)) % (y as int);
            lemma_fundamental_div_mod(-(x as int), y as int);
            let q = (-(x as int)) / (y as int);
            if em == 0 {
                assert(x as int == (-q) * (y as int) + 0) by (nonlinear_arith)
                    requires -(x as int) == q * (y as int) + em && em == 0;
                lemma_fundamental_div_mod_converse(x as int, y as int, -q, 0);
            } else {
                assert(x as int == (-q - 1) * (y as int) + ((y as int) - em)) by (nonlinear_arith)
                    requires -(x as int) == q * (y as int) + em;
                lemma_fundamental_div_mod_converse(x as int, y as int, -q - 1, (y as int) - em);
            }
        }
    }
    let s = m + y;
    proof {
        lemma_mod_bound(s as int, y as int);
        if s < y {
            lemma_fundamental_div_mod_converse(s as int, y as int, 0, s as int);
        } else {
            lemma_fundamental_div_mod_converse(s as int, y as int, 1, s as int - y as int);
        }
    }
    s.checked_rem(y).unwrap()
}

/// Truncating (round-toward-zero) division, as the host's `/` computes it
/// for a positive divisor.
pub open spec fn tdiv(x: int, d: int) -> int
    recommends
        d > 0,
{
    if x >= 0 {
        x / d
    } else {
        -((-x) / d)
    }
}

/// Whether `v` lies in the 64-bit signed range; the whole coordinate
/// computation runs in 64-bit arithmetic, and an intermediate value outside
/// this range is an overflow, reported rather than silently truncated.
pub open spec fn fits_i64(v: int) -> bool {
    i64::MIN <= v <= i64::MAX
}

/// Numerator of the destination column: scaling by `h` (and `w` in the
/// second term) keeps the unit-torus formula exact in integer arithmetic
/// when width and height differ.
pub open spec fn numer_x(m: Matrix, x: int, y: int, w: int, h: int) -> int {
    m.a * x * h + m.b * y * w
}

/// Numerator of the destination row.
pub open spec fn numer_y(m: Matrix, x: int, y: int, w: int, h: int) -> int {
    m.c * x * h + m.d * y * w
}

/// Every intermediate product and sum of the 64-bit coordinate computation
/// for source coordinate `(x, y)` stays in range, in the order the products
/// are formed: `(a*x)*h`, `(b*y)*w`, then their sum, and likewise below.
pub open spec fn map_fits(m: Matrix, x: int, y: int, w: int, h: int) -> bool {
    &&& fits_i64(m.a * x)
    &&& fits_i64(m.a * x * h)
    &&& fits_i64(m.b * y)
    &&& fits_i64(m.b * y * w)
    &&& fits_i64(numer_x(m, x, y, w, h))
    &&& fits_i64(m.c * x)
    &&& fits_i64(m.c * x * h)
    &&& fits_i64(m.d * y)
    &&& fits_i64(m.d * y * w)
    &&& fits_i64(numer_y(m, x, y, w, h))
}

/// Destination column for source `(x, y)`: truncating division by `h`
/// before the wrap into `[0, w)`; this ordering and truncation mode are
/// part of the contract.
pub open spec fn map_x(m: Matrix, x: int, y: int, w: int, h: int) -> int {
    tdiv(numer_x(m, x, y, w, h), h) % w
}

/// Destination row for source `(x, y)`.
pub open spec fn map_y(m: Matrix, x: int, y: int, w: int, h: int) -> int {
    tdiv(numer_y(m, x, y, w, h), w) % h
}

/// Quotient of `v` by the positive divisor `d`, with a proof that the
/// truncating division neither fails nor leaves the 64-bit range.
fn div_by_positive(v: i64, d: i64) -> (q: i64)
    requires
        1 <= d,
    ensures
        q == tdiv(v as int, d as int),
{
    proof {
        lemma_div_of0(d as int);
        if v > 0 {
            lemma_div_pos_is_pos(v as int, d as int);
            lemma_div_is_ordered_by_denominator(v as int, 1, d as int);
            lemma_div_basics(v as int);
        } else if v < 0 {
            lemma_div_pos_is_pos(-(v as int), d as int);
            lemma_div_is_ordered_by_denominator(-(v as int), 1, d as int);
            lemma_div_basics(-(v as int));
        }
        assert((v as int) * -1 == -(v as int)) by (nonlinear_arith);
    }
    v.checked_div(d).unwrap()
}

/// Maps the source coordinate `(x, y)` of a `w` by `h` grid to its
/// destination, or reports that an intermediate 64-bit value overflowed.
/// Zero-sized grids are a configuration error and are excluded here.
pub fn map_coord(x: i64, y: i64, w: i64, h: i64, m: &Matrix) -> (r: Option<(i64, i64)>)
    requires
        1 <= w <= 0xFFFF_FFFF,
        1 <= h <= 0xFFFF_FFFF,
        0 <= x < w,
        0 <= y < h,
    ensures
        r is Some <==> map_fits(*m, x as int, y as int, w as int, h as int),
        r is Some ==> r.unwrap().0 == map_x(*m, x as int, y as int, w as int, h as int),
        r is Some ==> r.unwrap().1 == map_y(*m, x as int, y as int, w as int, h as int),
        r is Some ==> 0 <= r.unwrap().0 < w && 0 <= r.unwrap().1 < h,
{
    let ax = match m.a.checked_mul(x) {
        Some(v) => v,
        None => return None,
    };
    let axh = match ax.checked_mul(h) {
        Some(v) => v,
        None => return None,
    };
    let by = match m.b.checked_mul(y) {
        Some(v) => v,
        None => return None,
    };
    let byw = match by.checked_mul(w) {
        Some(v) => v,
        None => return None,
    };
    let sx = match axh.checked_add(byw) {
        Some(v) => v,
        None => return None,
    };
    let cx = match m.c.checked_mul(x) {
        Some(v) => v,
        None => return None,
    };
    let cxh = match cx.checked_mul(h) {
        Some(v) => v,
        None => return None,
    };
    let dy = match m.d.checked_mul(y) {
        Some(v) => v,
        None => return None,
    };
    let dyw = match dy.checked_mul(w) {
        Some(v) => v,
        None => return None,
    };
    let sy = match cxh.checked_add(dyw) {
        Some(v) => v,
        None => return None,
    };
    let qx = div_by_positive(sx, h);
    let qy = div_by_positive(sy, w);
    let nx = modulo(qx, w);
    let ny = modulo(qy, h);
    Some((nx, ny))
}

} // verus!
