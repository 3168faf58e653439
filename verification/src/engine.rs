//! The transform engine: one full pass moves every pixel of a source grid
//! into a freshly allocated destination grid at the coordinate the mapper
//! computes, and `apply` chains a chosen number of such passes, feeding each
//! pass's output to the next.

use vstd::prelude::*;

verus! {

use vstd::arithmetic::div_mod::{lemma_fundamental_div_mod_converse, lemma_mod_bound};
use crate::grid::{Grid, Pixel, lemma_row_major_in_range};
use crate::mapper::{map_coord, map_fits, map_x, map_y, numer_x, numer_y, tdiv};
use crate::matrix::Matrix;

/// The engine's only intrinsic failure: an intermediate value of the 64-bit
/// coordinate computation left the representable range. The run aborts; it
/// is never silently truncated.
#[derive(Clone, Copy, PartialEq, Eq, Structural, Debug)]
pub enum TransformError {
    Overflow,
}

/// The named neutral value every cell of a destination grid holds before
/// any pixel is written into it.
pub open spec fn black() -> Pixel {
    Pixel { r: 0, g: 0, b: 0 }
}

/// The 64-bit coordinate computation stays in range for every source cell
/// of a `w` by `h` grid. This depends only on the matrix and the
/// dimensions, so all passes of a run overflow-check identically.
pub open spec fn pass_fits(m: Matrix, w: int, h: int) -> bool {
    forall|x: int, y: int|
        0 <= x < w && 0 <= y < h ==> map_fits(m, x, y, w, h)
}

/// Row-major destination index of the source cell with row-major index `k`.
pub open spec fn dest_index(m: Matrix, w: int, h: int, k: int) -> int {
    map_y(m, k % w, k / w, w, h) * w + map_x(m, k % w, k / w, w, h)
}

/// The destination grid of one pass after the first `k` source pixels, in
/// row-major enumeration order, have been written over an all-`black()`
/// grid. Later writers to the same destination cell win.
pub open spec fn write_prefix(src: Seq<Pixel>, m: Matrix, w: int, h: int, k: nat) -> Seq<Pixel>
    decreases k,
{
    if k == 0 {
        Seq::new((w * h) as nat, |i: int| black())
    } else {
        write_prefix(src, m, w, h, (k - 1) as nat)
            .update(dest_index(m, w, h, k - 1), src[k - 1])
    }
}

/// One full pass: every source pixel of the `w` by `h` grid `src` written
/// to its mapped destination.
pub open spec fn pass_spec(src: Seq<Pixel>, m: Matrix, w: int, h: int) -> Seq<Pixel> {
    write_prefix(src, m, w, h, (w * h) as nat)
}

/// `n` passes chained: each pass's output is the next pass's input, and
/// zero passes leave the source unchanged.
pub open spec fn apply_spec(src: Seq<Pixel>, m: Matrix, w: int, h: int, n: nat) -> Seq<Pixel>
    decreases n,
{
    if n == 0 {
        src
    } else {
        pass_spec(apply_spec(src, m, w, h, (n - 1) as nat), m, w, h)
    }
}

/// Wherever a source cell of a non-empty grid is sent, the destination
/// index lies inside the grid's storage.
pub proof fn lemma_dest_index_in_range(m: Matrix, w: int, h: int, k: int)
    requires
        1 <= w,
        1 <= h,
    ensures
        0 <= dest_index(m, w, h, k) < w * h,
{
    let x = k % w;
    let y = k / w;
    lemma_mod_bound(tdiv(numer_x(m, x, y, w, h), h), w);
    lemma_mod_bound(tdiv(numer_y(m, x, y, w, h), w), h);
    lemma_row_major_in_range(map_x(m, x, y, w, h), map_y(m, x, y, w, h), w, h);
}

/// A written prefix always spans the whole `w * h` destination.
pub proof fn lemma_write_prefix_len(src: Seq<Pixel>, m: Matrix, w: int, h: int, k: nat)
    requires
        1 <= w,
        1 <= h,
    ensures
        write_prefix(src, m, w, h, k).len() == w * h,
    decreases k,
{
    assert(0 < w * h) by (nonlinear_arith)
        requires 1 <= w && 1 <= h;
    if k > 0 {
        lemma_write_prefix_len(src, m, w, h, (k - 1) as nat);
        lemma_dest_index_in_range(m, w, h, k - 1);
    }
}

/// One pass over `src`: allocates a fresh all-`black()` destination of the
/// same dimensions, maps every source coordinate, and copies the pixel
/// verbatim. Reports overflow instead of producing a corrupted coordinate.
pub fn pass(src: &Grid, mat: &Matrix) -> (r: Result<Grid, TransformError>)
    requires
        src.wf(),
    ensures
        r is Ok <==> pass_fits(*mat, src.spec_width(), src.spec_height()),
        r is Err ==> r == Err::<Grid, TransformError>(TransformError::Overflow),
        r is Ok ==> ({
            let g = r.unwrap();
            &&& g.wf()
            &&& g.spec_width() == src.spec_width()
            &&& g.spec_height() == src.spec_height()
            &&& g@ == pass_spec(src@, *mat, src.spec_width(), src.spec_height())
        }),
{
    let w = src.width();
    let h = src.height();
    let ghost wi = src.spec_width();
    let ghost hi = src.spec_height();
    let mut dest = Grid::new(w, h, Pixel::black());
    proof {
        assert(dest@ =~= write_prefix(src@, *mat, wi, hi, 0));
    }
    let mut y: usize = 0;
    while y < h
        invariant
            src.wf(),
            dest.wf(),
            w == wi,
            h == hi,
            wi == src.spec_width(),
            hi == src.spec_height(),
            dest.spec_width() == wi,
            dest.spec_height() == hi,
            0 <= y <= h,
            0 <= y * wi,
            y * wi <= wi * hi,
            dest@ == write_prefix(src@, *mat, wi, hi, (y * wi) as nat),
            forall|x2: int, y2: int|
                0 <= x2 < wi && 0 <= y2 < y ==> map_fits(*mat, x2, y2, wi, hi),
        decreases h - y,
    {
        let mut x: usize = 0;
        proof {
            assert(y * wi + wi <= wi * hi) by (nonlinear_arith)
                requires 0 <= y < hi && 0 < wi;
        }
        while x < w
            invariant
                src.wf(),
                dest.wf(),
                w == wi,
                h == hi,
                wi == src.spec_width(),
                hi == src.spec_height(),
                dest.spec_width() == wi,
                dest.spec_height() == hi,
                0 <= y < h,
                0 <= x <= w,
                0 <= y * wi,
                y * wi + wi <= wi * hi,
                dest@ == write_prefix(src@, *mat, wi, hi, (y * wi + x) as nat),
                forall|x2: int, y2: int|
                    0 <= x2 < wi && 0 <= y2 < y ==> map_fits(*mat, x2, y2, wi, hi),
                forall|x2: int|
                    0 <= x2 < x ==> map_fits(*mat, x2, y as int, wi, hi),
            decreases w - x,
        {
            let ghost k = y * wi + x;
            proof {
                lemma_row_major_in_range(x as int, y as int, wi, hi);
                lemma_fundamental_div_mod_converse(k, wi, y as int, x as int);
            }
            match map_coord(x as i64, y as i64, w as i64, h as i64, mat) {
                None => {
                    return Err(TransformError::Overflow);
                },
                Some(nc) => {
                    let p = src.get(x, y);
                    dest.set(nc.0 as usize, nc.1 as usize, p);
                    proof {
                        assert(dest@ == write_prefix(src@, *mat, wi, hi, (k + 1) as nat));
                    }
                },
            }
            x = x + 1;
        }
        proof {
            assert((y + 1) * wi == y * wi + wi) by (nonlinear_arith);
        }
        y = y + 1;
    }
    proof {
        assert(y * wi == wi * hi) by (nonlinear_arith)
            requires y == hi;
    }
    Ok(dest)
}

/// Applies `iterations` passes of the toral map with matrix `mat` to
/// `grid`, each pass reading the untouched output of the one before; zero
/// iterations return the grid unchanged. `Ok` comes exactly when nothing
/// overflows, which depends only on the matrix and the dimensions; the
/// result always keeps the source grid's dimensions.
pub fn apply(grid: &Grid, mat: &Matrix, iterations: u32) -> (r: Result<Grid, TransformError>)
    requires
        grid.wf(),
    ensures
        r is Ok <==> (iterations == 0
            || pass_fits(*mat, grid.spec_width(), grid.spec_height())),
        r is Err ==> r == Err::<Grid, TransformError>(TransformError::Overflow),
        r is Ok ==> ({
            let g = r.unwrap();
            &&& g.wf()
            &&& g.spec_width() == grid.spec_width()
            &&& g.spec_height() == grid.spec_height()
            &&& g@ == apply_spec(grid@, *mat, grid.spec_width(), grid.spec_height(),
                    iterations as nat)
        }),
{
    let ghost wi = grid.spec_width();
    let ghost hi = grid.spec_height();
    let mut current = grid.duplicate();
    let mut i: u32 = 0;
    while i < iterations
        invariant
            grid.wf(),
            current.wf(),
            wi == grid.spec_width(),
            hi == grid.spec_height(),
            current.spec_width() == wi,
            current.spec_height() == hi,
            i <= iterations,
            current@ == apply_spec(grid@, *mat, wi, hi, i as nat),
            i > 0 ==> pass_fits(*mat, wi, hi),
        decreases iterations - i,
    {
        match pass(&current, mat) {
            Ok(next) => {
                current = next;
            },
            Err(e) => {
                return Err(e);
            },
        }
        i = i + 1;
    }
    Ok(current)
}

} // verus!
