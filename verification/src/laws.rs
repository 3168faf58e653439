//! The engine's laws, stated and proved against the specification model:
//! zero iterations are the identity, dimensions are preserved, the identity
//! matrix moves nothing, and the classical cat-map matrix permutes a square
//! grid.

use vstd::prelude::*;

verus! {

use vstd::arithmetic::div_mod::{
    lemma_fundamental_div_mod,
    lemma_fundamental_div_mod_converse,
    lemma_mod_bound,
    lemma_div_multiples_vanish,
    lemma_small_mod,
    lemma_add_mod_noop,
    lemma_sub_mod_noop,
    lemma_mul_mod_noop_right,
    lemma_mod_twice,
};
use vstd::seq_lib::{to_multiset_build, to_multiset_update};
use vstd::multiset::Multiset;
use crate::engine::{
    apply_spec, black, dest_index, lemma_write_prefix_len, pass_fits, pass_spec,
    write_prefix,
};
use crate::grid::{Pixel, lemma_row_major_in_range};
use crate::mapper::{map_fits, map_x, map_y, numer_x, numer_y, tdiv};
use crate::matrix::Matrix;

/// Zero iterations return the source unchanged: the identity pass-through
/// comes from running the loop zero times, not from skipping work.
pub proof fn lemma_zero_iterations(src: Seq<Pixel>, m: Matrix, w: int, h: int)
    ensures
        apply_spec(src, m, w, h, 0) == src,
{
}

/// Dimension preservation: however many passes run, the result spans
/// exactly the `w * h` cells of the source grid.
pub proof fn lemma_apply_len(src: Seq<Pixel>, m: Matrix, w: int, h: int, n: nat)
    requires
        1 <= w,
        1 <= h,
        src.len() == w * h,
    ensures
        apply_spec(src, m, w, h, n).len() == w * h,
    decreases n,
{
    if n > 0 {
        lemma_apply_len(src, m, w, h, (n - 1) as nat);
        lemma_write_prefix_len(
            apply_spec(src, m, w, h, (n - 1) as nat), m, w, h, (w * h) as nat);
    }
}

/// The matrix that maps every coordinate to itself.
pub open spec fn identity_matrix() -> Matrix {
    Matrix { a: 1, b: 0, c: 0, d: 1 }
}

/// Wrap correctness: under the identity matrix the mapper sends `(x, y)`
/// to `(x, y)`, and nothing overflows as long as `w * h` itself fits the
/// 64-bit range.
pub proof fn lemma_identity_map(x: int, y: int, w: int, h: int)
    requires
        0 <= x < w,
        0 <= y < h,
        w * h <= i64::MAX,
    ensures
        map_fits(identity_matrix(), x, y, w, h),
        map_x(identity_matrix(), x, y, w, h) == x,
        map_y(identity_matrix(), x, y, w, h) == y,
{
    let m = identity_matrix();
    assert(0 <= x * h && x * h < w * h && x * h == h * x) by (nonlinear_arith)
        requires 0 <= x < w && 0 < h;
    assert(0 <= y * w && y * w < h * w && h * w == w * h && y * w == w * y)
        by (nonlinear_arith)
        requires 0 <= y < h && 0 < w;
    assert(m.a * x == x && m.b * y == 0 && m.c * x == 0 && m.d * y == y
        && m.a * x * h == x * h && m.b * y * w == 0 && m.c * x * h == 0
        && m.d * y * w == y * w) by (nonlinear_arith)
        requires m.a == 1 && m.b == 0 && m.c == 0 && m.d == 1;
    assert(numer_x(m, x, y, w, h) == x * h);
    assert(numer_y(m, x, y, w, h) == y * w);
    lemma_div_multiples_vanish(x, h);
    lemma_div_multiples_vanish(y, w);
    assert(tdiv(x * h, h) == x);
    assert(tdiv(y * w, w) == y);
    lemma_small_mod(x as nat, w as nat);
    lemma_small_mod(y as nat, h as nat);
}

/// After `k` writes of an identity-matrix pass, the first `k` cells hold
/// their own source pixels and the rest are still the neutral value.
proof fn lemma_identity_write_prefix(src: Seq<Pixel>, w: int, h: int, k: int)
    requires
        1 <= w,
        1 <= h,
        w * h <= i64::MAX,
        src.len() == w * h,
        0 <= k <= w * h,
    ensures
        write_prefix(src, identity_matrix(), w, h, k as nat).len() == w * h,
        forall|j: int| 0 <= j < k
            ==> #[trigger] write_prefix(src, identity_matrix(), w, h, k as nat)[j] == src[j],
        forall|j: int| k <= j < w * h
            ==> #[trigger] write_prefix(src, identity_matrix(), w, h, k as nat)[j] == black(),
    decreases k,
{
    let m = identity_matrix();
    lemma_write_prefix_len(src, m, w, h, k as nat);
    if k > 0 {
        lemma_identity_write_prefix(src, w, h, k - 1);
        let x = (k - 1) % w;
        let y = (k - 1) / w;
        lemma_mod_bound(k - 1, w);
        lemma_fundamental_div_mod(k - 1, w);
        assert(y < h) by (nonlinear_arith)
            requires
                k - 1 == w * y + x,
                0 <= x < w,
                k - 1 < w * h,
                1 <= w,
        ;
        assert(0 <= y) by (nonlinear_arith)
            requires
                k - 1 == w * y + x,
                0 <= x < w,
                0 <= k - 1,
                1 <= w,
        ;
        lemma_identity_map(x, y, w, h);
        assert(dest_index(m, w, h, k - 1) == y * w + x);
        assert(y * w + x == k - 1) by (nonlinear_arith)
            requires k - 1 == w * y + x;
    }
}

/// Wrap correctness for a whole run: the identity matrix never overflows
/// on a grid whose cell count fits the 64-bit range, and any number of
/// iterations returns the source unchanged, since every coordinate maps to
/// itself.
pub proof fn lemma_identity_apply(src: Seq<Pixel>, w: int, h: int, n: nat)
    requires
        1 <= w,
        1 <= h,
        w * h <= i64::MAX,
        src.len() == w * h,
    ensures
        pass_fits(identity_matrix(), w, h),
        apply_spec(src, identity_matrix(), w, h, n) == src,
    decreases n,
{
    let m = identity_matrix();
    assert forall|x: int, y: int| 0 <= x < w && 0 <= y < h
        implies map_fits(m, x, y, w, h) by {
        lemma_identity_map(x, y, w, h);
    }
    if n > 0 {
        lemma_identity_apply(src, w, h, (n - 1) as nat);
        lemma_identity_write_prefix(src, w, h, w * h);
        assert(pass_spec(src, m, w, h) =~= src);
    }
}

/// The classical cat-map matrix.
pub open spec fn cat_matrix() -> Matrix {
    Matrix { a: 2, b: 1, c: 1, d: 1 }
}

/// Row-major index the cat map sends source cell `k` of an `s` by `s`
/// grid to: column `(2x + y) mod s`, row `(x + y) mod s`.
pub open spec fn cat_index(s: int, k: int) -> int {
    ((k % s + k / s) % s) * s + ((2 * (k % s) + k / s) % s)
}

/// The inverse of `cat_index` on an `s` by `s` grid: the source cell whose
/// pixel lands in destination cell `j`.
pub open spec fn cat_index_inv(s: int, j: int) -> int {
    ((2 * (j / s) - j % s) % s) * s + ((j % s - j / s) % s)
}

/// On a square grid the cat-map matrix stays in 64-bit range whenever
/// `3 * s * s` does, and the mapper computes exactly the unscaled classical
/// formula.
pub proof fn lemma_cat_map_coords(x: int, y: int, s: int)
    requires
        0 <= x < s,
        0 <= y < s,
        3 * s * s <= i64::MAX,
    ensures
        map_fits(cat_matrix(), x, y, s, s),
        map_x(cat_matrix(), x, y, s, s) == (2 * x + y) % s,
        map_y(cat_matrix(), x, y, s, s) == (x + y) % s,
{
    let m = cat_matrix();
    assert(m.a * x == 2 * x && m.b * y == y && m.c * x == x && m.d * y == y
        && m.a * x * s == (2 * x) * s && m.b * y * s == y * s
        && m.c * x * s == x * s && m.d * y * s == y * s) by (nonlinear_arith)
        requires m.a == 2 && m.b == 1 && m.c == 1 && m.d == 1;
    assert((2 * x) * s + y * s == (2 * x + y) * s && x * s + y * s == (x + y) * s
        && (2 * x + y) * s == s * (2 * x + y) && (x + y) * s == s * (x + y))
        by (nonlinear_arith);
    assert(numer_x(m, x, y, s, s) == (2 * x + y) * s);
    assert(numer_y(m, x, y, s, s) == (x + y) * s);
    assert(0 <= (2 * x + y) * s && (2 * x + y) * s <= 3 * s * s
        && 0 <= (x + y) * s && (x + y) * s <= 3 * s * s
        && 0 <= 2 * x && 2 * x <= 3 * s * s && x <= 3 * s * s && y <= 3 * s * s
        && (2 * x) * s <= 3 * s * s && x * s <= 3 * s * s && y * s <= 3 * s * s
        && 0 <= x * s && 0 <= y * s && 0 <= (2 * x) * s) by (nonlinear_arith)
        requires 0 <= x < s && 0 <= y < s;
    lemma_div_multiples_vanish(2 * x + y, s);
    lemma_div_multiples_vanish(x + y, s);
    assert(tdiv(numer_x(m, x, y, s, s), s) == 2 * x + y);
    assert(tdiv(numer_y(m, x, y, s, s), s) == x + y);
}

/// `cat_index` lands inside the grid, and `cat_index_inv` takes it back:
/// no two source cells share a destination.
pub proof fn lemma_cat_round_trip(s: int, k: int)
    requires
        1 <= s,
        0 <= k < s * s,
    ensures
        0 <= cat_index(s, k) < s * s,
        cat_index_inv(s, cat_index(s, k)) == k,
{
    let x = k % s;
    let y = k / s;
    lemma_mod_bound(k, s);
    lemma_fundamental_div_mod(k, s);
    assert(0 <= y && y < s) by (nonlinear_arith)
        requires k == s * y + x && 0 <= x < s && 0 <= k < s * s && 1 <= s;
    let u = (2 * x + y) % s;
    let v = (x + y) % s;
    lemma_mod_bound(2 * x + y, s);
    lemma_mod_bound(x + y, s);
    lemma_row_major_in_range(u, v, s, s);
    let j = cat_index(s, k);
    assert(j == v * s + u);
    assert(v * s == s * v) by (nonlinear_arith);
    lemma_fundamental_div_mod_converse(j, s, v, u);
    lemma_sub_mod_noop(2 * x + y, x + y, s);
    assert((u - v) % s == x % s);
    lemma_small_mod(x as nat, s as nat);
    lemma_mul_mod_noop_right(2, x + y, s);
    lemma_small_mod(u as nat, s as nat);
    lemma_sub_mod_noop(2 * v, u, s);
    lemma_sub_mod_noop(2 * (x + y), 2 * x + y, s);
    assert(2 * (x + y) - (2 * x + y) == y);
    assert((2 * v - u) % s == y % s);
    lemma_small_mod(y as nat, s as nat);
    assert(cat_index_inv(s, j) == y * s + x);
    assert(y * s + x == k) by (nonlinear_arith)
        requires k == s * y + x;
}

/// `cat_index_inv` lands inside the grid, and `cat_index` takes it back:
/// every destination cell has a source.
pub proof fn lemma_cat_round_trip_rev(s: int, j: int)
    requires
        1 <= s,
        0 <= j < s * s,
    ensures
        0 <= cat_index_inv(s, j) < s * s,
        cat_index(s, cat_index_inv(s, j)) == j,
{
    let u = j % s;
    let v = j / s;
    lemma_mod_bound(j, s);
    lemma_fundamental_div_mod(j, s);
    assert(0 <= v && v < s) by (nonlinear_arith)
        requires j == s * v + u && 0 <= u < s && 0 <= j < s * s && 1 <= s;
    let x = (u - v) % s;
    let y = (2 * v - u) % s;
    lemma_mod_bound(u - v, s);
    lemma_mod_bound(2 * v - u, s);
    lemma_row_major_in_range(x, y, s, s);
    let k = cat_index_inv(s, j);
    assert(k == y * s + x);
    assert(y * s == s * y) by (nonlinear_arith);
    lemma_fundamental_div_mod_converse(k, s, y, x);
    // (x + y) % s == v
    lemma_add_mod_noop(u - v, 2 * v - u, s);
    assert((u - v) + (2 * v - u) == v);
    lemma_small_mod(v as nat, s as nat);
    assert((x + y) % s == v);
    // (2 * x + y) % s == u
    lemma_add_mod_noop(2 * x, y, s);
    lemma_small_mod(y as nat, s as nat);
    lemma_mod_twice(2 * v - u, s);
    lemma_mul_mod_noop_right(2, u - v, s);
    lemma_add_mod_noop(2 * (u - v), 2 * v - u, s);
    assert(2 * (u - v) + (2 * v - u) == u);
    lemma_small_mod(u as nat, s as nat);
    assert((2 * x + y) % s == ((2 * x) % s + y % s) % s);
    assert(((2 * x) % s + y % s) % s == ((2 * (u - v)) % s + (2 * v - u) % s) % s);
    assert((2 * x + y) % s == u);
    assert(cat_index(s, k) == v * s + u);
    assert(v * s + u == j) by (nonlinear_arith)
        requires j == s * v + u;
}

/// On a square grid the engine's destination index for the cat-map matrix
/// is exactly `cat_index`.
proof fn lemma_cat_dest_index(s: int, k: int)
    requires
        1 <= s,
        3 * s * s <= i64::MAX,
        0 <= k < s * s,
    ensures
        dest_index(cat_matrix(), s, s, k) == cat_index(s, k),
{
    let x = k % s;
    let y = k / s;
    lemma_mod_bound(k, s);
    lemma_fundamental_div_mod(k, s);
    assert(0 <= y && y < s) by (nonlinear_arith)
        requires k == s * y + x && 0 <= x < s && 0 <= k < s * s && 1 <= s;
    lemma_cat_map_coords(x, y, s);
}

/// `n` copies of the neutral pixel, as a multiset.
pub open spec fn repeat_black(n: nat) -> Multiset<Pixel>
    decreases n,
{
    if n == 0 {
        Multiset::empty()
    } else {
        repeat_black((n - 1) as nat).insert(black())
    }
}

/// An all-neutral sequence holds exactly `n` copies of the neutral pixel.
proof fn lemma_black_seq_multiset(n: nat)
    ensures
        Seq::new(n, |i: int| black()).to_multiset() == repeat_black(n),
    decreases n,
{
    broadcast use vstd::multiset::group_multiset_axioms;
    let f = |i: int| black();
    let q = Seq::new(n, f);
    q.to_multiset_ensures();
    if n == 0 {
        assert forall|p: Pixel| q.to_multiset().count(p) == repeat_black(0).count(p) by {
            assert(q.to_multiset().count(p) <= q.to_multiset().len());
        }
        assert(q.to_multiset() =~= repeat_black(0));
    } else {
        lemma_black_seq_multiset((n - 1) as nat);
        let q1 = Seq::new((n - 1) as nat, f);
        assert(q =~= q1.push(black()));
        to_multiset_build(q1, black());
    }
}

/// After `k` writes of a cat-map pass over an `s` by `s` grid: a cell
/// holds its unique source pixel once that source has been written and the
/// neutral value before; and the written cells so far carry exactly the
/// first `k` source pixels, the rest of the grid still neutral.
proof fn lemma_cat_write_prefix(src: Seq<Pixel>, s: int, k: int)
    requires
        1 <= s,
        3 * s * s <= i64::MAX,
        src.len() == s * s,
        0 <= k <= s * s,
    ensures
        write_prefix(src, cat_matrix(), s, s, k as nat).len() == s * s,
        forall|j: int| 0 <= j < s * s && cat_index_inv(s, j) < k
            ==> #[trigger] write_prefix(src, cat_matrix(), s, s, k as nat)[j]
                == src[cat_index_inv(s, j)],
        forall|j: int| 0 <= j < s * s && cat_index_inv(s, j) >= k
            ==> #[trigger] write_prefix(src, cat_matrix(), s, s, k as nat)[j] == black(),
        write_prefix(src, cat_matrix(), s, s, k as nat).to_multiset()
            == src.take(k).to_multiset().add(repeat_black((s * s - k) as nat)),
    decreases k,
{
    broadcast use vstd::multiset::group_multiset_axioms;
    let m = cat_matrix();
    lemma_write_prefix_len(src, m, s, s, k as nat);
    if k == 0 {
        lemma_black_seq_multiset((s * s) as nat);
        assert(src.take(0) =~= Seq::<Pixel>::empty());
        src.take(0).to_multiset_ensures();
        assert forall|p: Pixel|
            src.take(0).to_multiset().count(p) == Multiset::<Pixel>::empty().count(p) by {
            assert(src.take(0).to_multiset().count(p) <= src.take(0).to_multiset().len());
        }
        assert(src.take(0).to_multiset() =~= Multiset::<Pixel>::empty());
        assert(src.take(0).to_multiset().add(repeat_black((s * s) as nat))
            =~= repeat_black((s * s) as nat));
    } else {
        lemma_cat_write_prefix(src, s, k - 1);
        let prev = write_prefix(src, m, s, s, (k - 1) as nat);
        let cur = write_prefix(src, m, s, s, k as nat);
        lemma_cat_dest_index(s, k - 1);
        lemma_cat_round_trip(s, k - 1);
        let j0 = cat_index(s, k - 1);
        assert(cur == prev.update(j0, src[k - 1]));
        // The cell written now held the neutral value up to here.
        assert(cat_index_inv(s, j0) == k - 1);
        assert(prev[j0] == black());
        // Pointwise: only cell j0 changes, and its source is k - 1.
        assert forall|j: int| 0 <= j < s * s && cat_index_inv(s, j) < k
            implies #[trigger] cur[j] == src[cat_index_inv(s, j)] by {
            if j == j0 {
                assert(cur[j0] == src[k - 1]);
            } else {
                lemma_cat_round_trip_rev(s, j);
                assert(cat_index_inv(s, j) != k - 1);
            }
        }
        assert forall|j: int| 0 <= j < s * s && cat_index_inv(s, j) >= k
            implies #[trigger] cur[j] == black() by {
            lemma_cat_round_trip_rev(s, j);
            assert(j != j0);
        }
        // Multiset: the write trades one neutral copy for source pixel k - 1.
        to_multiset_update(prev, j0, src[k - 1]);
        assert(src.take(k) =~= src.take(k - 1).push(src[k - 1]));
        to_multiset_build(src.take(k - 1), src[k - 1]);
        let a = src.take(k - 1).to_multiset();
        let b1 = repeat_black((s * s - k) as nat);
        assert(repeat_black((s * s - (k - 1)) as nat) == b1.insert(black()));
        assert(prev.to_multiset() == a.add(b1.insert(black())));
        assert(cur.to_multiset() == a.add(b1.insert(black())).insert(src[k - 1]).remove(black()));
        assert(a.add(b1.insert(black())).insert(src[k - 1]).remove(black())
            =~= a.insert(src[k - 1]).add(b1));
        assert(src.take(k).to_multiset() == a.insert(src[k - 1]));
    }
}

/// Bijection under coprime determinant: one cat-map pass over a square
/// grid is a permutation. Every destination cell receives the pixel of its
/// unique source cell (no two sources collide, no cell stays unwritten),
/// and the multiset of pixel values is preserved.
pub proof fn lemma_cat_pass_permutes(src: Seq<Pixel>, s: int)
    requires
        1 <= s,
        3 * s * s <= i64::MAX,
        src.len() == s * s,
    ensures
        pass_fits(cat_matrix(), s, s),
        pass_spec(src, cat_matrix(), s, s).len() == s * s,
        forall|j: int| 0 <= j < s * s
            ==> #[trigger] pass_spec(src, cat_matrix(), s, s)[j] == src[cat_index_inv(s, j)],
        forall|k1: int, k2: int|
            0 <= k1 < s * s && 0 <= k2 < s * s && cat_index(s, k1) == cat_index(s, k2)
            ==> k1 == k2,
        pass_spec(src, cat_matrix(), s, s).to_multiset() == src.to_multiset(),
{
    broadcast use vstd::multiset::group_multiset_axioms;
    let m = cat_matrix();
    assert forall|x: int, y: int| 0 <= x < s && 0 <= y < s
        implies map_fits(m, x, y, s, s) by {
        lemma_cat_map_coords(x, y, s);
    }
    lemma_cat_write_prefix(src, s, s * s);
    assert forall|j: int| 0 <= j < s * s
        implies #[trigger] pass_spec(src, m, s, s)[j] == src[cat_index_inv(s, j)] by {
        lemma_cat_round_trip_rev(s, j);
    }
    assert forall|k1: int, k2: int|
        0 <= k1 < s * s && 0 <= k2 < s * s && cat_index(s, k1) == cat_index(s, k2)
        implies k1 == k2 by {
        lemma_cat_round_trip(s, k1);
        lemma_cat_round_trip(s, k2);
    }
    assert(src.take(s * s) =~= src);
    assert(src.take(s * s).to_multiset().add(repeat_black(0))
        =~= src.take(s * s).to_multiset());
}

/// The degenerate matrix that collapses every column onto row zero.
pub open spec fn collapse_matrix() -> Matrix {
    Matrix { a: 1, b: 0, c: 0, d: 0 }
}

/// Under the collapsing matrix the mapper sends `(x, y)` to `(x, 0)`.
proof fn lemma_collapse_map(x: int, y: int, w: int, h: int)
    requires
        0 <= x < w,
        0 <= y < h,
        w * h <= i64::MAX,
    ensures
        map_fits(collapse_matrix(), x, y, w, h),
        map_x(collapse_matrix(), x, y, w, h) == x,
        map_y(collapse_matrix(), x, y, w, h) == 0,
{
    let m = collapse_matrix();
    assert(0 <= x * h && x * h < w * h && x * h == h * x) by (nonlinear_arith)
        requires 0 <= x < w && 0 < h;
    assert(m.a * x == x && m.b * y == 0 && m.c * x == 0 && m.d * y == 0
        && m.a * x * h == x * h && m.b * y * w == 0 && m.c * x * h == 0
        && m.d * y * w == 0) by (nonlinear_arith)
        requires m.a == 1 && m.b == 0 && m.c == 0 && m.d == 0;
    assert(numer_x(m, x, y, w, h) == x * h);
    assert(numer_y(m, x, y, w, h) == 0);
    lemma_div_multiples_vanish(x, h);
    assert(tdiv(x * h, h) == x);
    vstd::arithmetic::div_mod::lemma_div_of0(w);
    assert(tdiv(0, w) == 0);
    lemma_small_mod(x as nat, w as nat);
    lemma_small_mod(0nat, h as nat);
}

/// After `k` writes of a collapsing-matrix pass: within row zero, columns
/// before the current one hold the current source row's pixel, later
/// columns still hold the previous row's; every other row is neutral.
proof fn lemma_collapse_write_prefix(src: Seq<Pixel>, w: int, h: int, k: int)
    requires
        1 <= w,
        1 <= h,
        w * h <= i64::MAX,
        src.len() == w * h,
        0 <= k <= w * h,
    ensures
        write_prefix(src, collapse_matrix(), w, h, k as nat).len() == w * h,
        forall|j: int| 0 <= j < w && j < k % w
            ==> #[trigger] write_prefix(src, collapse_matrix(), w, h, k as nat)[j]
                == src[(k / w) * w + j],
        forall|j: int| k % w <= j < w && k / w >= 1
            ==> #[trigger] write_prefix(src, collapse_matrix(), w, h, k as nat)[j]
                == src[(k / w - 1) * w + j],
        forall|j: int| k % w <= j < w && k / w == 0
            ==> #[trigger] write_prefix(src, collapse_matrix(), w, h, k as nat)[j] == black(),
        forall|j: int| w <= j < w * h
            ==> #[trigger] write_prefix(src, collapse_matrix(), w, h, k as nat)[j] == black(),
    decreases k,
{
    let m = collapse_matrix();
    lemma_write_prefix_len(src, m, w, h, k as nat);
    lemma_mod_bound(k, w);
    lemma_fundamental_div_mod(k, w);
    assert(0 <= k / w) by (nonlinear_arith)
        requires k == w * (k / w) + k % w && 0 <= k % w < w && 0 <= k && 1 <= w;
    assert(w <= w * h) by (nonlinear_arith)
        requires 1 <= w && 1 <= h;
    if k == 0 {
        lemma_fundamental_div_mod_converse(0, w, 0, 0);
    } else {
        lemma_collapse_write_prefix(src, w, h, k - 1);
        let x = (k - 1) % w;
        let y = (k - 1) / w;
        lemma_mod_bound(k - 1, w);
        lemma_fundamental_div_mod(k - 1, w);
        assert(0 <= y && y < h) by (nonlinear_arith)
            requires
                k - 1 == w * y + x,
                0 <= x < w,
                0 <= k - 1 < w * h,
                1 <= w,
        ;
        lemma_collapse_map(x, y, w, h);
        assert(dest_index(m, w, h, k - 1) == 0 * w + x);
        assert(0 * w + x == x) by (nonlinear_arith);
        assert(x < w * h) by (nonlinear_arith)
            requires 0 <= x < w && 1 <= h;
        // Row-major step: either the column advances within the row, or a
        // new row begins at column zero.
        if x == w - 1 {
            assert(k == (y + 1) * w + 0) by (nonlinear_arith)
                requires k - 1 == w * y + x && x == w - 1;
            lemma_fundamental_div_mod_converse(k, w, y + 1, 0);
        } else {
            assert(k == y * w + (x + 1)) by (nonlinear_arith)
                requires k - 1 == w * y + x;
            lemma_fundamental_div_mod_converse(k, w, y, x + 1);
        }
        assert(y * w == w * y) by (nonlinear_arith);
        assert((y + 1) * w == w * y + w) by (nonlinear_arith);
    }
}

/// Non-bijective matrix edge case: the collapsing matrix writes every
/// column's pixels onto row zero, so there the last source row wins, while
/// every destination row but the first is never written and keeps the
/// neutral value it was initialized with.
pub proof fn lemma_collapse_pass(src: Seq<Pixel>, w: int, h: int)
    requires
        1 <= w,
        1 <= h,
        w * h <= i64::MAX,
        src.len() == w * h,
    ensures
        pass_fits(collapse_matrix(), w, h),
        pass_spec(src, collapse_matrix(), w, h).len() == w * h,
        forall|j: int| 0 <= j < w
            ==> #[trigger] pass_spec(src, collapse_matrix(), w, h)[j]
                == src[(h - 1) * w + j],
        forall|j: int| w <= j < w * h
            ==> #[trigger] pass_spec(src, collapse_matrix(), w, h)[j] == black(),
{
    let m = collapse_matrix();
    assert forall|x: int, y: int| 0 <= x < w && 0 <= y < h
        implies map_fits(m, x, y, w, h) by {
        lemma_collapse_map(x, y, w, h);
    }
    lemma_collapse_write_prefix(src, w, h, w * h);
    assert(w * h == h * w + 0) by (nonlinear_arith);
    lemma_fundamental_div_mod_converse(w * h, w, h, 0);
    assert((w * h) % w == 0 && (w * h) / w == h);
}

} // verus!
