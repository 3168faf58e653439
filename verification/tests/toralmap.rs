use toralmap::engine::{apply, pass, TransformError};
use toralmap::grid::{Grid, Pixel};
use toralmap::mapper::modulo;
use toralmap::matrix::{Matrix, MatrixError};

fn px(r: u8, g: u8, b: u8) -> Pixel {
    Pixel { r, g, b }
}

fn cell(x: usize, y: usize) -> Pixel {
    px(x as u8, y as u8, (x + 7 * y) as u8)
}

fn make_grid(w: usize, h: usize) -> Grid {
    let mut pixels: Vec<Pixel> = Vec::new();
    for y in 0..h {
        for x in 0..w {
            pixels.push(cell(x, y));
        }
    }
    Grid::from_pixels(w, h, pixels).unwrap()
}

fn grids_equal(a: &Grid, b: &Grid) -> bool {
    if a.width() != b.width() || a.height() != b.height() {
        return false;
    }
    for y in 0..a.height() {
        for x in 0..a.width() {
            if a.get(x, y) != b.get(x, y) {
                return false;
            }
        }
    }
    true
}

fn sorted_pixels(g: Grid) -> Vec<(u8, u8, u8)> {
    let mut v: Vec<(u8, u8, u8)> = g.into_pixels().iter().map(|p| (p.r, p.g, p.b)).collect();
    v.sort();
    v
}

#[test]
fn modulo_wraps_negative_values() {
    assert_eq!(modulo(-1, 5), 4);
    assert_eq!(modulo(-7, 5), 3);
    assert_eq!(modulo(-5, 5), 0);
    assert_eq!(modulo(0, 5), 0);
    assert_eq!(modulo(7, 5), 2);
    assert_eq!(modulo(5, 5), 0);
    assert_eq!(modulo(-1, 1), 0);
}

#[test]
fn zero_iterations_return_grid_unchanged() {
    let g = make_grid(3, 2);
    let m = Matrix { a: 5, b: -3, c: 2, d: 9 };
    let out = apply(&g, &m, 0).unwrap();
    assert!(grids_equal(&g, &out));
}

#[test]
fn identity_matrix_keeps_every_pixel_in_place() {
    let g = make_grid(4, 3);
    let m = Matrix { a: 1, b: 0, c: 0, d: 1 };
    let out = apply(&g, &m, 5).unwrap();
    assert!(grids_equal(&g, &out));
}

#[test]
fn dimensions_are_preserved() {
    let g = make_grid(5, 7);
    let m = Matrix { a: 2, b: 1, c: 1, d: 1 };
    let out = apply(&g, &m, 4).unwrap();
    assert_eq!(out.width(), 5);
    assert_eq!(out.height(), 7);
}

#[test]
fn cat_map_pass_is_a_permutation_on_square_grid() {
    let g = make_grid(3, 3);
    let m = Matrix { a: 2, b: 1, c: 1, d: 1 };
    let before = sorted_pixels(make_grid(3, 3));
    let out = pass(&g, &m).unwrap();
    assert_eq!(sorted_pixels(out), before);
}

#[test]
fn cat_map_moves_pixels_on_square_grid() {
    // One pass of the cat map sends (x, y) to ((2x + y) mod s, (x + y) mod s).
    let g = make_grid(3, 3);
    let m = Matrix { a: 2, b: 1, c: 1, d: 1 };
    let out = pass(&g, &m).unwrap();
    for y in 0..3 {
        for x in 0..3 {
            let nx = (2 * x + y) % 3;
            let ny = (x + y) % 3;
            assert_eq!(out.get(nx, ny), cell(x, y));
        }
    }
}

#[test]
fn cat_map_has_period_three_on_four_by_four() {
    // The matrix (2,1,1,1) cubes to the identity modulo 4, so three passes
    // restore the original 4x4 grid while one or two do not.
    let g = make_grid(4, 4);
    let m = Matrix { a: 2, b: 1, c: 1, d: 1 };
    let once = apply(&g, &m, 1).unwrap();
    let twice = apply(&g, &m, 2).unwrap();
    let thrice = apply(&g, &m, 3).unwrap();
    assert!(!grids_equal(&g, &once));
    assert!(!grids_equal(&g, &twice));
    assert!(grids_equal(&g, &thrice));
}

#[test]
fn degenerate_matrix_overwrites_and_leaves_defaults() {
    // (1,0,0,0) maps every source cell (x, y) to (x, 0): within each
    // column the highest row wins, and all other rows keep the neutral
    // black value that the destination was initialized with.
    let g = make_grid(2, 2);
    let m = Matrix { a: 1, b: 0, c: 0, d: 0 };
    let out = apply(&g, &m, 1).unwrap();
    assert_eq!(out.get(0, 0), cell(0, 1));
    assert_eq!(out.get(1, 0), cell(1, 1));
    assert_eq!(out.get(0, 1), px(0, 0, 0));
    assert_eq!(out.get(1, 1), px(0, 0, 0));
}

#[test]
fn overflowing_coefficients_are_reported() {
    let g = make_grid(2, 2);
    let m = Matrix { a: i64::MAX, b: 1, c: 1, d: 1 };
    assert_eq!(apply(&g, &m, 1).err(), Some(TransformError::Overflow));
    // Zero iterations never compute a coordinate, so nothing overflows.
    assert!(apply(&g, &m, 0).is_ok());
}

#[test]
fn parse_accepts_four_integers() {
    assert_eq!(Matrix::parse("2,1,1,1"), Ok(Matrix { a: 2, b: 1, c: 1, d: 1 }));
    assert_eq!(Matrix::parse("1,0,0,1"), Ok(Matrix { a: 1, b: 0, c: 0, d: 1 }));
    assert_eq!(
        Matrix::parse("-3,+4,0,600"),
        Ok(Matrix { a: -3, b: 4, c: 0, d: 600 })
    );
    assert_eq!(
        Matrix::parse("9223372036854775807,0,0,-9223372036854775808"),
        Ok(Matrix { a: i64::MAX, b: 0, c: 0, d: i64::MIN })
    );
}

#[test]
fn parse_rejects_malformed_input() {
    assert_eq!(Matrix::parse(""), Err(MatrixError::MalformedMatrix));
    assert_eq!(Matrix::parse("1,2,3"), Err(MatrixError::MalformedMatrix));
    assert_eq!(Matrix::parse("1,2,3,4,5"), Err(MatrixError::MalformedMatrix));
    assert_eq!(Matrix::parse("1,2,x,4"), Err(MatrixError::MalformedMatrix));
    assert_eq!(Matrix::parse("1,,3,4"), Err(MatrixError::MalformedMatrix));
    assert_eq!(Matrix::parse("1, 2,3,4"), Err(MatrixError::MalformedMatrix));
    assert_eq!(Matrix::parse("1,2,3,"), Err(MatrixError::MalformedMatrix));
    assert_eq!(Matrix::parse("1,2,3,-"), Err(MatrixError::MalformedMatrix));
    assert_eq!(
        Matrix::parse("9223372036854775808,0,0,0"),
        Err(MatrixError::MalformedMatrix)
    );
    assert_eq!(
        Matrix::parse("1,2,3,99999999999999999999999999"),
        Err(MatrixError::MalformedMatrix)
    );
}

#[test]
fn from_pixels_checks_dimensions() {
    let three = vec![px(1, 2, 3), px(4, 5, 6), px(7, 8, 9)];
    assert!(Grid::from_pixels(3, 1, three.clone()).is_some());
    assert!(Grid::from_pixels(1, 3, three.clone()).is_some());
    assert!(Grid::from_pixels(2, 2, three.clone()).is_none());
    assert!(Grid::from_pixels(0, 3, three.clone()).is_none());
    assert!(Grid::from_pixels(3, 0, three).is_none());
}

#[test]
fn grid_round_trips_its_pixels() {
    let g = make_grid(3, 2);
    let v = g.into_pixels();
    assert_eq!(v.len(), 6);
    for y in 0..2 {
        for x in 0..3 {
            assert_eq!(v[y * 3 + x], cell(x, y));
        }
    }
}
