//! Row-major flattening of a cubic grid.
//!
//! A cube of side `size` holds `size * size * size` cells.  A cell at
//! coordinates `(x, y, z)` lives at flat index `x + size * (y + size * z)`;
//! the three coordinates can be recovered from the flat index by division
//! and remainder, which makes the flattening a bijection between coordinate
//! triples and `[0, size^3)`.

use vstd::arithmetic::div_mod::lemma_fundamental_div_mod_converse;
use vstd::prelude::*;

verus! {

/// Flat index of the cell at `(x, y, z)` in a cube of side `size`.
pub open spec fn idx(x: int, y: int, z: int, size: int) -> int {
    x + size * (y + size * z)
}

/// The `x` coordinate of the cell at flat index `n`.
pub open spec fn coord_x(n: int, size: int) -> int {
    n % size
}

/// The `y` coordinate of the cell at flat index `n`.
pub open spec fn coord_y(n: int, size: int) -> int {
    (n / size) % size
}

/// The `z` coordinate of the cell at flat index `n`.
pub open spec fn coord_z(n: int, size: int) -> int {
    n / (size * size)
}

/// In-range coordinates map to an in-range flat index.
pub proof fn lemma_index_bounds(x: int, y: int, z: int, size: int)
    by (nonlinear_arith)
    requires
        1 <= size,
        0 <= x < size,
        0 <= y < size,
        0 <= z < size,
    ensures
        0 <= y + size * z < size * size,
        0 <= idx(x, y, z, size) < size * size * size,
{
}

/// The coordinates of a cell are recovered from its flat index: composing
/// `idx` with the three `coord_*` projections is the identity on in-range
/// coordinate triples.  In particular `idx` is injective on the cube.
pub proof fn lemma_coords_of_index(x: int, y: int, z: int, size: int)
    requires
        1 <= size,
        0 <= x < size,
        0 <= y < size,
        0 <= z < size,
    ensures
        coord_x(idx(x, y, z, size), size) == x,
        coord_y(idx(x, y, z, size), size) == y,
        coord_z(idx(x, y, z, size), size) == z,
{
    let n = idx(x, y, z, size);
    lemma_index_bounds(x, y, z, size);
    assert(n == (y + size * z) * size + x) by (nonlinear_arith)
        requires
            n == x + size * (y + size * z),
    ;
    lemma_fundamental_div_mod_converse(n, size, y + size * z, x);
    assert(coord_x(n, size) == x);
    assert(n / size == y + size * z);
    assert(y + size * z == z * size + y) by (nonlinear_arith);
    lemma_fundamental_div_mod_converse(y + size * z, size, z, y);
    assert(coord_y(n, size) == y);
    assert(n == z * (size * size) + (x + size * y)) by (nonlinear_arith)
        requires
            n == x + size * (y + size * z),
    ;
    assert(0 <= x + size * y < size * size) by (nonlinear_arith)
        requires
            1 <= size,
            0 <= x < size,
            0 <= y < size,
    ;
    lemma_fundamental_div_mod_converse(n, size * size, z, x + size * y);
    assert(coord_z(n, size) == z);
}

/// Every flat index in `[0, size^3)` is the index of exactly one in-range
/// coordinate triple: `idx` applied to the recovered coordinates gives the
/// index back.  Together with `lemma_coords_of_index` this makes the
/// flattening a bijection onto `[0, size^3)`.
pub proof fn lemma_index_of_coords(n: int, size: int)
    requires
        1 <= size,
        0 <= n < size * size * size,
    ensures
        0 <= coord_x(n, size) < size,
        0 <= coord_y(n, size) < size,
        0 <= coord_z(n, size) < size,
        idx(coord_x(n, size), coord_y(n, size), coord_z(n, size), size) == n,
{
    let q = n / (size * size);
    let r = n % (size * size);
    assert(size * size > 0) by (nonlinear_arith)
        requires
            size >= 1,
    ;
    vstd::arithmetic::div_mod::lemma_fundamental_div_mod(n, size * size);
    vstd::arithmetic::div_mod::lemma_mod_bound(n, size * size);
    assert(0 <= q < size) by (nonlinear_arith)
        requires
            0 <= n < size * size * size,
            n == size * size * q + r,
            0 <= r < size * size,
    ;
    let y = r / size;
    let x = r % size;
    vstd::arithmetic::div_mod::lemma_fundamental_div_mod(r, size);
    vstd::arithmetic::div_mod::lemma_mod_bound(r, size);
    assert(0 <= y < size) by (nonlinear_arith)
        requires
            0 <= r < size * size,
            r == size * y + x,
            0 <= x < size,
    ;
    lemma_coords_of_index(x, y, q, size);
    assert(idx(x, y, q, size) == x + size * y + size * (size * q)) by (nonlinear_arith);
    assert(n == x + size * y + size * (size * q)) by (nonlinear_arith)
        requires
            n == size * size * q + r,
            r == size * y + x,
    ;
    assert(coord_x(n, size) == x && coord_y(n, size) == y && coord_z(n, size) == q);
}

/// Distinct in-range coordinate triples never share a flat index.
pub proof fn lemma_index_injective(
    x1: int,
    y1: int,
    z1: int,
    x2: int,
    y2: int,
    z2: int,
    size: int,
)
    requires
        1 <= size,
        0 <= x1 < size,
        0 <= y1 < size,
        0 <= z1 < size,
        0 <= x2 < size,
        0 <= y2 < size,
        0 <= z2 < size,
        idx(x1, y1, z1, size) == idx(x2, y2, z2, size),
    ensures
        x1 == x2,
        y1 == y2,
        z1 == z2,
{
    lemma_coords_of_index(x1, y1, z1, size);
    lemma_coords_of_index(x2, y2, z2, size);
}

proof fn lemma_index_fits(x: int, y: int, z: int, size: int)
    by (nonlinear_arith)
    requires
        1 <= size,
        0 <= x < size,
        0 <= y < size,
        0 <= z < size,
        size * size * size <= 0xFFFF_FFFF,
    ensures
        y + size * z <= 0xFFFF_FFFF,
        x + size * (y + size * z) <= 0xFFFF_FFFF,
        x + size * (y + size * z) == idx(x, y, z, size),
        idx(x, y, z, size) < size * size * size,
{
}

/// Computes the flat index of the cell at `(x, y, z)` in a cube of side
/// `size`, row-major with `x` varying fastest.
pub fn calc_index(x: u32, y: u32, z: u32, size: u32) -> (i: usize)
    requires
        1 <= size,
        x < size,
        y < size,
        z < size,
        (size as int) * (size as int) * (size as int) <= 0xFFFF_FFFF,
    ensures
        i == idx(x as int, y as int, z as int, size as int),
        i < (size as int) * (size as int) * (size as int),
{
    proof {
        lemma_index_fits(x as int, y as int, z as int, size as int);
    }
    (x + size * (y + size * z)) as usize
}

} // verus!
