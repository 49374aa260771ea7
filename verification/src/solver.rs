//! The light-distance solver.
//!
//! Starting from the synthesized buffer, a bounded number of relaxation
//! passes propagate a distance-from-light value across the open cells.  In
//! each pass every cell is visited once, `x` outermost and `z` innermost,
//! and an open cell's secondary byte is replaced in place by a relaxed
//! candidate: one more than its own value, tightened to one more than each
//! open axis neighbor's value — unless any axis neighbor is solid, which
//! forces the candidate to zero for the whole cell regardless of the other
//! neighbors.  Neighbor coordinates are clamped at the grid boundary, so a
//! boundary cell samples itself in the out-of-range direction rather than
//! wrapping around.  Because the update is in place, cells visited later in
//! a pass see neighbors already updated in the same pass; the specification
//! below fixes that visiting order exactly.

use crate::field::{cube, depth_bucket, field_spec, lemma_field_cell};
use crate::grid::{calc_index, coord_x, coord_y, coord_z, idx, lemma_coords_of_index,
    lemma_index_bounds, lemma_index_injective, lemma_index_of_coords};
use vstd::prelude::*;

verus! {

/// Occupancy byte of the cell at `(x, y, z)`.
pub open spec fn occ_at(s: Seq<u8>, size: int, x: int, y: int, z: int) -> u8 {
    s[2 * idx(x, y, z, size)]
}

/// Secondary (light) byte of the cell at `(x, y, z)`.
pub open spec fn light_at(s: Seq<u8>, size: int, x: int, y: int, z: int) -> u8 {
    s[2 * idx(x, y, z, size) + 1]
}

/// Neighbor coordinate one step toward zero, clamped: the cell at `0`
/// samples itself instead of wrapping around.
pub open spec fn nb_dec(c: int) -> int {
    if c == 0 {
        0
    } else {
        c - 1
    }
}

/// Neighbor coordinate one step away from zero, clamped: the cell at
/// `size - 1` samples itself instead of leaving the grid.
pub open spec fn nb_inc(c: int, size: int) -> int {
    if c + 1 < size {
        c + 1
    } else {
        c
    }
}

/// Saturating increment of a light byte.
pub open spec fn sat_inc(v: u8) -> u8 {
    if v == 255 {
        255u8
    } else {
        (v + 1) as u8
    }
}

/// The smaller of two bytes.
pub open spec fn min_u8(a: u8, b: u8) -> u8 {
    if a <= b {
        a
    } else {
        b
    }
}

/// One neighbor's contribution to the relaxed candidate `m`: an open
/// neighbor tightens `m` to at most its light value plus one; a solid
/// neighbor resets the candidate to zero outright.
pub open spec fn nb_fold(s: Seq<u8>, size: int, m: u8, x: int, y: int, z: int) -> u8 {
    if occ_at(s, size, x, y, z) == 0 {
        min_u8(m, sat_inc(light_at(s, size, x, y, z)))
    } else {
        0u8
    }
}

/// The relaxed light value of the cell at `(x, y, z)`: its own light value
/// plus one, folded with the six axis neighbors' contributions in the fixed
/// order `+x`, `-x`, `+y`, `-y`, `+z`, `-z`.
pub open spec fn relaxed_light(s: Seq<u8>, size: int, x: int, y: int, z: int) -> u8 {
    let m0 = sat_inc(light_at(s, size, x, y, z));
    let m1 = nb_fold(s, size, m0, nb_inc(x, size), y, z);
    let m2 = nb_fold(s, size, m1, nb_dec(x), y, z);
    let m3 = nb_fold(s, size, m2, x, nb_inc(y, size), z);
    let m4 = nb_fold(s, size, m3, x, nb_dec(y), z);
    let m5 = nb_fold(s, size, m4, x, y, nb_inc(z, size));
    nb_fold(s, size, m5, x, y, nb_dec(z))
}

/// Whether some boundary-clamped axis neighbor of `(x, y, z)` is solid.
pub open spec fn solid_adjacent(s: Seq<u8>, size: int, x: int, y: int, z: int) -> bool {
    occ_at(s, size, nb_inc(x, size), y, z) != 0 || occ_at(s, size, nb_dec(x), y, z) != 0
        || occ_at(s, size, x, nb_inc(y, size), z) != 0 || occ_at(s, size, x, nb_dec(y), z) != 0
        || occ_at(s, size, x, y, nb_inc(z, size)) != 0 || occ_at(s, size, x, y, nb_dec(z)) != 0
}

/// Visiting one cell: a solid cell is left alone; an open cell's light byte
/// becomes its relaxed value, read from the buffer as it currently stands.
pub open spec fn step_cell(s: Seq<u8>, size: int, x: int, y: int, z: int) -> Seq<u8> {
    if occ_at(s, size, x, y, z) == 0 {
        s.update(2 * idx(x, y, z, size) + 1, relaxed_light(s, size, x, y, z))
    } else {
        s
    }
}

/// The `x` coordinate visited at step `n` of a pass (`x` is outermost).
pub open spec fn visit_x(n: int, size: int) -> int {
    coord_z(n, size)
}

/// The `y` coordinate visited at step `n` of a pass.
pub open spec fn visit_y(n: int, size: int) -> int {
    coord_y(n, size)
}

/// The `z` coordinate visited at step `n` of a pass (`z` is innermost).
pub open spec fn visit_z(n: int, size: int) -> int {
    coord_x(n, size)
}

/// The step of a pass at which the cell with flat index `c` is visited.
pub open spec fn visit_step(c: int, size: int) -> int {
    idx(coord_z(c, size), coord_y(c, size), coord_x(c, size), size)
}

/// The buffer after the first `n` cell visits of a pass.
pub open spec fn pass_prefix(s: Seq<u8>, size: int, n: int) -> Seq<u8>
    decreases n,
{
    if n <= 0 {
        s
    } else {
        step_cell(
            pass_prefix(s, size, n - 1),
            size,
            visit_x(n - 1, size),
            visit_y(n - 1, size),
            visit_z(n - 1, size),
        )
    }
}

/// One full in-place relaxation pass over every cell of the cube.
pub open spec fn solve_pass(s: Seq<u8>, size: int) -> Seq<u8> {
    pass_prefix(s, size, cube(size))
}

/// The buffer after `passes` full relaxation passes.
pub open spec fn solve_spec(s: Seq<u8>, size: int, passes: nat) -> Seq<u8>
    decreases passes,
{
    if passes == 0 {
        s
    } else {
        solve_pass(solve_spec(s, size, (passes - 1) as nat), size)
    }
}

/// Boundary policy of the solver: a neighbor coordinate that would leave
/// the grid is clamped to the cell's own coordinate, never wrapped.  In
/// particular a cell at coordinate `0` samples itself in the decreasing
/// direction, and a cell at `size - 1` samples itself in the increasing
/// direction; everywhere else the neighbors are the adjacent cells.
pub proof fn lemma_boundary_clamped(size: int)
    requires
        1 <= size,
    ensures
        nb_dec(0) == 0,
        nb_inc(size - 1, size) == size - 1,
        forall|c: int| 0 < c < size ==> #[trigger] nb_dec(c) == c - 1,
        forall|c: int| 0 <= c < size - 1 ==> #[trigger] nb_inc(c, size) == c + 1,
        forall|c: int| 0 <= c < size ==> 0 <= #[trigger] nb_dec(c) < size,
        forall|c: int| 0 <= c < size ==> 0 <= #[trigger] nb_inc(c, size) < size,
{
}

/// Any solid axis neighbor forces an open cell's relaxed light value to
/// zero, overriding every other neighbor's contribution.
pub proof fn lemma_solid_neighbor_resets(s: Seq<u8>, size: int, x: int, y: int, z: int)
    requires
        solid_adjacent(s, size, x, y, z),
    ensures
        relaxed_light(s, size, x, y, z) == 0,
{
}

/// With no solid neighbor, the relaxed value is exactly the least of the
/// cell's own light value plus one and each neighbor's light value plus
/// one (each increment saturating at 255).
pub proof fn lemma_open_relaxation_min(s: Seq<u8>, size: int, x: int, y: int, z: int)
    requires
        !solid_adjacent(s, size, x, y, z),
    ensures
        relaxed_light(s, size, x, y, z) == min_u8(
            sat_inc(light_at(s, size, x, y, z)),
            min_u8(
                sat_inc(light_at(s, size, nb_inc(x, size), y, z)),
                min_u8(
                    sat_inc(light_at(s, size, nb_dec(x), y, z)),
                    min_u8(
                        sat_inc(light_at(s, size, x, nb_inc(y, size), z)),
                        min_u8(
                            sat_inc(light_at(s, size, x, nb_dec(y), z)),
                            min_u8(
                                sat_inc(light_at(s, size, x, y, nb_inc(z, size))),
                                sat_inc(light_at(s, size, x, y, nb_dec(z))),
                            ),
                        ),
                    ),
                ),
            ),
        ),
{
}

/// A cell's relaxed value never exceeds its own light value plus one.
proof fn lemma_relaxed_le_own(s: Seq<u8>, size: int, x: int, y: int, z: int)
    ensures
        relaxed_light(s, size, x, y, z) <= sat_inc(light_at(s, size, x, y, z)),
        relaxed_light(s, size, x, y, z) <= light_at(s, size, x, y, z) + 1,
{
}

/// The cell visited at step `n` is in range and is visited at no other
/// step: visiting order is a bijection between steps and cells.
proof fn lemma_visit_bijective(n: int, size: int)
    requires
        1 <= size,
        0 <= n < cube(size),
    ensures
        0 <= visit_x(n, size) < size,
        0 <= visit_y(n, size) < size,
        0 <= visit_z(n, size) < size,
        0 <= idx(visit_x(n, size), visit_y(n, size), visit_z(n, size), size) < cube(size),
        visit_step(idx(visit_x(n, size), visit_y(n, size), visit_z(n, size), size), size) == n,
{
    lemma_index_of_coords(n, size);
    let vx = coord_z(n, size);
    let vy = coord_y(n, size);
    let vz = coord_x(n, size);
    lemma_index_bounds(vx, vy, vz, size);
    lemma_coords_of_index(vx, vy, vz, size);
    let c = idx(vx, vy, vz, size);
    assert(visit_step(c, size) == idx(vz, vy, vx, size));
    assert(idx(vz, vy, vx, size) == n) by (nonlinear_arith)
        requires
            idx(vz, vy, vx, size) == vz + size * (vy + size * vx),
            n == vz + size * (vy + size * vx),
    ;
}

/// Two distinct in-range cells are visited at distinct steps.
proof fn lemma_visit_step_injective(c1: int, c2: int, size: int)
    requires
        1 <= size,
        0 <= c1 < cube(size),
        0 <= c2 < cube(size),
        c1 != c2,
    ensures
        visit_step(c1, size) != visit_step(c2, size),
{
    lemma_index_of_coords(c1, size);
    lemma_index_of_coords(c2, size);
    if visit_step(c1, size) == visit_step(c2, size) {
        lemma_index_injective(
            coord_z(c1, size),
            coord_y(c1, size),
            coord_x(c1, size),
            coord_z(c2, size),
            coord_y(c2, size),
            coord_x(c2, size),
            size,
        );
    }
}

/// Frame and bound facts for a partial pass: occupancy bytes never change,
/// cells not yet visited keep their light byte, a solid cell keeps its
/// light byte forever, and no visited cell's light byte has grown by more
/// than one.
proof fn lemma_pass_prefix_props(s: Seq<u8>, size: int, n: int)
    requires
        1 <= size,
        s.len() == 2 * cube(size),
        0 <= n <= cube(size),
    ensures
        pass_prefix(s, size, n).len() == s.len(),
        forall|c: int|
            0 <= c < cube(size) ==> #[trigger] pass_prefix(s, size, n)[2 * c] == s[2 * c],
        forall|c: int|
            0 <= c < cube(size) && s[2 * c] != 0 ==> #[trigger] pass_prefix(s, size, n)[2 * c + 1]
                == s[2 * c + 1],
        forall|c: int|
            0 <= c < cube(size) && visit_step(c, size) >= n ==> #[trigger] pass_prefix(
                s,
                size,
                n,
            )[2 * c + 1] == s[2 * c + 1],
        forall|c: int|
            0 <= c < cube(size) ==> #[trigger] pass_prefix(s, size, n)[2 * c + 1] <= s[2 * c + 1]
                + 1,
    decreases n,
{
    if n > 0 {
        lemma_pass_prefix_props(s, size, n - 1);
        let prev = pass_prefix(s, size, n - 1);
        let vx = visit_x(n - 1, size);
        let vy = visit_y(n - 1, size);
        let vz = visit_z(n - 1, size);
        lemma_visit_bijective(n - 1, size);
        let cv = idx(vx, vy, vz, size);
        assert(occ_at(prev, size, vx, vy, vz) == s[2 * cv]);
        if s[2 * cv] == 0 {
            lemma_relaxed_le_own(prev, size, vx, vy, vz);
            assert(light_at(prev, size, vx, vy, vz) == s[2 * cv + 1]);
            assert forall|c: int| 0 <= c < cube(size) && c != cv implies visit_step(c, size)
                != n - 1 by {
                lemma_visit_step_injective(c, cv, size);
            }
        }
    }
}

/// Occupancy is never touched by the solver, a solid cell's secondary byte
/// survives every pass unchanged, and an open cell's light value grows by
/// at most one per pass: after `passes` passes it exceeds its starting
/// value by at most `passes`.
pub proof fn lemma_solver_frame_and_bound(s: Seq<u8>, size: int, passes: nat)
    requires
        1 <= size,
        s.len() == 2 * cube(size),
    ensures
        solve_spec(s, size, passes).len() == s.len(),
        forall|c: int|
            0 <= c < cube(size) ==> #[trigger] solve_spec(s, size, passes)[2 * c] == s[2 * c],
        forall|c: int|
            0 <= c < cube(size) && s[2 * c] != 0 ==> #[trigger] solve_spec(s, size, passes)[2 * c
                + 1] == s[2 * c + 1],
        forall|c: int|
            0 <= c < cube(size) ==> #[trigger] solve_spec(s, size, passes)[2 * c + 1] <= s[2 * c
                + 1] + passes,
    decreases passes,
{
    if passes > 0 {
        lemma_solver_frame_and_bound(s, size, (passes - 1) as nat);
        let prev = solve_spec(s, size, (passes - 1) as nat);
        lemma_pass_prefix_props(prev, size, cube(size));
    }
}

/// End-to-end shape of a generated buffer: the occupancy bytes are exactly
/// the synthesized occupancy bytes, a solid cell's secondary byte stays at
/// its synthesis-time depth bucket through every pass, and an open cell's
/// light value after `passes` passes is at most `passes`, since its
/// synthesis seed is zero.
pub proof fn lemma_generated_field(
    occ: Seq<u8>,
    heights: Seq<u32>,
    size: int,
    passes: nat,
    c: int,
)
    requires
        1 <= size,
        0 <= c < cube(size),
    ensures
        solve_spec(field_spec(occ, heights, size), size, passes)[2 * c] == occ[c],
        occ[c] != 0 ==> solve_spec(field_spec(occ, heights, size), size, passes)[2 * c + 1]
            == depth_bucket(
            coord_y(c, size),
            heights[coord_x(c, size) + size * coord_z(c, size)] as int,
        ),
        occ[c] == 0 ==> solve_spec(field_spec(occ, heights, size), size, passes)[2 * c + 1]
            <= passes,
{
    let s = field_spec(occ, heights, size);
    assert(1 <= cube(size)) by (nonlinear_arith)
        requires
            1 <= size,
            cube(size) == size * size * size,
    ;
    assert(s.len() == 2 * cube(size));
    lemma_field_cell(occ, heights, size, c);
    lemma_solver_frame_and_bound(s, size, passes);
}

/// The solver is deterministic: the solved buffer is a pure function of
/// the starting buffer, the grid side, and the pass count, so two runs on
/// byte-identical inputs give byte-identical outputs.
pub proof fn lemma_solver_deterministic(a: Seq<u8>, b: Seq<u8>, size: int, passes: nat)
    requires
        a == b,
    ensures
        solve_spec(a, size, passes) == solve_spec(b, size, passes),
{
}

/// Folds one boundary-clamped neighbor into the relaxed candidate `m`.
fn fold_neighbor(data: &Vec<u8>, size: u32, m: u8, x: u32, y: u32, z: u32) -> (r: u8)
    requires
        1 <= size,
        (size as int) * (size as int) * (size as int) <= 0xFFFF_FFFF,
        data@.len() == 2 * cube(size as int),
        2 * cube(size as int) <= usize::MAX,
        x < size,
        y < size,
        z < size,
    ensures
        r == nb_fold(data@, size as int, m, x as int, y as int, z as int),
{
    proof {
        lemma_index_bounds(x as int, y as int, z as int, size as int);
    }
    let j: usize = calc_index(x, y, z, size) * 2;
    if data[j] == 0 {
        let t: u8 = data[j + 1];
        let t1: u8 = if t == 255 {
            255
        } else {
            t + 1
        };
        if t1 < m {
            t1
        } else {
            m
        }
    } else {
        0u8
    }
}

/// Runs one in-place relaxation pass over the whole cube, visiting cells
/// with `x` outermost and `z` innermost.
pub fn relax_pass(data: Vec<u8>, size: u32) -> (out: Vec<u8>)
    requires
        1 <= size,
        (size as int) * (size as int) * (size as int) <= 0xFFFF_FFFF,
        data@.len() == 2 * cube(size as int),
        2 * cube(size as int) <= usize::MAX,
    ensures
        out@ == solve_pass(data@, size as int),
        out@.len() == data@.len(),
{
    let ghost s0 = data@;
    let ghost sz = size as int;
    let mut data = data;
    let mut x: u32 = 0;
    while x < size
        invariant
            1 <= size,
            sz == size as int,
            sz * sz * sz <= 0xFFFF_FFFF,
            2 * cube(sz) <= usize::MAX,
            s0.len() == 2 * cube(sz),
            x <= size,
            data@ == pass_prefix(s0, sz, (x as int) * sz * sz),
            data@.len() == s0.len(),
        decreases size - x,
    {
        let mut y: u32 = 0;
        while y < size
            invariant
                1 <= size,
                sz == size as int,
                sz * sz * sz <= 0xFFFF_FFFF,
                2 * cube(sz) <= usize::MAX,
                s0.len() == 2 * cube(sz),
                x < size,
                y <= size,
                data@ == pass_prefix(s0, sz, (x as int) * sz * sz + (y as int) * sz),
                data@.len() == s0.len(),
            decreases size - y,
        {
            let mut z: u32 = 0;
            while z < size
                invariant
                    1 <= size,
                    sz == size as int,
                    sz * sz * sz <= 0xFFFF_FFFF,
                    2 * cube(sz) <= usize::MAX,
                    s0.len() == 2 * cube(sz),
                    x < size,
                    y < size,
                    z <= size,
                    data@ == pass_prefix(s0, sz, (x as int) * sz * sz + (y as int) * sz + (
                    z as int)),
                    data@.len() == s0.len(),
                decreases size - z,
            {
                let ghost n = (x as int) * sz * sz + (y as int) * sz + (z as int);
                proof {
                    lemma_index_bounds(z as int, y as int, x as int, sz);
                    lemma_coords_of_index(z as int, y as int, x as int, sz);
                    assert(idx(z as int, y as int, x as int, sz) == n) by (nonlinear_arith)
                        requires
                            idx(z as int, y as int, x as int, sz) == z + sz * (y + sz * (x as int)),
                            n == (x as int) * sz * sz + (y as int) * sz + (z as int),
                    ;
                    assert(visit_x(n, sz) == x && visit_y(n, sz) == y && visit_z(n, sz) == z);
                    assert(0 <= n < cube(sz));
                }
                let ghost cur = data@;
                let i: usize = calc_index(x, y, z, size) * 2;
                proof {
                    lemma_index_bounds(x as int, y as int, z as int, sz);
                }
                let cd: u8 = data[i];
                if cd == 0 {
                    let xp: u32 = if x + 1 < size {
                        x + 1
                    } else {
                        x
                    };
                    let xm: u32 = if x == 0 {
                        0
                    } else {
                        x - 1
                    };
                    let yp: u32 = if y + 1 < size {
                        y + 1
                    } else {
                        y
                    };
                    let ym: u32 = if y == 0 {
                        0
                    } else {
                        y - 1
                    };
                    let zp: u32 = if z + 1 < size {
                        z + 1
                    } else {
                        z
                    };
                    let zm: u32 = if z == 0 {
                        0
                    } else {
                        z - 1
                    };
                    let lv: u8 = data[i + 1];
                    let m0: u8 = if lv == 255 {
                        255
                    } else {
                        lv + 1
                    };
                    let m1: u8 = fold_neighbor(&data, size, m0, xp, y, z);
                    let m2: u8 = fold_neighbor(&data, size, m1, xm, y, z);
                    let m3: u8 = fold_neighbor(&data, size, m2, x, yp, z);
                    let m4: u8 = fold_neighbor(&data, size, m3, x, ym, z);
                    let m5: u8 = fold_neighbor(&data, size, m4, x, y, zp);
                    let m: u8 = fold_neighbor(&data, size, m5, x, y, zm);
                    proof {
                        assert(m == relaxed_light(cur, sz, x as int, y as int, z as int));
                    }
                    data.set(i + 1, m);
                    proof {
                        assert(data@ =~= step_cell(cur, sz, x as int, y as int, z as int));
                    }
                } else {
                    proof {
                        assert(data@ == step_cell(cur, sz, x as int, y as int, z as int));
                    }
                }
                proof {
                    assert(pass_prefix(s0, sz, n + 1) == step_cell(
                        pass_prefix(s0, sz, n),
                        sz,
                        visit_x(n, sz),
                        visit_y(n, sz),
                        visit_z(n, sz),
                    ));
                }
                z = z + 1;
            }
            proof {
                assert((x as int) * sz * sz + (y as int) * sz + sz == (x as int) * sz * sz + ((
                y as int) + 1) * sz) by (nonlinear_arith);
            }
            y = y + 1;
        }
        proof {
            assert((x as int) * sz * sz + sz * sz == ((x as int) + 1) * sz * sz)
                by (nonlinear_arith);
        }
        x = x + 1;
    }
    proof {
        assert((size as int) * sz * sz == cube(sz)) by (nonlinear_arith)
            requires
                sz == size as int,
                cube(sz) == sz * sz * sz,
        ;
    }
    data
}

/// Runs `passes` full relaxation passes over the buffer and returns the
/// solved buffer.
pub fn solve_light(data: Vec<u8>, size: u32, passes: u32) -> (out: Vec<u8>)
    requires
        1 <= size,
        (size as int) * (size as int) * (size as int) <= 0xFFFF_FFFF,
        data@.len() == 2 * cube(size as int),
        2 * cube(size as int) <= usize::MAX,
    ensures
        out@ == solve_spec(data@, size as int, passes as nat),
        out@.len() == data@.len(),
{
    let ghost s0 = data@;
    let mut data = data;
    let mut p: u32 = 0;
    while p < passes
        invariant
            1 <= size,
            (size as int) * (size as int) * (size as int) <= 0xFFFF_FFFF,
            2 * cube(size as int) <= usize::MAX,
            s0.len() == 2 * cube(size as int),
            p <= passes,
            data@ == solve_spec(s0, size as int, p as nat),
            data@.len() == s0.len(),
        decreases passes - p,
    {
        data = relax_pass(data, size);
        p = p + 1;
    }
    data
}

/// Generates the full voxel buffer: assembles the synthesized field from
/// per-cell occupancy bytes and per-column terrain heights, then runs the
/// light-distance solver for `passes` passes.  The result is a pure
/// function of the arguments, so identical inputs always give a
/// byte-identical buffer.
pub fn generate(occ: &Vec<u8>, heights: &Vec<u32>, size: u32, passes: u32) -> (out: Vec<u8>)
    requires
        1 <= size,
        (size as int) * (size as int) * (size as int) <= 0xFFFF_FFFF,
        occ@.len() == cube(size as int),
        heights@.len() == (size as int) * (size as int),
        2 * cube(size as int) <= usize::MAX,
    ensures
        out@ == solve_spec(
            field_spec(occ@, heights@, size as int),
            size as int,
            passes as nat,
        ),
        out@.len() == 2 * cube(size as int),
{
    let data = crate::field::build_voxels(occ, heights, size);
    solve_light(data, size, passes)
}

} // verus!
