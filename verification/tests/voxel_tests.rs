use voxel_field::field::{build_voxels, classify_depth};
use voxel_field::grid::calc_index;
use voxel_field::solver::{generate, relax_pass, solve_light};

fn flat(x: u32, y: u32, z: u32, size: u32) -> usize {
    calc_index(x, y, z, size)
}

#[test]
fn index_formula() {
    assert_eq!(calc_index(0, 0, 0, 4), 0);
    assert_eq!(calc_index(1, 2, 3, 4), 1 + 4 * (2 + 4 * 3));
    assert_eq!(calc_index(3, 3, 3, 4), 63);
    assert_eq!(calc_index(255, 255, 255, 256), 256 * 256 * 256 - 1);
}

#[test]
fn index_bijection_small_cube() {
    // Every coordinate triple of a 4-cube maps to a distinct index in
    // [0, 64), and all 64 indices are hit: the flattening is a bijection.
    let size: u32 = 4;
    let mut seen: Vec<bool> = vec![false; 64];
    for x in 0..size {
        for y in 0..size {
            for z in 0..size {
                let i: usize = calc_index(x, y, z, size);
                assert!(i < 64);
                assert!(!seen[i]);
                seen[i] = true;
            }
        }
    }
    assert!(seen.iter().all(|&b| b));
}

#[test]
fn depth_buckets() {
    // Within one unit of the surface: bucket 0.
    assert_eq!(classify_depth(0, 1), 0);
    assert_eq!(classify_depth(10, 11), 0);
    assert_eq!(classify_depth(200, 150), 0);
    // Within five units: bucket 1.
    assert_eq!(classify_depth(0, 3), 1);
    assert_eq!(classify_depth(10, 15), 1);
    // Deeper: bucket 2.
    assert_eq!(classify_depth(0, 7), 2);
    assert_eq!(classify_depth(10, 16), 2);
}

#[test]
fn build_interleaves_occupancy_and_buckets() {
    let size: u32 = 2;
    // Cell order: x fastest, then y, then z.
    let occ: Vec<u8> = vec![0, 255, 17, 0, 0, 0, 2, 9];
    // Column heights, indexed x + size * z.
    let heights: Vec<u32> = vec![1, 3, 7, 200];
    let data: Vec<u8> = build_voxels(&occ, &heights, size);
    assert_eq!(data.len(), 16);
    for x in 0..size {
        for y in 0..size {
            for z in 0..size {
                let c: usize = flat(x, y, z, size);
                let col: usize = (x + size * z) as usize;
                assert_eq!(data[2 * c], occ[c]);
                if occ[c] == 0 {
                    assert_eq!(data[2 * c + 1], 0);
                } else {
                    assert_eq!(data[2 * c + 1], classify_depth(y, heights[col]));
                }
            }
        }
    }
    // Spot checks: cell (1,0,0) is solid under a surface at height 3 -> bucket 1;
    // cell (0,0,1) is open -> 0; cell (1,1,1) is solid under height 200 -> bucket 2.
    assert_eq!(data[2 * flat(1, 0, 0, size) + 1], 1);
    assert_eq!(data[2 * flat(0, 0, 1, size) + 1], 0);
    assert_eq!(data[2 * flat(1, 1, 1, size) + 1], 2);
}

#[test]
fn single_solid_cell_one_pass() {
    // One solid cell at (2,2,2) in an otherwise open 4-cube, all light
    // bytes zero.  After one pass the six face neighbors are forced to 0
    // by the solid cell, while a cell two steps away with no solid
    // neighbor keeps its own candidate of 1.
    let size: u32 = 4;
    let mut data: Vec<u8> = vec![0u8; 2 * 64];
    data[2 * flat(2, 2, 2, size)] = 1;
    let out: Vec<u8> = solve_light(data, size, 1);
    for (nx, ny, nz) in [
        (3u32, 2u32, 2u32),
        (1, 2, 2),
        (2, 3, 2),
        (2, 1, 2),
        (2, 2, 3),
        (2, 2, 1),
    ] {
        assert_eq!(out[2 * flat(nx, ny, nz, size) + 1], 0);
    }
    // (0,2,2) has no solid neighbor: its candidate stays own + 1 == 1.
    assert_eq!(out[2 * flat(0, 2, 2, size) + 1], 1);
    // The solid cell itself is untouched.
    assert_eq!(out[2 * flat(2, 2, 2, size)], 1);
    assert_eq!(out[2 * flat(2, 2, 2, size) + 1], 0);
}

#[test]
fn boundary_neighbor_clamps_instead_of_wrapping() {
    // A solid cell at the far x edge.  The cell at x = 0 asks for its
    // "x - 1" neighbor; clamping makes it read itself (open), so its light
    // becomes 1.  Toroidal wrapping would have read the solid far cell
    // and forced 0 instead.
    let size: u32 = 4;
    let mut data: Vec<u8> = vec![0u8; 2 * 64];
    data[2 * flat(3, 0, 0, size)] = 200;
    let out: Vec<u8> = relax_pass(data, size);
    assert_eq!(out[2 * flat(0, 0, 0, size) + 1], 1);
    // The cell actually adjacent to the solid one is forced to zero.
    assert_eq!(out[2 * flat(2, 0, 0, size) + 1], 0);
}

#[test]
fn open_cube_light_grows_one_per_pass() {
    // With no solid cell anywhere, every cell's candidate is its own
    // value plus one, so the whole field climbs uniformly: after 16
    // passes every light byte is exactly 16 — the bounded-propagation
    // limit of start + passes.
    let size: u32 = 3;
    let data: Vec<u8> = vec![0u8; 2 * 27];
    let out: Vec<u8> = solve_light(data, size, 16);
    for c in 0..27usize {
        assert_eq!(out[2 * c], 0);
        assert_eq!(out[2 * c + 1], 16);
    }
}

#[test]
fn light_saturates_at_255() {
    // Light bytes near the top of the range stop at 255 instead of
    // wrapping around.
    let size: u32 = 2;
    let mut data: Vec<u8> = vec![0u8; 16];
    for c in 0..8usize {
        data[2 * c + 1] = 250;
    }
    let out: Vec<u8> = solve_light(data, size, 10);
    for c in 0..8usize {
        assert_eq!(out[2 * c + 1], 255);
    }
}

#[test]
fn zero_passes_leave_buffer_unchanged() {
    let size: u32 = 2;
    let mut data: Vec<u8> = vec![0u8; 16];
    data[0] = 9;
    data[3] = 7;
    let before: Vec<u8> = data.clone();
    let out: Vec<u8> = solve_light(data, size, 0);
    assert_eq!(out, before);
}

#[test]
fn generation_is_deterministic() {
    // Identical inputs give byte-identical buffers across independent runs.
    let size: u32 = 4;
    let mut occ: Vec<u8> = vec![0u8; 64];
    for c in 0..64usize {
        occ[c] = if c % 5 == 0 { (40 + c) as u8 } else { 0 };
    }
    let heights: Vec<u32> = (0..16u32).map(|c| 128 + (c * 7) % 30).collect();
    let a: Vec<u8> = generate(&occ, &heights, size, 16);
    let b: Vec<u8> = generate(&occ, &heights, size, 16);
    assert_eq!(a, b);
    assert_eq!(a.len(), 2 * 64);
}

#[test]
fn flat_terrain_column_is_fully_solid() {
    // A height sampler that returns a constant 0 puts the surface at
    // (0.0 * 0.5 + 0.5) * 128 + 128 = 192 world units in every column, so
    // the density at depth y is 192 - y.  With no cave carving the
    // occupancy byte at y = 0 is clamp(192, 0, 1) * 255 = 255: fully
    // solid.  Deep cells sit more than five units under the surface, so
    // every solid cell lands in depth bucket 2.
    let size: u32 = 4;
    let noise_value: f64 = 0.0;
    let height: f64 = (noise_value * 0.5 + 0.5) * 128.0 + 128.0;
    assert_eq!(height, 192.0);
    let height_floor: u32 = height.floor() as u32;
    let mut occ: Vec<u8> = vec![0u8; 64];
    for x in 0..size {
        for y in 0..size {
            for z in 0..size {
                let density: f64 = height - y as f64;
                let byte: u8 = (density.clamp(0.0, 1.0) * 255.0) as u8;
                occ[flat(x, y, z, size)] = byte;
            }
        }
    }
    let heights: Vec<u32> = vec![height_floor; 16];
    let data: Vec<u8> = generate(&occ, &heights, size, 16);
    for c in 0..64usize {
        assert_eq!(data[2 * c], 255);
        assert_eq!(data[2 * c + 1], 2);
    }
}
