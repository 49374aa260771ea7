//! Field synthesis: assembling the voxel buffer.
//!
//! Each cell of the cube gets two bytes: an occupancy byte (`0` = open air,
//! anything else = solid, with the magnitude carrying density strength for
//! shading) and a secondary byte.  For a solid cell the secondary byte is a
//! coarse depth bucket telling how far below the terrain surface the cell
//! sits; for an open cell it starts at zero and is later rewritten by the
//! light-distance solver.
//!
//! The occupancy bytes and the per-column terrain heights are produced by
//! the host from its noise samplers; this module only combines them into
//! the interleaved buffer.

use crate::grid::{coord_x, coord_y, coord_z, lemma_index_bounds, lemma_index_of_coords};
use vstd::arithmetic::div_mod::lemma_fundamental_div_mod_converse;
use vstd::prelude::*;

verus! {

/// Number of cells in a cube of side `size`.
pub open spec fn cube(size: int) -> int {
    size * size * size
}

/// Depth bucket of a solid cell at height `y` under a terrain surface at
/// `height`: `0` within one unit of the surface, `1` within five units,
/// `2` deeper down.
pub open spec fn depth_bucket(y: int, height: int) -> u8 {
    if y + 1 >= height {
        0u8
    } else if y + 5 >= height {
        1u8
    } else {
        2u8
    }
}

/// Byte `k` of the synthesized buffer: even bytes carry the occupancy of
/// cell `k / 2`, odd bytes carry that cell's depth bucket if it is solid
/// and zero if it is open.  The height of a cell's column is looked up at
/// `x + size * z`.
pub open spec fn field_byte(occ: Seq<u8>, heights: Seq<u32>, size: int, k: int) -> u8 {
    let c = k / 2;
    if k % 2 == 0 {
        occ[c]
    } else if occ[c] != 0 {
        depth_bucket(
            coord_y(c, size),
            heights[coord_x(c, size) + size * coord_z(c, size)] as int,
        )
    } else {
        0u8
    }
}

/// The full synthesized buffer: `2 * size^3` bytes, occupancy and
/// secondary byte interleaved per cell.
pub open spec fn field_spec(occ: Seq<u8>, heights: Seq<u32>, size: int) -> Seq<u8> {
    Seq::new((2 * cube(size)) as nat, |k: int| field_byte(occ, heights, size, k))
}

/// Synthesis invariant: the occupancy byte of each cell is taken verbatim,
/// an open cell leaves synthesis with a zero secondary byte, and a solid
/// cell carries the depth bucket of its position under its column height.
pub proof fn lemma_field_cell(occ: Seq<u8>, heights: Seq<u32>, size: int, c: int)
    requires
        1 <= size,
        0 <= c < cube(size),
    ensures
        field_spec(occ, heights, size)[2 * c] == occ[c],
        occ[c] == 0 ==> field_spec(occ, heights, size)[2 * c + 1] == 0,
        occ[c] != 0 ==> field_spec(occ, heights, size)[2 * c + 1] == depth_bucket(
            coord_y(c, size),
            heights[coord_x(c, size) + size * coord_z(c, size)] as int,
        ),
{
    lemma_fundamental_div_mod_converse(2 * c, 2, c, 0);
    lemma_fundamental_div_mod_converse(2 * c + 1, 2, c, 1);
}

/// Classifies a solid cell's depth below the terrain surface.
pub fn classify_depth(y: u32, height: u32) -> (b: u8)
    requires
        y <= 0xFFFF_FFFA,
    ensures
        b == depth_bucket(y as int, height as int),
{
    if y + 1 >= height {
        0u8
    } else if y + 5 >= height {
        1u8
    } else {
        2u8
    }
}

proof fn lemma_cube_bounds(size: int)
    by (nonlinear_arith)
    requires
        1 <= size,
        size * size * size <= 0xFFFF_FFFF,
    ensures
        size <= size * size,
        size * size <= size * size * size,
        size <= 0xFFFF,
{
}

/// Assembles the interleaved voxel buffer from per-cell occupancy bytes and
/// per-column terrain heights.
pub fn build_voxels(occ: &Vec<u8>, heights: &Vec<u32>, size: u32) -> (out: Vec<u8>)
    requires
        1 <= size,
        (size as int) * (size as int) * (size as int) <= 0xFFFF_FFFF,
        occ@.len() == cube(size as int),
        heights@.len() == (size as int) * (size as int),
        2 * cube(size as int) <= usize::MAX,
    ensures
        out@ == field_spec(occ@, heights@, size as int),
        out@.len() == 2 * cube(size as int),
{
    proof {
        lemma_cube_bounds(size as int);
    }
    let total: u32 = size * size * size;
    let mut out: Vec<u8> = Vec::new();
    let mut c: u32 = 0;
    while c < total
        invariant
            1 <= size,
            (size as int) * (size as int) * (size as int) <= 0xFFFF_FFFF,
            total == cube(size as int),
            occ@.len() == cube(size as int),
            heights@.len() == (size as int) * (size as int),
            c <= total,
            out@.len() == 2 * (c as int),
            forall|k: int|
                0 <= k < 2 * (c as int) ==> out@[k] == field_byte(
                    occ@,
                    heights@,
                    size as int,
                    k,
                ),
        decreases total - c,
    {
        proof {
            lemma_cube_bounds(size as int);
            lemma_index_of_coords(c as int, size as int);
            lemma_index_bounds(0, coord_x(c as int, size as int), coord_z(c as int, size as int),
                size as int);
        }
        let x: u32 = c % size;
        let y: u32 = (c / size) % size;
        let z: u32 = c / (size * size);
        let col: usize = (x + size * z) as usize;
        let o: u8 = occ[c as usize];
        out.push(o);
        let light: u8 = if o != 0 {
            classify_depth(y, heights[col])
        } else {
            0u8
        };
        out.push(light);
        proof {
            lemma_fundamental_div_mod_converse(2 * (c as int), 2, c as int, 0);
            lemma_fundamental_div_mod_converse(2 * (c as int) + 1, 2, c as int, 1);
        }
        c = c + 1;
    }
    proof {
        assert(out@ =~= field_spec(occ@, heights@, size as int));
    }
    out
}

} // verus!
