//! A procedurally generated volumetric voxel field.
//!
//! The library synthesizes a dense cubic grid of voxels, two bytes per cell
//! (an occupancy/material byte and a light-distance byte), and then runs a
//! bounded iterative flood-fill relaxation that propagates a
//! distance-from-light value across the open cells.  A host application
//! supplies per-cell occupancy values and per-column terrain heights (both
//! derived from noise samplers) and uploads the finished buffer to a
//! renderer.

pub mod field;

pub mod grid;

pub mod solver;
