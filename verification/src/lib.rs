//! Search for the densest binary grid that contains no axis-aligned square
//! whose four corners are all set: the computational core of OEIS A227133.
//!
//! The search is a breadth-first walk over candidate grids by decreasing
//! population, guided by a per-cell usage heatmap and precomputed per-cell
//! dependency maps that make child states cheap to derive.

pub mod catalog;
pub mod hca_utils;
pub mod search;
pub mod square_utils;
pub mod state;
