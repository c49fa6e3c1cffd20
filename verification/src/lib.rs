//! Reading an engine schematic: a rectangular grid of one-character cells in
//! which numbers are runs of digits and every other non-dot cell is a symbol.
//!
//! The grid is swept with 2×2 and 3×3 windows; every window is turned into a
//! mask of non-dot cells; the masks are grouped per window row, and the
//! pairs of non-dot cells that share a 2×2 window, or the trios around the
//! non-dot centre of a 3×3 window, are collected as grid coordinates.  A
//! number is then read back from the grid by following its run of numeric
//! cells along a row.

pub mod text;
pub mod grid;
pub mod coords;
pub mod sweep;
pub mod trace;
pub mod laws;
pub mod schematic;
