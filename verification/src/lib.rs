//! A hex-grid terrain and pathfinding core: a height-mapped hexagonal tile
//! map, a multi-source flood fill that labels every reachable tile with the
//! direction of its next hop toward the nearest goal, a path reconstructor
//! that follows those labels, and a terrain editor that keeps ground and
//! wall heights consistent.

pub mod consts;
pub mod grid;
pub mod hex;
pub mod map;
pub mod props;
mod rng;
