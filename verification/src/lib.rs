//! An rsync-style binary delta engine: a chunk index of a reference file
//! (weak rolling checksum plus strong digest per block), a greedy sliding
//! window scan that turns a target file into a recipe of literal runs and
//! block references, and a cached replayer that rebuilds the target from
//! the recipe and the reference bytes.

pub mod model;
pub mod weak;
pub mod strong;
pub mod qsync;
pub mod laws;
