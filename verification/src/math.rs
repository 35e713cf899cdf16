//! Integer vector arithmetic for voxel and chunk coordinates.
//!
//! A voxel position is split into a chunk coordinate (the position of the
//! containing brick, one eighth of the voxel coordinate rounded toward
//! negative infinity) and a local offset inside the brick (the remainder,
//! always in `0..8`).

use vstd::arithmetic::div_mod::{
    lemma_div_is_ordered, lemma_fundamental_div_mod, lemma_fundamental_div_mod_converse,
};
use vstd::prelude::*;

verus! {

/// A three-dimensional integer vector.
#[derive(Clone, Copy, PartialEq, Eq, Structural, Debug)]
pub struct Vec3i {
    pub x: i32,
    pub y: i32,
    pub z: i32,
}

impl Vec3i {
    pub fn new(x: i32, y: i32, z: i32) -> (v: Vec3i)
        ensures
            v == (Vec3i { x, y, z }),
    {
        Vec3i { x, y, z }
    }

    /// The chunk holding this voxel position, each axis rounded toward
    /// negative infinity.
    pub open spec fn spec_chunk(self) -> Vec3i {
        Vec3i {
            x: chunk_axis_spec(self.x as int) as i32,
            y: chunk_axis_spec(self.y as int) as i32,
            z: chunk_axis_spec(self.z as int) as i32,
        }
    }

    /// The offset of this voxel position inside its chunk, each axis in
    /// `0..8`.
    pub open spec fn spec_local(self) -> Vec3i {
        Vec3i {
            x: ((self.x as int) % 8) as i32,
            y: ((self.y as int) % 8) as i32,
            z: ((self.z as int) % 8) as i32,
        }
    }

    /// Computes the chunk coordinate of this voxel position.
    pub fn chunk(self) -> (c: Vec3i)
        ensures
            c == self.spec_chunk(),
    {
        Vec3i { x: chunk_axis(self.x), y: chunk_axis(self.y), z: chunk_axis(self.z) }
    }

    /// Computes the local offset of this voxel position inside its chunk.
    pub fn local(self) -> (l: Vec3i)
        ensures
            l == self.spec_local(),
    {
        Vec3i { x: local_axis(self.x), y: local_axis(self.y), z: local_axis(self.z) }
    }
}

/// Floor of `x / 8`: the chunk coordinate along one axis.
pub open spec fn chunk_axis_spec(x: int) -> int {
    x / 8
}

/// The chunk coordinate of any representable voxel coordinate stays well
/// inside the representable range.
pub proof fn lemma_chunk_axis_bounds(x: int)
    requires
        -0x8000_0000 <= x <= 0x7FFF_FFFF,
    ensures
        -0x1000_0000 <= chunk_axis_spec(x) <= 0x0FFF_FFFF,
{
    lemma_div_is_ordered(-0x8000_0000, x, 8);
    lemma_div_is_ordered(x, 0x7FFF_FFFF, 8);
    lemma_fundamental_div_mod_converse(-0x8000_0000, 8, -0x1000_0000, 0);
    lemma_fundamental_div_mod_converse(0x7FFF_FFFF, 8, 0x0FFF_FFFF, 7);
}

/// Computes the chunk coordinate along one axis, rounding toward negative
/// infinity.
pub fn chunk_axis(x: i32) -> (r: i32)
    ensures
        r as int == chunk_axis_spec(x as int),
        -0x1000_0000 <= r <= 0x0FFF_FFFF,
{
    proof {
        lemma_chunk_axis_bounds(x as int);
    }
    if x >= 0 {
        let q: u32 = (x as u32) / 8;
        proof {
            lemma_fundamental_div_mod_converse(x as int, 8, q as int, (x as u32) as int % 8);
        }
        q as i32
    } else {
        let m: u64 = (-(x as i64)) as u64;
        let q: u64 = (m + 7) / 8;
        proof {
            let s = (m + 7) as int % 8;
            lemma_fundamental_div_mod((m + 7) as int, 8);
            lemma_fundamental_div_mod_converse(x as int, 8, -(q as int), 7 - s);
        }
        (-(q as i64)) as i32
    }
}

/// Computes the local offset along one axis, always in `0..8`.
pub fn local_axis(x: i32) -> (r: i32)
    ensures
        r as int == (x as int) % 8,
        0 <= r < 8,
{
    let c: i32 = chunk_axis(x);
    proof {
        lemma_fundamental_div_mod(x as int, 8);
    }
    ((x as i64) - 8 * (c as i64)) as i32
}

} // verus!
