//! A chunked cellular physics engine on a 2D integer grid.
//!
//! Cells are one byte each (`PackedCell`): empty, static obstacles with a
//! restitution value, or dynamic particles with a mass and a small integer
//! velocity. The world is a sparse map of 64x64 chunks (`ChunkMap`); a tick
//! applies gravity once and then advances the cells in three sub-steps, each
//! of which moves every moving cell by at most one grid position and resolves
//! collisions by a pull/push discipline.

use vstd::prelude::*;

pub mod cell;
pub mod rng;
pub mod chunk;
pub mod engine;
pub mod chunk_map;

verus! {

/// A 2D vector of 32-bit integers: positions, deltas and chunk coordinates.
#[derive(Clone, Copy, PartialEq, Eq, Structural, Debug)]
pub struct IVec2 {
    pub x: i32,
    pub y: i32,
}

/// A 2D vector of 8-bit integers: cell velocities.
#[derive(Clone, Copy, PartialEq, Eq, Structural, Debug)]
pub struct I8Vec2 {
    pub x: i8,
    pub y: i8,
}

/// The eight neighbor directions of a chunk, in the canonical order that
/// indexes the dense neighbor tables.
#[derive(Clone, Copy, PartialEq, Eq, Structural, Debug)]
pub enum Dir {
    Left,
    Right,
    DownLeft,
    Down,
    DownRight,
    UpLeft,
    Up,
    UpRight,
}

impl Dir {
    /// Position of this direction in the canonical order.
    pub open spec fn spec_index(self) -> int {
        match self {
            Dir::Left => 0,
            Dir::Right => 1,
            Dir::DownLeft => 2,
            Dir::Down => 3,
            Dir::DownRight => 4,
            Dir::UpLeft => 5,
            Dir::Up => 6,
            Dir::UpRight => 7,
        }
    }

    pub fn index(self) -> (i: usize)
        ensures
            i == self.spec_index(),
    {
        match self {
            Dir::Left => 0,
            Dir::Right => 1,
            Dir::DownLeft => 2,
            Dir::Down => 3,
            Dir::DownRight => 4,
            Dir::UpLeft => 5,
            Dir::Up => 6,
            Dir::UpRight => 7,
        }
    }

    /// The direction at a given position of the canonical order.
    pub open spec fn spec_from_index(k: int) -> Dir {
        if k == 0 { Dir::Left }
        else if k == 1 { Dir::Right }
        else if k == 2 { Dir::DownLeft }
        else if k == 3 { Dir::Down }
        else if k == 4 { Dir::DownRight }
        else if k == 5 { Dir::UpLeft }
        else if k == 6 { Dir::Up }
        else { Dir::UpRight }
    }

    pub fn from_index(k: usize) -> (d: Dir)
        requires
            k < 8,
        ensures
            d == Dir::spec_from_index(k as int),
            d.spec_index() == k,
    {
        if k == 0 { Dir::Left }
        else if k == 1 { Dir::Right }
        else if k == 2 { Dir::DownLeft }
        else if k == 3 { Dir::Down }
        else if k == 4 { Dir::DownRight }
        else if k == 5 { Dir::UpLeft }
        else if k == 6 { Dir::Up }
        else { Dir::UpRight }
    }

    /// The canonical unit offset of this direction.
    pub open spec fn spec_offset(self) -> (int, int) {
        match self {
            Dir::Left => (-1, 0),
            Dir::Right => (1, 0),
            Dir::DownLeft => (-1, -1),
            Dir::Down => (0, -1),
            Dir::DownRight => (1, -1),
            Dir::UpLeft => (-1, 1),
            Dir::Up => (0, 1),
            Dir::UpRight => (1, 1),
        }
    }

    pub fn offset(self) -> (o: IVec2)
        ensures
            o.x == self.spec_offset().0,
            o.y == self.spec_offset().1,
    {
        match self {
            Dir::Left => IVec2 { x: -1, y: 0 },
            Dir::Right => IVec2 { x: 1, y: 0 },
            Dir::DownLeft => IVec2 { x: -1, y: -1 },
            Dir::Down => IVec2 { x: 0, y: -1 },
            Dir::DownRight => IVec2 { x: 1, y: -1 },
            Dir::UpLeft => IVec2 { x: -1, y: 1 },
            Dir::Up => IVec2 { x: 0, y: 1 },
            Dir::UpRight => IVec2 { x: 1, y: 1 },
        }
    }

    pub open spec fn spec_inverse(self) -> Dir {
        match self {
            Dir::Left => Dir::Right,
            Dir::Right => Dir::Left,
            Dir::Down => Dir::Up,
            Dir::Up => Dir::Down,
            Dir::DownLeft => Dir::UpRight,
            Dir::UpRight => Dir::DownLeft,
            Dir::DownRight => Dir::UpLeft,
            Dir::UpLeft => Dir::DownRight,
        }
    }

    /// The diametrically opposite direction.
    pub fn inverse(self) -> (d: Dir)
        ensures
            d == self.spec_inverse(),
    {
        match self {
            Dir::Left => Dir::Right,
            Dir::Right => Dir::Left,
            Dir::Down => Dir::Up,
            Dir::Up => Dir::Down,
            Dir::DownLeft => Dir::UpRight,
            Dir::UpRight => Dir::DownLeft,
            Dir::DownRight => Dir::UpLeft,
            Dir::UpLeft => Dir::DownRight,
        }
    }

    /// The direction whose offset it is to step from a chunk to the neighbor
    /// that owns a position lying out of bounds by `sx`/`sy` on each axis.
    pub open spec fn spec_from_steps(sx: int, sy: int) -> Dir {
        if sy == 0 {
            if sx < 0 { Dir::Left } else { Dir::Right }
        } else if sy < 0 {
            if sx < 0 { Dir::DownLeft } else if sx == 0 { Dir::Down } else { Dir::DownRight }
        } else {
            if sx < 0 { Dir::UpLeft } else if sx == 0 { Dir::Up } else { Dir::UpRight }
        }
    }
}

/// The inverse really is an involution that mirrors the offset.
pub proof fn lemma_dir_inverse(d: Dir)
    ensures
        d.spec_inverse().spec_inverse() == d,
        d.spec_inverse().spec_offset().0 == -d.spec_offset().0,
        d.spec_inverse().spec_offset().1 == -d.spec_offset().1,
{
}

/// `spec_from_steps` is the inverse of `spec_offset` on the unit offsets.
pub proof fn lemma_dir_from_steps(d: Dir)
    ensures
        Dir::spec_from_steps(d.spec_offset().0, d.spec_offset().1) == d,
{
}

} // verus!
