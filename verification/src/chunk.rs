//! A 64x64 block of cells with a double buffer.
//!
//! `read` is the state every neighbor sees during a sub-step; `write` is the
//! destination buffer the sub-step fills. `push_writes` publishes `write`
//! into `read` between phases. The `neighbors` flags record, per direction,
//! whether an adjacent chunk is resident; the map keeps them consistent.
//! The sub-step pass itself crosses chunk boundaries, so it lives with the
//! map in `chunk_map`, against the model in `engine`.

use vstd::prelude::*;
use crate::cell::{
    Cell, DynamicCell, PackedCell, StaticCell, MAX_RESTITUTION, MAX_SPEED, spec_gravity_cell,
    spec_none, spec_pack_cell, spec_pack_dynamic, spec_pack_static,
};
use crate::rng::random_in_range;
use crate::Dir;
use crate::I8Vec2;
use crate::IVec2;

verus! {

/// Side length of a chunk, in cells.
pub const LEN: i32 = 64;

/// Number of cells in a chunk.
pub const AREA: usize = 4096;

/// A square block of cells plus its neighbor-presence flags.
pub struct Chunk {
    pub read: Vec<PackedCell>,
    pub write: Vec<PackedCell>,
    pub neighbors: Vec<bool>,
}

/// Linear index of a local position.
pub open spec fn spec_lin(x: int, y: int) -> int {
    y * 64 + x
}

pub fn linearize(x: usize, y: usize) -> (i: usize)
    requires
        x < 64,
        y < 64,
    ensures
        i == spec_lin(x as int, y as int),
        i < 4096,
{
    y * 64 + x
}

pub fn delinearize(i: usize) -> (p: (usize, usize))
    requires
        i < 4096,
    ensures
        p.0 == i % 64,
        p.1 == i / 64,
        p.0 < 64,
        p.1 < 64,
        spec_lin(p.0 as int, p.1 as int) == i,
{
    (i % 64, i / 64)
}

/// The positions of the occupied cells among the first `k` slots, in slot
/// order.
pub open spec fn spec_occupied_upto(read: Seq<PackedCell>, k: int) -> Seq<IVec2>
    decreases k,
{
    if k <= 0 {
        Seq::empty()
    } else {
        let pre = spec_occupied_upto(read, k - 1);
        if read[k - 1].spec_unpack() is Some {
            pre.push(IVec2 { x: ((k - 1) % 64) as i32, y: ((k - 1) / 64) as i32 })
        } else {
            pre
        }
    }
}

/// The positions of all occupied cells of a chunk-sized buffer.
pub open spec fn spec_occupied(read: Seq<PackedCell>) -> Seq<IVec2> {
    spec_occupied_upto(read, 4096)
}

/// Occupied positions lie within the chunk.
pub proof fn lemma_occupied_bounds(read: Seq<PackedCell>, k: int)
    requires
        k <= 4096,
    ensures
        forall|t: int|
            0 <= t < spec_occupied_upto(read, k).len() ==> 0 <= (#[trigger] spec_occupied_upto(
                read,
                k,
            )[t]).x < 64 && 0 <= spec_occupied_upto(read, k)[t].y < 64,
    decreases k,
{
    if k > 0 {
        lemma_occupied_bounds(read, k - 1);
        assert(0 <= (k - 1) % 64 < 64);
        assert(0 <= (k - 1) / 64 < 64) by (nonlinear_arith)
            requires
                0 <= k - 1 < 4096,
        ;
        let pre = spec_occupied_upto(read, k - 1);
        let cur = spec_occupied_upto(read, k);
        assert forall|t: int| 0 <= t < cur.len() implies 0 <= (#[trigger] cur[t]).x < 64 && 0
            <= cur[t].y < 64 by {
            if t < pre.len() {
                assert(cur[t] == pre[t]);
            }
        }
    }
}

impl Chunk {
    pub open spec fn wf(self) -> bool {
        &&& self.read@.len() == 4096
        &&& self.write@.len() == 4096
        &&& self.neighbors@.len() == 8
    }

    /// A chunk of empty cells with no neighbors.
    pub fn empty() -> (c: Chunk)
        ensures
            c.wf(),
            forall|i: int| 0 <= i < 4096 ==> c.read@[i] == spec_none(),
            forall|i: int| 0 <= i < 4096 ==> c.write@[i] == spec_none(),
            forall|k: int| 0 <= k < 8 ==> !c.neighbors@[k],
    {
        let mut read: Vec<PackedCell> = Vec::new();
        let mut write: Vec<PackedCell> = Vec::new();
        let mut neighbors: Vec<bool> = Vec::new();
        let mut i: usize = 0;
        while i < 4096
            invariant
                i <= 4096,
                read@.len() == i,
                write@.len() == i,
                forall|j: int| 0 <= j < i ==> read@[j] == spec_none(),
                forall|j: int| 0 <= j < i ==> write@[j] == spec_none(),
            decreases 4096 - i,
        {
            read.push(PackedCell::none());
            write.push(PackedCell::none());
            i = i + 1;
        }
        let mut k: usize = 0;
        while k < 8
            invariant
                k <= 8,
                neighbors@.len() == k,
                forall|j: int| 0 <= j < k ==> !neighbors@[j],
            decreases 8 - k,
        {
            neighbors.push(false);
            k = k + 1;
        }
        Chunk { read, write, neighbors }
    }

    /// Publish the write buffer into the read buffer.
    pub fn push_writes(&mut self)
        requires
            old(self).wf(),
        ensures
            final(self).wf(),
            final(self).read@ == old(self).write@,
            final(self).write@ == old(self).write@,
            final(self).neighbors@ == old(self).neighbors@,
    {
        let mut i: usize = 0;
        while i < 4096
            invariant
                i <= 4096,
                self.wf(),
                self.write@ == old(self).write@,
                self.neighbors@ == old(self).neighbors@,
                forall|j: int| 0 <= j < i ==> self.read@[j] == old(self).write@[j],
                forall|j: int| i <= j < 4096 ==> self.read@[j] == old(self).read@[j],
            decreases 4096 - i,
        {
            let v = self.write[i];
            self.read.set(i, v);
            i = i + 1;
        }
        assert(self.read@ =~= old(self).write@);
    }

    /// Apply gravity to every dynamic cell, in both buffers.
    pub fn gravity(&mut self)
        requires
            old(self).wf(),
        ensures
            final(self).wf(),
            final(self).neighbors@ == old(self).neighbors@,
            forall|i: int|
                0 <= i < 4096 ==> final(self).read@[i] == spec_gravity_cell(old(self).read@[i]),
            forall|i: int|
                0 <= i < 4096 ==> final(self).write@[i] == (if old(
                    self,
                ).read@[i].spec_is_dynamic() {
                    spec_gravity_cell(old(self).read@[i])
                } else {
                    old(self).write@[i]
                }),
    {
        let mut i: usize = 0;
        while i < 4096
            invariant
                i <= 4096,
                self.wf(),
                self.neighbors@ == old(self).neighbors@,
                forall|j: int|
                    0 <= j < i ==> self.read@[j] == spec_gravity_cell(old(self).read@[j]),
                forall|j: int|
                    0 <= j < i ==> self.write@[j] == (if old(self).read@[j].spec_is_dynamic() {
                        spec_gravity_cell(old(self).read@[j])
                    } else {
                        old(self).write@[j]
                    }),
                forall|j: int| i <= j < 4096 ==> self.read@[j] == old(self).read@[j],
                forall|j: int| i <= j < 4096 ==> self.write@[j] == old(self).write@[j],
            decreases 4096 - i,
        {
            match self.read[i].unpack() {
                Some(Cell::Dynamic(d)) => {
                    let mut cell = d;
                    cell.gravity();
                    let p = cell.pack();
                    self.read.set(i, p);
                    self.write.set(i, p);
                },
                _ => {},
            }
            i = i + 1;
        }
    }

    /// Record that a neighbor chunk is resident in direction `dir`.
    pub fn add_neighbor(&mut self, dir: Dir)
        requires
            old(self).wf(),
        ensures
            final(self).wf(),
            final(self).neighbors@ == old(self).neighbors@.update(dir.spec_index(), true),
            final(self).read@ == old(self).read@,
            final(self).write@ == old(self).write@,
    {
        let k = dir.index();
        self.neighbors.set(k, true);
    }

    /// Record that the neighbor chunk in direction `dir` is gone.
    pub fn remove_neighbor(&mut self, dir: Dir)
        requires
            old(self).wf(),
        ensures
            final(self).wf(),
            final(self).neighbors@ == old(self).neighbors@.update(dir.spec_index(), false),
            final(self).read@ == old(self).read@,
            final(self).write@ == old(self).write@,
    {
        let k = dir.index();
        self.neighbors.set(k, false);
    }

    /// The local positions of all occupied cells, in slot order.
    pub fn iter_some(&self) -> (r: Vec<IVec2>)
        requires
            self.wf(),
        ensures
            r@ == spec_occupied(self.read@),
    {
        let mut r: Vec<IVec2> = Vec::new();
        let mut i: usize = 0;
        while i < 4096
            invariant
                i <= 4096,
                self.wf(),
                r@ == spec_occupied_upto(self.read@, i as int),
            decreases 4096 - i,
        {
            if self.read[i].is_some() {
                let (x, y) = delinearize(i);
                r.push(IVec2 { x: x as i32, y: y as i32 });
            }
            i = i + 1;
        }
        r
    }

    /// Paint a dynamic cell at a local position, in both buffers. Its mass
    /// and velocity are drawn at random: any mass, any x velocity, an upward
    /// y velocity.
    pub fn set_dynamic(&mut self, x: usize, y: usize)
        requires
            old(self).wf(),
            x < 64,
            y < 64,
        ensures
            final(self).wf(),
            final(self).neighbors@ == old(self).neighbors@,
            exists|d: DynamicCell|
                {
                    &&& d.wf()
                    &&& 1 <= d.velocity.y
                    &&& final(self).read@ == old(self).read@.update(
                        spec_lin(x as int, y as int),
                        #[trigger] spec_pack_dynamic(d),
                    )
                    &&& final(self).write@ == old(self).write@.update(
                        spec_lin(x as int, y as int),
                        spec_pack_dynamic(d),
                    )
                },
    {
        let i = linearize(x, y);
        let mass = random_in_range(1, 4);
        let vx = random_in_range(-MAX_SPEED, MAX_SPEED);
        let vy = random_in_range(1, MAX_SPEED);
        let d = DynamicCell { mass, velocity: I8Vec2 { x: vx, y: vy } };
        let p = d.pack();
        self.write.set(i, p);
        self.read.set(i, p);
    }

    /// Paint a fully reflective static cell at a local position, in both
    /// buffers.
    pub fn set_static(&mut self, x: usize, y: usize)
        requires
            old(self).wf(),
            x < 64,
            y < 64,
        ensures
            final(self).wf(),
            final(self).neighbors@ == old(self).neighbors@,
            final(self).read@ == old(self).read@.update(
                spec_lin(x as int, y as int),
                spec_pack_static(StaticCell { restitution: MAX_RESTITUTION }),
            ),
            final(self).write@ == old(self).write@.update(
                spec_lin(x as int, y as int),
                spec_pack_static(StaticCell { restitution: MAX_RESTITUTION }),
            ),
    {
        let i = linearize(x, y);
        let p = StaticCell { restitution: MAX_RESTITUTION }.pack();
        self.write.set(i, p);
        self.read.set(i, p);
    }

    /// Place a given cell at a local position, in both buffers.
    pub fn set_cell(&mut self, x: usize, y: usize, c: Cell)
        requires
            old(self).wf(),
            x < 64,
            y < 64,
            c.wf(),
        ensures
            final(self).wf(),
            final(self).neighbors@ == old(self).neighbors@,
            final(self).read@ == old(self).read@.update(
                spec_lin(x as int, y as int),
                spec_pack_cell(c),
            ),
            final(self).write@ == old(self).write@.update(
                spec_lin(x as int, y as int),
                spec_pack_cell(c),
            ),
    {
        let i = linearize(x, y);
        let p = match c {
            Cell::Static(s) => s.pack(),
            Cell::Dynamic(d) => d.pack(),
        };
        self.write.set(i, p);
        self.read.set(i, p);
    }

    /// Erase the cell at a local position, in both buffers.
    pub fn set_none(&mut self, x: usize, y: usize)
        requires
            old(self).wf(),
            x < 64,
            y < 64,
        ensures
            final(self).wf(),
            final(self).neighbors@ == old(self).neighbors@,
            final(self).read@ == old(self).read@.update(spec_lin(x as int, y as int), spec_none()),
            final(self).write@ == old(self).write@.update(
                spec_lin(x as int, y as int),
                spec_none(),
            ),
    {
        let i = linearize(x, y);
        let p = PackedCell::none();
        self.write.set(i, p);
        self.read.set(i, p);
    }
}

} // verus!
