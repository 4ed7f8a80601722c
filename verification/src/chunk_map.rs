//! The sparse world: a map from chunk coordinate to chunk, the neighbor
//! linkage, and the driver that advances every chunk through the sub-step
//! phases.
//!
//! Chunks are held in a vector of entries; a coordinate is found by scanning,
//! and every resident chunk keeps a flag per direction saying whether its
//! neighbor is resident. One `sub_step` call runs a whole phase over the
//! map: an optional gravity pass, one pass that steps every cell of every
//! chunk against the frozen read state, and one pass that publishes the
//! write buffers. Its contract is the exact functional model in `engine`.

use vstd::prelude::*;
use crate::cell::{Cell, DynamicCell, PackedCell, StaticCell, MAX_RESTITUTION};
use crate::cell::{spec_gravity_cell, spec_none, spec_pack_cell, spec_pack_dynamic, spec_pack_static};
use crate::chunk::{Chunk, delinearize, linearize, spec_occupied};
use crate::engine::{
    find_chunk, find_from, grav_all, inv_writes, lin64, resolve, run_steps, spec_pulled,
    spec_substep, step_effect, upd, wrap64, wf_bufs, lemma_find_chunk, lemma_find_from,
    lemma_find_from_present, lemma_step_effect_preserves,
};
use crate::Dir;
use crate::IVec2;

verus! {

/// Coordinates of resident chunks stay well inside the 32-bit range, so that
/// neighbor coordinates and world positions can be formed without overflow.
pub const COORD_LIMIT: i32 = 33554432;

/// One resident chunk and its coordinate.
pub struct Entry {
    pub x: i32,
    pub y: i32,
    pub chunk: Chunk,
}

/// The sparse map of resident chunks, plus the sub-step counter the tick
/// driver advances.
pub struct ChunkMap {
    pub entries: Vec<Entry>,
    pub counter: u8,
}

/// The chunk coordinates of the entries.
pub open spec fn coords_of(s: Seq<Entry>) -> Seq<(int, int)> {
    Seq::new(s.len(), |j: int| (s[j].x as int, s[j].y as int))
}

/// The read buffers of the entries.
pub open spec fn reads_of(s: Seq<Entry>) -> Seq<Seq<PackedCell>> {
    Seq::new(s.len(), |j: int| s[j].chunk.read@)
}

/// The write buffers of the entries.
pub open spec fn writes_of(s: Seq<Entry>) -> Seq<Seq<PackedCell>> {
    Seq::new(s.len(), |j: int| s[j].chunk.write@)
}

/// The neighbor flags of the entries.
pub open spec fn nbrs_of(s: Seq<Entry>) -> Seq<Seq<bool>> {
    Seq::new(s.len(), |j: int| s[j].chunk.neighbors@)
}

/// View of a coordinate snapshot.
pub open spec fn cv_view(cv: Seq<(i32, i32)>) -> Seq<(int, int)> {
    Seq::new(cv.len(), |j: int| (cv[j].0 as int, cv[j].1 as int))
}

/// View of a read-buffer snapshot.
pub open spec fn deep_view(r: Seq<Vec<PackedCell>>) -> Seq<Seq<PackedCell>> {
    Seq::new(r.len(), |j: int| r[j]@)
}

/// No two entries carry the same coordinate.
pub open spec fn unique_coords(s: Seq<Entry>) -> bool {
    forall|j: int, k: int|
        0 <= j < s.len() && 0 <= k < s.len() && j != k ==> #[trigger] coords_of(s)[j]
            != #[trigger] coords_of(s)[k]
}

/// Read and write buffers agree, as they do between phases.
pub open spec fn bufs_synced(s: Seq<Entry>) -> bool {
    forall|j: int| 0 <= j < s.len() ==> (#[trigger] s[j].chunk).read@ == s[j].chunk.write@
}

/// Every neighbor flag tells exactly whether the adjacent coordinate is
/// resident.
pub open spec fn flags_ok(s: Seq<Entry>) -> bool {
    forall|j: int, k: int|
        0 <= j < s.len() && 0 <= k < 8 ==> (#[trigger] s[j].chunk.neighbors@[k]) == (find_chunk(
            coords_of(s),
            s[j].x + Dir::spec_from_index(k).spec_offset().0,
            s[j].y + Dir::spec_from_index(k).spec_offset().1,
        ) is Some)
}

/// The flag invariant depends only on the coordinates and the flags, so it
/// survives any change that keeps both.
proof fn lemma_flags_from_frame(s0: Seq<Entry>, s1: Seq<Entry>)
    requires
        s0.len() == s1.len(),
        forall|j: int|
            0 <= j < s1.len() ==> (#[trigger] s1[j]).x == s0[j].x && s1[j].y == s0[j].y
                && s1[j].chunk.neighbors@ == s0[j].chunk.neighbors@,
        flags_ok(s0),
    ensures
        flags_ok(s1),
{
    assert(coords_of(s1) =~= coords_of(s0));
    assert forall|j: int, k: int| 0 <= j < s1.len() && 0 <= k < 8 implies (
    #[trigger] s1[j].chunk.neighbors@[k]) == (find_chunk(
        coords_of(s1),
        s1[j].x + Dir::spec_from_index(k).spec_offset().0,
        s1[j].y + Dir::spec_from_index(k).spec_offset().1,
    ) is Some) by {
        assert(s0[j].chunk.neighbors@[k] == (find_chunk(
            coords_of(s0),
            s0[j].x + Dir::spec_from_index(k).spec_offset().0,
            s0[j].y + Dir::spec_from_index(k).spec_offset().1,
        ) is Some));
    }
}

impl ChunkMap {
    /// Structural well-formedness of the entries alone.
    pub open spec fn wf_entries(s: Seq<Entry>) -> bool {
        &&& forall|j: int| 0 <= j < s.len() ==> (#[trigger] s[j].chunk).wf()
        &&& forall|j: int|
            0 <= j < s.len() ==> -COORD_LIMIT <= (#[trigger] s[j].x) < COORD_LIMIT && -COORD_LIMIT
                <= s[j].y < COORD_LIMIT
    }

    /// The full invariant: well-formed chunks at bounded, distinct
    /// coordinates; read and write buffers agree between phases; and every
    /// neighbor flag tells exactly whether the adjacent coordinate is
    /// resident.
    pub open spec fn wf(self) -> bool {
        let s = self.entries@;
        &&& Self::wf_entries(s)
        &&& unique_coords(s)
        &&& bufs_synced(s)
        &&& flags_ok(s)
        &&& self.counter < 3
    }

    /// An empty world.
    pub fn new() -> (m: ChunkMap)
        ensures
            m.wf(),
            m.entries@.len() == 0,
            m.counter == 0,
    {
        ChunkMap { entries: Vec::new(), counter: 0 }
    }
}

/// Everything but the write buffers agrees between two entry states.
pub open spec fn same_frame(a: Seq<Entry>, b: Seq<Entry>) -> bool {
    &&& a.len() == b.len()
    &&& forall|j: int|
        0 <= j < a.len() ==> {
            let ea = #[trigger] a[j];
            let eb = b[j];
            ea.x == eb.x && ea.y == eb.y && ea.chunk.read@ == eb.chunk.read@
                && ea.chunk.neighbors@ == eb.chunk.neighbors@
        }
}

impl ChunkMap {
    /// Advance the whole map through one sub-step phase: a gravity pass when
    /// `n` is 0, then one pull/push step of every cell of every chunk
    /// against the frozen read state, then the write buffers published into
    /// the read buffers. The resulting buffers are exactly the `engine`
    /// model's.
    #[verifier::rlimit(100)]
    pub fn sub_step(&mut self, n: u8)
        requires
            old(self).wf(),
            n < 3,
        ensures
            final(self).wf(),
            final(self).counter == old(self).counter,
            final(self).entries@.len() == old(self).entries@.len(),
            coords_of(final(self).entries@) == coords_of(old(self).entries@),
            nbrs_of(final(self).entries@) == nbrs_of(old(self).entries@),
            reads_of(final(self).entries@) == spec_substep(
                coords_of(old(self).entries@),
                reads_of(old(self).entries@),
                n as int,
            ),
            writes_of(final(self).entries@) == reads_of(final(self).entries@),
    {
        let ghost s0 = old(self).entries@;
        let ghost coords = coords_of(s0);
        let ghost r_old = reads_of(s0);
        let ghost r0 = if n == 0 {
            grav_all(r_old)
        } else {
            r_old
        };
        let len = self.entries.len();

        // gravity pass
        if n == 0 {
            let mut j: usize = 0;
            while j < len
                invariant
                    j <= len,
                    len == self.entries@.len(),
                    self.counter == old(self).counter,
                    len == s0.len(),
                    ChunkMap::wf_entries(s0),
                    forall|jj: int| 0 <= jj < s0.len() ==> (#[trigger] s0[jj].chunk).read@
                        == s0[jj].chunk.write@,
                    forall|jj: int| j <= jj < len ==> #[trigger] self.entries@[jj] == s0[jj],
                    forall|jj: int|
                        0 <= jj < len ==> {
                            let ne = #[trigger] self.entries@[jj];
                            ne.x == s0[jj].x && ne.y == s0[jj].y && ne.chunk.neighbors@
                                == s0[jj].chunk.neighbors@ && ne.chunk.wf()
                        },
                    forall|jj: int, ii: int|
                        0 <= jj < j && 0 <= ii < 4096 ==> (#[trigger] self.entries@[jj].chunk.read@[ii])
                            == spec_gravity_cell(s0[jj].chunk.read@[ii]),
                    forall|jj: int| 0 <= jj < j ==> (#[trigger] self.entries@[jj].chunk).read@
                        == self.entries@[jj].chunk.write@,
                decreases len - j,
            {
                let e = &mut self.entries[j];
                e.chunk.gravity();
                proof {
                    assert(self.entries@[j as int].chunk.read@ =~= self.entries@[
                        j as int
                    ].chunk.write@);
                }
                j = j + 1;
            }
        }

        // the read state every chunk sees during this pass
        proof {
            assert forall|jj: int| 0 <= jj < len implies (#[trigger] self.entries@[jj].chunk.read@)
                =~= r0[jj] by {
                if n != 0 {
                    assert(r0[jj] == s0[jj].chunk.read@);
                }
            }
            assert(reads_of(self.entries@) =~~= r0);
            assert(writes_of(self.entries@) =~~= r0);
        }

        let ghost s1 = self.entries@;

        // snapshot of the frozen coordinates and read buffers
        let mut cvv: Vec<(i32, i32)> = Vec::new();
        let mut rds: Vec<Vec<PackedCell>> = Vec::new();
        let mut j: usize = 0;
        while j < len
            invariant
                j <= len,
                self.entries@ == s1,
                self.counter == old(self).counter,
                len == s1.len(),
                cvv@.len() == j,
                rds@.len() == j,
                forall|jj: int|
                    0 <= jj < j ==> (#[trigger] cvv@[jj]).0 == s1[jj].x && cvv@[jj].1 == s1[jj].y,
                forall|jj: int| 0 <= jj < j ==> (#[trigger] rds@[jj])@ == s1[jj].chunk.read@,
            decreases len - j,
        {
            let e = &self.entries[j];
            cvv.push((e.x, e.y));
            let row = copy_cells(&e.chunk.read);
            rds.push(row);
            j = j + 1;
        }
        proof {
            assert forall|jj: int| 0 <= jj < len implies #[trigger] cv_view(cvv@)[jj] == coords[jj] by {
                assert(s1[jj].x == s0[jj].x && s1[jj].y == s0[jj].y);
            }
            assert(cv_view(cvv@) =~= coords);
            assert forall|jj: int| 0 <= jj < len implies #[trigger] deep_view(rds@)[jj] == r0[jj] by {
                assert(rds@[jj]@ == s1[jj].chunk.read@);
                assert(reads_of(s1)[jj] == s1[jj].chunk.read@);
            }
            assert(deep_view(rds@) =~= r0);
            assert(wf_bufs(r0, len as int));
            assert(inv_writes(r0, writes_of(self.entries@), len as int));
        }

        // the pass itself: one step per cell, in slot order chunk by chunk
        let mut ci: usize = 0;
        while ci < len
            invariant
                ci <= len,
                n < 3,
                self.counter == old(self).counter,
                len == self.entries@.len(),
                len == coords.len(),
                cvv@.len() == len,
                rds@.len() == len,
                cv_view(cvv@) == coords,
                deep_view(rds@) == r0,
                forall|jj: int| 0 <= jj < len ==> (#[trigger] rds@[jj])@.len() == 4096,
                wf_bufs(r0, len as int),
                same_frame(self.entries@, s1),
                forall|jj: int| 0 <= jj < len ==> (#[trigger] self.entries@[jj].chunk).wf(),
                writes_of(self.entries@) == run_steps(coords, r0, r0, n as int, ci as int * 4096),
                inv_writes(r0, writes_of(self.entries@), len as int),
            decreases len - ci,
        {
            let mut i: usize = 0;
            while i < 4096
                invariant
                    i <= 4096,
                    ci < len,
                    n < 3,
                    self.counter == old(self).counter,
                    len == self.entries@.len(),
                    len == coords.len(),
                    cvv@.len() == len,
                    rds@.len() == len,
                    cv_view(cvv@) == coords,
                    deep_view(rds@) == r0,
                    forall|jj: int| 0 <= jj < len ==> (#[trigger] rds@[jj])@.len() == 4096,
                    wf_bufs(r0, len as int),
                    same_frame(self.entries@, s1),
                    forall|jj: int| 0 <= jj < len ==> (#[trigger] self.entries@[jj].chunk).wf(),
                    writes_of(self.entries@) == run_steps(
                        coords,
                        r0,
                        r0,
                        n as int,
                        ci as int * 4096 + i as int,
                    ),
                    inv_writes(r0, writes_of(self.entries@), len as int),
                decreases 4096 - i,
            {
                proof {
                    let t = ci as int * 4096 + i as int;
                    lemma_step_effect_preserves(coords, r0, run_steps(coords, r0, r0, n as int, t), ci as int, i as int, n as int);
                }
                let ghost pre = self.entries@;
                step_cell(&mut self.entries, &cvv, &rds, ci, i, n);
                proof {
                    assert forall|jj: int|
                        0 <= jj < len implies {
                            let ea = #[trigger] self.entries@[jj];
                            let eb = s1[jj];
                            ea.x == eb.x && ea.y == eb.y && ea.chunk.read@ == eb.chunk.read@
                                && ea.chunk.neighbors@ == eb.chunk.neighbors@
                        } by {
                        assert(pre[jj].x == s1[jj].x && pre[jj].y == s1[jj].y && pre[jj].chunk.read@
                            == s1[jj].chunk.read@ && pre[jj].chunk.neighbors@
                            == s1[jj].chunk.neighbors@);
                    }
                    let t = ci as int * 4096 + i as int;
                    vstd::arithmetic::div_mod::lemma_fundamental_div_mod_converse(
                        t,
                        4096,
                        ci as int,
                        i as int,
                    );
                    assert(run_steps(coords, r0, r0, n as int, t + 1) == step_effect(
                        coords,
                        r0,
                        run_steps(coords, r0, r0, n as int, t),
                        ci as int,
                        i as int,
                        n as int,
                    ));
                }
                i = i + 1;
            }
            ci = ci + 1;
        }
        let ghost wfin = run_steps(coords, r0, r0, n as int, len as int * 4096);
        proof {
            assert(writes_of(self.entries@) == wfin);
        }

        let ghost s2 = self.entries@;

        // publish the writes
        let mut j: usize = 0;
        while j < len
            invariant
                j <= len,
                len == self.entries@.len(),
                self.counter == old(self).counter,
                len == s2.len(),
                same_frame(s2, s1),
                forall|jj: int| 0 <= jj < len ==> (#[trigger] s2[jj].chunk).wf(),
                forall|jj: int| j <= jj < len ==> #[trigger] self.entries@[jj] == s2[jj],
                forall|jj: int|
                    0 <= jj < len ==> {
                        let ne = #[trigger] self.entries@[jj];
                        ne.x == s2[jj].x && ne.y == s2[jj].y && ne.chunk.neighbors@
                            == s2[jj].chunk.neighbors@ && ne.chunk.wf() && ne.chunk.write@
                            == s2[jj].chunk.write@
                    },
                forall|jj: int| 0 <= jj < j ==> (#[trigger] self.entries@[jj].chunk).read@
                    == s2[jj].chunk.write@,
            decreases len - j,
        {
            let e = &mut self.entries[j];
            e.chunk.push_writes();
            j = j + 1;
        }

        proof {
            assert forall|jj: int| 0 <= jj < len implies #[trigger] reads_of(self.entries@)[jj]
                == wfin[jj] by {
                assert(self.entries@[jj].chunk.read@ == s2[jj].chunk.write@);
                assert(writes_of(s2)[jj] == s2[jj].chunk.write@);
            }
            assert(reads_of(self.entries@) =~= wfin);
            assert forall|jj: int| 0 <= jj < len implies #[trigger] writes_of(self.entries@)[jj]
                == wfin[jj] by {
                assert(self.entries@[jj].chunk.write@ == s2[jj].chunk.write@);
            }
            assert(writes_of(self.entries@) =~= wfin);
            assert(coords_of(self.entries@) =~= coords_of(s0));
            assert(nbrs_of(self.entries@) =~= nbrs_of(s0));
            assert(reads_of(self.entries@) == spec_substep(coords, r_old, n as int));

            // the full invariant holds again
            let s = self.entries@;
            assert forall|jj: int| 0 <= jj < s.len() implies (#[trigger] s[jj].chunk).read@
                == s[jj].chunk.write@ by {
                assert(reads_of(s)[jj] == s[jj].chunk.read@);
                assert(writes_of(s)[jj] == s[jj].chunk.write@);
            }
            assert forall|jj: int| 0 <= jj < s.len() implies -COORD_LIMIT <= (#[trigger] s[jj].x)
                < COORD_LIMIT && -COORD_LIMIT <= s[jj].y < COORD_LIMIT by {
                assert(s[jj].x == s2[jj].x && s2[jj].x == s1[jj].x && s1[jj].x == s0[jj].x);
                assert(s[jj].y == s2[jj].y && s2[jj].y == s1[jj].y && s1[jj].y == s0[jj].y);
                assert(ChunkMap::wf_entries(s0));
            }
            assert forall|jj: int, k: int| 0 <= jj < s.len() && 0 <= k < 8 implies (
            #[trigger] s[jj].chunk.neighbors@[k]) == (find_chunk(
                coords_of(s),
                s[jj].x + Dir::spec_from_index(k).spec_offset().0,
                s[jj].y + Dir::spec_from_index(k).spec_offset().1,
            ) is Some) by {
                assert(s[jj].chunk.neighbors@ == s0[jj].chunk.neighbors@);
                assert(s[jj].x == s0[jj].x && s[jj].y == s0[jj].y);
                assert(coords_of(s) == coords_of(s0));
            }
        }
    }
}

impl ChunkMap {
    /// One call of the external driver: advance one sub-step at the current
    /// counter and step the counter round. A full tick is three calls,
    /// gravity running in the first.
    pub fn tick(&mut self)
        requires
            old(self).wf(),
        ensures
            final(self).wf(),
            final(self).counter as int == ((old(self).counter + 1) % 3),
            final(self).entries@.len() == old(self).entries@.len(),
            coords_of(final(self).entries@) == coords_of(old(self).entries@),
            nbrs_of(final(self).entries@) == nbrs_of(old(self).entries@),
            reads_of(final(self).entries@) == spec_substep(
                coords_of(old(self).entries@),
                reads_of(old(self).entries@),
                old(self).counter as int,
            ),
            writes_of(final(self).entries@) == reads_of(final(self).entries@),
    {
        let n = self.counter;
        self.sub_step(n);
        if n >= 2 {
            self.counter = 0;
        } else {
            self.counter = n + 1;
        }
    }

    /// The cell at a world position, or `None` when the position is empty or
    /// its chunk is not resident.
    pub open spec fn spec_get_cell(self, px: int, py: int) -> Option<Cell> {
        match find_chunk(coords_of(self.entries@), px / 64, py / 64) {
            Some(j) => reads_of(self.entries@)[j][lin64(px % 64, py % 64)].spec_unpack(),
            None => None,
        }
    }

    pub fn get_cell(&self, cell_pos: IVec2) -> (c: Option<Cell>)
        requires
            self.wf(),
        ensures
            c == self.spec_get_cell(cell_pos.x as int, cell_pos.y as int),
            c matches Some(cc) ==> cc.wf(),
    {
        let (cx, lx) = floor_div_mod_64(cell_pos.x);
        let (cy, ly) = floor_div_mod_64(cell_pos.y);
        match find_index(&self.entries, cx as i64, cy as i64) {
            Some(j) => {
                proof {
                    lemma_find_chunk(
                        coords_of(self.entries@),
                        cell_pos.x as int / 64,
                        cell_pos.y as int / 64,
                    );
                }
                let i = linearize(lx as usize, ly as usize);
                self.entries[j].chunk.read[i].unpack()
            },
            None => None,
        }
    }

    /// Paint a random dynamic cell at a world position; silently ignored if
    /// its chunk is not resident.
    pub fn set_dynamic(&mut self, cell_pos: IVec2)
        requires
            old(self).wf(),
        ensures
            final(self).wf(),
            final(self).counter == old(self).counter,
            final(self).entries@.len() == old(self).entries@.len(),
            coords_of(final(self).entries@) == coords_of(old(self).entries@),
            nbrs_of(final(self).entries@) == nbrs_of(old(self).entries@),
            (match find_chunk(
                coords_of(old(self).entries@),
                cell_pos.x as int / 64,
                cell_pos.y as int / 64,
            ) {
                None => final(self).entries@ == old(self).entries@,
                Some(j) => exists|d: DynamicCell|
                    {
                        &&& d.wf()
                        &&& 1 <= d.velocity.y
                        &&& reads_of(final(self).entries@) == upd(
                            reads_of(old(self).entries@),
                            j,
                            lin64(cell_pos.x as int % 64, cell_pos.y as int % 64),
                            #[trigger] spec_pack_dynamic(d),
                        )
                        &&& writes_of(final(self).entries@) == reads_of(final(self).entries@)
                    },
            }),
    {
        let ghost s0 = old(self).entries@;
        let (cx, lx) = floor_div_mod_64(cell_pos.x);
        let (cy, ly) = floor_div_mod_64(cell_pos.y);
        match find_index(&self.entries, cx as i64, cy as i64) {
            Some(j) => {
                proof {
                    lemma_find_chunk(coords_of(s0), cell_pos.x as int / 64, cell_pos.y as int / 64);
                }
                let e = &mut self.entries[j];
                e.chunk.set_dynamic(lx as usize, ly as usize);
                proof {
                    lemma_set_frame(s0, self.entries@, j as int);
                    lemma_flags_from_frame(s0, self.entries@);
                    assert(unique_coords(self.entries@)) by {
                        assert(coords_of(self.entries@) == coords_of(s0));
                    }
                }
            },
            None => {},
        }
    }

    /// Paint a fully reflective static cell at a world position; silently
    /// ignored if its chunk is not resident.
    pub fn set_static(&mut self, cell_pos: IVec2)
        requires
            old(self).wf(),
        ensures
            final(self).wf(),
            final(self).counter == old(self).counter,
            final(self).entries@.len() == old(self).entries@.len(),
            coords_of(final(self).entries@) == coords_of(old(self).entries@),
            nbrs_of(final(self).entries@) == nbrs_of(old(self).entries@),
            (match find_chunk(
                coords_of(old(self).entries@),
                cell_pos.x as int / 64,
                cell_pos.y as int / 64,
            ) {
                None => final(self).entries@ == old(self).entries@,
                Some(j) => reads_of(final(self).entries@) == upd(
                    reads_of(old(self).entries@),
                    j,
                    lin64(cell_pos.x as int % 64, cell_pos.y as int % 64),
                    spec_pack_static(StaticCell { restitution: MAX_RESTITUTION }),
                ) && writes_of(final(self).entries@) == reads_of(final(self).entries@),
            }),
    {
        let ghost s0 = old(self).entries@;
        let (cx, lx) = floor_div_mod_64(cell_pos.x);
        let (cy, ly) = floor_div_mod_64(cell_pos.y);
        match find_index(&self.entries, cx as i64, cy as i64) {
            Some(j) => {
                proof {
                    lemma_find_chunk(coords_of(s0), cell_pos.x as int / 64, cell_pos.y as int / 64);
                }
                let e = &mut self.entries[j];
                e.chunk.set_static(lx as usize, ly as usize);
                proof {
                    lemma_set_frame(s0, self.entries@, j as int);
                    lemma_flags_from_frame(s0, self.entries@);
                    assert(unique_coords(self.entries@)) by {
                        assert(coords_of(self.entries@) == coords_of(s0));
                    }
                }
            },
            None => {},
        }
    }

    /// Place a given cell at a world position; silently ignored if its chunk
    /// is not resident.
    pub fn set_cell(&mut self, cell_pos: IVec2, c: Cell)
        requires
            old(self).wf(),
            c.wf(),
        ensures
            final(self).wf(),
            final(self).counter == old(self).counter,
            final(self).entries@.len() == old(self).entries@.len(),
            coords_of(final(self).entries@) == coords_of(old(self).entries@),
            nbrs_of(final(self).entries@) == nbrs_of(old(self).entries@),
            (match find_chunk(
                coords_of(old(self).entries@),
                cell_pos.x as int / 64,
                cell_pos.y as int / 64,
            ) {
                None => final(self).entries@ == old(self).entries@,
                Some(j) => reads_of(final(self).entries@) == upd(
                    reads_of(old(self).entries@),
                    j,
                    lin64(cell_pos.x as int % 64, cell_pos.y as int % 64),
                    spec_pack_cell(c),
                ) && writes_of(final(self).entries@) == reads_of(final(self).entries@),
            }),
    {
        let ghost s0 = old(self).entries@;
        let (cx, lx) = floor_div_mod_64(cell_pos.x);
        let (cy, ly) = floor_div_mod_64(cell_pos.y);
        match find_index(&self.entries, cx as i64, cy as i64) {
            Some(j) => {
                proof {
                    lemma_find_chunk(coords_of(s0), cell_pos.x as int / 64, cell_pos.y as int / 64);
                }
                let e = &mut self.entries[j];
                e.chunk.set_cell(lx as usize, ly as usize, c);
                proof {
                    lemma_set_frame(s0, self.entries@, j as int);
                    lemma_flags_from_frame(s0, self.entries@);
                    assert(unique_coords(self.entries@)) by {
                        assert(coords_of(self.entries@) == coords_of(s0));
                    }
                }
            },
            None => {},
        }
    }

    /// Erase the cell at a world position; silently ignored if its chunk is
    /// not resident.
    pub fn set_none(&mut self, cell_pos: IVec2)
        requires
            old(self).wf(),
        ensures
            final(self).wf(),
            final(self).counter == old(self).counter,
            final(self).entries@.len() == old(self).entries@.len(),
            coords_of(final(self).entries@) == coords_of(old(self).entries@),
            nbrs_of(final(self).entries@) == nbrs_of(old(self).entries@),
            (match find_chunk(
                coords_of(old(self).entries@),
                cell_pos.x as int / 64,
                cell_pos.y as int / 64,
            ) {
                None => final(self).entries@ == old(self).entries@,
                Some(j) => reads_of(final(self).entries@) == upd(
                    reads_of(old(self).entries@),
                    j,
                    lin64(cell_pos.x as int % 64, cell_pos.y as int % 64),
                    spec_none(),
                ) && writes_of(final(self).entries@) == reads_of(final(self).entries@),
            }),
    {
        let ghost s0 = old(self).entries@;
        let (cx, lx) = floor_div_mod_64(cell_pos.x);
        let (cy, ly) = floor_div_mod_64(cell_pos.y);
        match find_index(&self.entries, cx as i64, cy as i64) {
            Some(j) => {
                proof {
                    lemma_find_chunk(coords_of(s0), cell_pos.x as int / 64, cell_pos.y as int / 64);
                }
                let e = &mut self.entries[j];
                e.chunk.set_none(lx as usize, ly as usize);
                proof {
                    lemma_set_frame(s0, self.entries@, j as int);
                    lemma_flags_from_frame(s0, self.entries@);
                    assert(unique_coords(self.entries@)) by {
                        assert(coords_of(self.entries@) == coords_of(s0));
                    }
                }
            },
            None => {},
        }
    }
}

/// After replacing one entry's buffers (keeping everything else), the views
/// change only in row `j`, and the full invariant survives whenever the new
/// chunk keeps its buffers in agreement.
proof fn lemma_set_frame(s0: Seq<Entry>, s1: Seq<Entry>, j: int)
    requires
        s0.len() == s1.len(),
        0 <= j < s0.len(),
        forall|jj: int| 0 <= jj < s0.len() && jj != j ==> s1[jj] == s0[jj],
        s1[j].x == s0[j].x,
        s1[j].y == s0[j].y,
        s1[j].chunk.neighbors@ == s0[j].chunk.neighbors@,
    ensures
        coords_of(s1) == coords_of(s0),
        nbrs_of(s1) == nbrs_of(s0),
        forall|jj: int|
            0 <= jj < s0.len() && jj != j ==> reads_of(s1)[jj] == reads_of(s0)[jj] && writes_of(
                s1,
            )[jj] == writes_of(s0)[jj],
        reads_of(s1) == reads_of(s0).update(j, s1[j].chunk.read@),
        writes_of(s1) == writes_of(s0).update(j, s1[j].chunk.write@),
{
    assert(coords_of(s1) =~= coords_of(s0));
    assert(nbrs_of(s1) =~= nbrs_of(s0));
    assert(reads_of(s1) =~= reads_of(s0).update(j, s1[j].chunk.read@));
    assert(writes_of(s1) =~= writes_of(s0).update(j, s1[j].chunk.write@));
}

/// A coordinate is found exactly when some entry carries it.
proof fn lemma_find_iff(coords: Seq<(int, int)>, x: int, y: int)
    ensures
        (find_chunk(coords, x, y) is Some) <==> exists|j: int|
            0 <= j < coords.len() && #[trigger] coords[j] == (x, y),
{
    if find_chunk(coords, x, y) is Some {
        lemma_find_chunk(coords, x, y);
    }
    if exists|j: int| 0 <= j < coords.len() && #[trigger] coords[j] == (x, y) {
        let j = choose|j: int| 0 <= j < coords.len() && #[trigger] coords[j] == (x, y);
        lemma_find_from_present(coords, x, y, 0, j);
    }
}

impl ChunkMap {
    /// Place a fresh chunk at a coordinate, replacing any chunk already
    /// there, and link the neighbor flags on both sides for each of the
    /// eight adjacent chunks.
    pub fn insert(&mut self, k: IVec2, v: Chunk)
        requires
            old(self).wf(),
            v.wf(),
            -COORD_LIMIT <= k.x < COORD_LIMIT,
            -COORD_LIMIT <= k.y < COORD_LIMIT,
            v.read@ == v.write@,
            forall|kk: int| 0 <= kk < 8 ==> !v.neighbors@[kk],
        ensures
            final(self).wf(),
            final(self).counter == old(self).counter,
            (match find_chunk(coords_of(old(self).entries@), k.x as int, k.y as int) {
                Some(j) => {
                    &&& coords_of(final(self).entries@) == coords_of(old(self).entries@)
                    &&& reads_of(final(self).entries@) == reads_of(old(self).entries@).update(
                        j,
                        v.read@,
                    )
                    &&& writes_of(final(self).entries@) == writes_of(old(self).entries@).update(
                        j,
                        v.read@,
                    )
                },
                None => {
                    &&& coords_of(final(self).entries@) == coords_of(old(self).entries@).push(
                        ((k.x as int, k.y as int)),
                    )
                    &&& reads_of(final(self).entries@) == reads_of(old(self).entries@).push(
                        v.read@,
                    )
                    &&& writes_of(final(self).entries@) == writes_of(old(self).entries@).push(
                        v.read@,
                    )
                },
            }),
    {
        let ghost s0 = old(self).entries@;
        let ghost c0 = coords_of(s0);
        let mi: usize;
        match find_index(&self.entries, k.x as i64, k.y as i64) {
            Some(j) => {
                proof {
                    lemma_find_chunk(c0, k.x as int, k.y as int);
                }
                let e = &mut self.entries[j];
                e.chunk = v;
                mi = j;
            },
            None => {
                mi = self.entries.len();
                self.entries.push(Entry { x: k.x, y: k.y, chunk: v });
            },
        }
        let ghost s1 = self.entries@;
        let ghost c1 = coords_of(s1);
        let len = self.entries.len();
        proof {
            assert(c1 =~= (match find_chunk(c0, k.x as int, k.y as int) {
                Some(_) => c0,
                None => c0.push((k.x as int, k.y as int)),
            }));
            assert(reads_of(s1) =~= (match find_chunk(c0, k.x as int, k.y as int) {
                Some(j) => reads_of(s0).update(j, v.read@),
                None => reads_of(s0).push(v.read@),
            }));
            assert(writes_of(s1) =~= (match find_chunk(c0, k.x as int, k.y as int) {
                Some(j) => writes_of(s0).update(j, v.read@),
                None => writes_of(s0).push(v.read@),
            }));
            lemma_find_iff(c0, k.x as int, k.y as int);
            assert forall|j1: int, j2: int|
                0 <= j1 < s1.len() && 0 <= j2 < s1.len() && j1 != j2 implies #[trigger] c1[j1]
                != #[trigger] c1[j2] by {
                if find_chunk(c0, k.x as int, k.y as int) is Some {
                    assert(c1[j1] == coords_of(s0)[j1] && c1[j2] == coords_of(s0)[j2]);
                } else {
                    if j1 < c0.len() && j2 < c0.len() {
                        assert(c1[j1] == coords_of(s0)[j1] && c1[j2] == coords_of(s0)[j2]);
                    } else if j1 == c0.len() {
                        assert(c1[j1] == (k.x as int, k.y as int));
                        assert(c1[j2] == c0[j2]);
                    } else {
                        assert(c1[j2] == (k.x as int, k.y as int));
                        assert(c1[j1] == c0[j1]);
                    }
                }
            }
        }

        // link the neighbor flags
        let mut kk: usize = 0;
        while kk < 8
            invariant
                kk <= 8,
                mi < len,
                len == self.entries@.len(),
                len == s1.len(),
                self.counter == old(self).counter,
                -COORD_LIMIT <= k.x < COORD_LIMIT,
                -COORD_LIMIT <= k.y < COORD_LIMIT,
                s1[mi as int].x == k.x && s1[mi as int].y == k.y,
                coords_of(self.entries@) == c1,
                c1 == coords_of(s1),
                forall|j1: int, j2: int|
                    0 <= j1 < len && 0 <= j2 < len && j1 != j2 ==> #[trigger] c1[j1]
                        != #[trigger] c1[j2],
                ChunkMap::wf_entries(self.entries@),
                forall|jj: int|
                    0 <= jj < len ==> {
                        let ne = #[trigger] self.entries@[jj];
                        ne.x == s1[jj].x && ne.y == s1[jj].y && ne.chunk.read@ == s1[jj].chunk.read@
                            && ne.chunk.write@ == s1[jj].chunk.write@
                    },
                forall|jj: int| 0 <= jj < len ==> (#[trigger] self.entries@[jj].chunk).read@
                    == self.entries@[jj].chunk.write@,
                // the new chunk's flags: decided for the directions done, still
                // clear for the rest
                forall|d: int|
                    0 <= d < kk ==> (#[trigger] self.entries@[mi as int].chunk.neighbors@[d]) == (
                    find_chunk(
                        c1,
                        k.x + Dir::spec_from_index(d).spec_offset().0,
                        k.y + Dir::spec_from_index(d).spec_offset().1,
                    ) is Some),
                forall|d: int|
                    kk <= d < 8 ==> !(#[trigger] self.entries@[mi as int].chunk.neighbors@[d]),
                // every other chunk's flags: turned on toward the new chunk for
                // the directions done, untouched otherwise
                forall|jj: int, d: int|
                    0 <= jj < len && jj != mi && 0 <= d < 8 ==> (
                    #[trigger] self.entries@[jj].chunk.neighbors@[d]) == (if s1[jj].x
                        + Dir::spec_from_index(d).spec_offset().0 == k.x && s1[jj].y
                        + Dir::spec_from_index(d).spec_offset().1 == k.y && Dir::spec_from_index(
                        d,
                    ).spec_inverse().spec_index() < kk {
                        true
                    } else {
                        s1[jj].chunk.neighbors@[d]
                    }),
            decreases 8 - kk,
        {
            let dir = Dir::from_index(kk);
            let o = dir.offset();
            let nx = k.x as i64 + o.x as i64;
            let ny = k.y as i64 + o.y as i64;
            let ghost pre = self.entries@;
            match find_index(&self.entries, nx, ny) {
                Some(j) => {
                    proof {
                        lemma_find_chunk(c1, nx as int, ny as int);
                        assert(c1[j as int] == (nx as int, ny as int));
                        assert(c1[mi as int] == (k.x as int, k.y as int));
                        assert(j != mi);
                    }
                    {
                        let e = &mut self.entries[mi];
                        e.chunk.add_neighbor(dir);
                    }
                    let inv = dir.inverse();
                    {
                        let e = &mut self.entries[j];
                        e.chunk.add_neighbor(inv);
                    }
                    proof {
                        lemma_dir_inverse_index(dir);
                        assert forall|jj: int, d: int|
                            0 <= jj < len && jj != mi && 0 <= d < 8 implies (
                        #[trigger] self.entries@[jj].chunk.neighbors@[d]) == (if s1[jj].x
                            + Dir::spec_from_index(d).spec_offset().0 == k.x && s1[jj].y
                            + Dir::spec_from_index(d).spec_offset().1 == k.y
                            && Dir::spec_from_index(d).spec_inverse().spec_index() < kk + 1 {
                            true
                        } else {
                            s1[jj].chunk.neighbors@[d]
                        }) by {
                            if jj == j && d == inv.spec_index() {
                                assert(Dir::spec_from_index(d) == inv);
                                assert(inv.spec_inverse() == dir);
                                assert(s1[jj].x + inv.spec_offset().0 == k.x && s1[jj].y
                                    + inv.spec_offset().1 == k.y);
                            } else {
                                assert(self.entries@[jj].chunk.neighbors@[d]
                                    == pre[jj].chunk.neighbors@[d]);
                                if s1[jj].x + Dir::spec_from_index(d).spec_offset().0 == k.x && s1[
                                    jj
                                ].y + Dir::spec_from_index(d).spec_offset().1 == k.y {
                                    let dd = Dir::spec_from_index(d);
                                    if dd.spec_inverse().spec_index() == kk {
                                        // then this entry is the one found
                                        assert(dd.spec_inverse() == dir) by {
                                            lemma_index_inverse_unique(dd, dir, kk as int);
                                        }
                                        assert((s1[jj].x as int, s1[jj].y as int) == (
                                        nx as int,
                                        ny as int,
                                        )) by {
                                            crate::lemma_dir_inverse(dd);
                                        }
                                        assert(c1[jj] == (nx as int, ny as int));
                                        assert(jj == j);
                                        assert(d == inv.spec_index());
                                    }
                                }
                            }
                        }
                    }
                },
                None => {
                    proof {
                        assert forall|jj: int, d: int|
                            0 <= jj < len && jj != mi && 0 <= d < 8 implies (
                        #[trigger] self.entries@[jj].chunk.neighbors@[d]) == (if s1[jj].x
                            + Dir::spec_from_index(d).spec_offset().0 == k.x && s1[jj].y
                            + Dir::spec_from_index(d).spec_offset().1 == k.y
                            && Dir::spec_from_index(d).spec_inverse().spec_index() < kk + 1 {
                            true
                        } else {
                            s1[jj].chunk.neighbors@[d]
                        }) by {
                            if s1[jj].x + Dir::spec_from_index(d).spec_offset().0 == k.x && s1[jj].y
                                + Dir::spec_from_index(d).spec_offset().1 == k.y
                                && Dir::spec_from_index(d).spec_inverse().spec_index() == kk {
                                let dd = Dir::spec_from_index(d);
                                assert(dd.spec_inverse() == dir) by {
                                    lemma_index_inverse_unique(dd, dir, kk as int);
                                }
                                assert((s1[jj].x as int, s1[jj].y as int) == (nx as int, ny as int))
                                    by {
                                    crate::lemma_dir_inverse(dd);
                                }
                                lemma_find_from_present(c1, nx as int, ny as int, 0, jj);
                                assert(false);
                            }
                        }
                    }
                },
            }
            kk = kk + 1;
        }

        // the flags now tell exactly what is resident
        proof {
            let s = self.entries@;
            assert forall|jj: int, d: int| 0 <= jj < s.len() && 0 <= d < 8 implies (
            #[trigger] s[jj].chunk.neighbors@[d]) == (find_chunk(
                coords_of(s),
                s[jj].x + Dir::spec_from_index(d).spec_offset().0,
                s[jj].y + Dir::spec_from_index(d).spec_offset().1,
            ) is Some) by {
                let dd = Dir::spec_from_index(d);
                let tx = s[jj].x + dd.spec_offset().0;
                let ty = s[jj].y + dd.spec_offset().1;
                assert(s[jj].x == s1[jj].x && s[jj].y == s1[jj].y);
                if jj == mi {
                } else {
                    assert(dd.spec_inverse().spec_index() < 8) by {
                        lemma_dir_index_bound(dd.spec_inverse());
                    }
                    if tx == k.x && ty == k.y {
                        assert(s[jj].chunk.neighbors@[d]);
                        lemma_find_from_present(c1, k.x as int, k.y as int, 0, mi as int);
                    } else {
                        assert(s[jj].chunk.neighbors@[d] == s1[jj].chunk.neighbors@[d]);
                        assert(s1[jj].chunk.neighbors@[d] == s0[jj].chunk.neighbors@[d]);
                        assert(s0[jj].chunk.neighbors@[d] == (find_chunk(c0, tx as int, ty as int) is Some));
                        lemma_find_iff(c0, tx as int, ty as int);
                        lemma_find_iff(c1, tx as int, ty as int);
                        if find_chunk(c0, tx as int, ty as int) is Some {
                            let w = choose|w: int| 0 <= w < c0.len() && #[trigger] c0[w] == (
                            tx as int,
                            ty as int,
                            );
                            assert(c1[w] == (tx as int, ty as int));
                        }
                        if find_chunk(c1, tx as int, ty as int) is Some {
                            let w = choose|w: int| 0 <= w < c1.len() && #[trigger] c1[w] == (
                            tx as int,
                            ty as int,
                            );
                            assert(w != mi);
                            assert(c0[w] == (tx as int, ty as int));
                        }
                    }
                }
            }
        }
    }
}

impl ChunkMap {
    /// Drop the chunk at a coordinate, clearing the back-flags of its eight
    /// neighbors first; silently ignored if the coordinate is not resident.
    pub fn remove(&mut self, k: IVec2)
        requires
            old(self).wf(),
        ensures
            final(self).wf(),
            final(self).counter == old(self).counter,
            (match find_chunk(coords_of(old(self).entries@), k.x as int, k.y as int) {
                None => final(self).entries@ == old(self).entries@,
                Some(j) => {
                    &&& coords_of(final(self).entries@) == coords_of(old(self).entries@).remove(j)
                    &&& reads_of(final(self).entries@) == reads_of(old(self).entries@).remove(j)
                    &&& writes_of(final(self).entries@) == writes_of(old(self).entries@).remove(j)
                },
            }),
    {
        let ghost s0 = old(self).entries@;
        let ghost c0 = coords_of(s0);
        match find_index(&self.entries, k.x as i64, k.y as i64) {
            None => {},
            Some(mi) => {
                proof {
                    lemma_find_chunk(c0, k.x as int, k.y as int);
                }
                let len = self.entries.len();
                // clear the neighbors' flags toward this chunk
                let mut kk: usize = 0;
                while kk < 8
                    invariant
                        kk <= 8,
                        mi < len,
                        len == self.entries@.len(),
                        len == s0.len(),
                        self.counter == old(self).counter,
                        c0 == coords_of(s0),
                        coords_of(self.entries@) == c0,
                        c0[mi as int] == (k.x as int, k.y as int),
                        ChunkMap::wf_entries(s0),
                        unique_coords(s0),
                        flags_ok(s0),
                        ChunkMap::wf_entries(self.entries@),
                        forall|jj: int|
                            0 <= jj < len ==> {
                                let ne = #[trigger] self.entries@[jj];
                                ne.x == s0[jj].x && ne.y == s0[jj].y && ne.chunk.read@
                                    == s0[jj].chunk.read@ && ne.chunk.write@ == s0[jj].chunk.write@
                            },
                        self.entries@[mi as int].chunk.neighbors@
                            == s0[mi as int].chunk.neighbors@,
                        forall|jj: int, d: int|
                            0 <= jj < len && jj != mi && 0 <= d < 8 ==> (
                            #[trigger] self.entries@[jj].chunk.neighbors@[d]) == (if s0[jj].x
                                + Dir::spec_from_index(d).spec_offset().0 == k.x && s0[jj].y
                                + Dir::spec_from_index(d).spec_offset().1 == k.y
                                && Dir::spec_from_index(d).spec_inverse().spec_index() < kk {
                                false
                            } else {
                                s0[jj].chunk.neighbors@[d]
                            }),
                    decreases 8 - kk,
                {
                    let dir = Dir::from_index(kk);
                    let o = dir.offset();
                    let nx = k.x as i64 + o.x as i64;
                    let ny = k.y as i64 + o.y as i64;
                    let ghost pre = self.entries@;
                    match find_index(&self.entries, nx, ny) {
                        Some(j) => {
                            proof {
                                lemma_find_chunk(c0, nx as int, ny as int);
                                assert(c0[j as int] == (nx as int, ny as int));
                                assert(j != mi);
                            }
                            let inv = dir.inverse();
                            {
                                let e = &mut self.entries[j];
                                e.chunk.remove_neighbor(inv);
                            }
                            proof {
                                assert forall|jj: int, d: int|
                                    0 <= jj < len && jj != mi && 0 <= d < 8 implies (
                                #[trigger] self.entries@[jj].chunk.neighbors@[d]) == (if s0[jj].x
                                    + Dir::spec_from_index(d).spec_offset().0 == k.x && s0[jj].y
                                    + Dir::spec_from_index(d).spec_offset().1 == k.y
                                    && Dir::spec_from_index(d).spec_inverse().spec_index() < kk + 1 {
                                    false
                                } else {
                                    s0[jj].chunk.neighbors@[d]
                                }) by {
                                    if jj == j && d == inv.spec_index() {
                                        assert(Dir::spec_from_index(d) == inv);
                                        assert(inv.spec_inverse() == dir);
                                        assert(s0[jj].x + inv.spec_offset().0 == k.x && s0[jj].y
                                            + inv.spec_offset().1 == k.y);
                                    } else {
                                        assert(self.entries@[jj].chunk.neighbors@[d]
                                            == pre[jj].chunk.neighbors@[d]);
                                        if s0[jj].x + Dir::spec_from_index(d).spec_offset().0
                                            == k.x && s0[jj].y
                                            + Dir::spec_from_index(d).spec_offset().1 == k.y {
                                            let dd = Dir::spec_from_index(d);
                                            if dd.spec_inverse().spec_index() == kk {
                                                assert(dd.spec_inverse() == dir) by {
                                                    lemma_index_inverse_unique(dd, dir, kk as int);
                                                }
                                                assert((s0[jj].x as int, s0[jj].y as int) == (
                                                nx as int,
                                                ny as int,
                                                )) by {
                                                    crate::lemma_dir_inverse(dd);
                                                }
                                                assert(c0[jj] == (nx as int, ny as int));
                                                assert(jj == j);
                                                assert(d == inv.spec_index());
                                            }
                                        }
                                    }
                                }
                            }
                        },
                        None => {
                            proof {
                                assert forall|jj: int, d: int|
                                    0 <= jj < len && jj != mi && 0 <= d < 8 implies (
                                #[trigger] self.entries@[jj].chunk.neighbors@[d]) == (if s0[jj].x
                                    + Dir::spec_from_index(d).spec_offset().0 == k.x && s0[jj].y
                                    + Dir::spec_from_index(d).spec_offset().1 == k.y
                                    && Dir::spec_from_index(d).spec_inverse().spec_index() < kk + 1 {
                                    false
                                } else {
                                    s0[jj].chunk.neighbors@[d]
                                }) by {
                                    if s0[jj].x + Dir::spec_from_index(d).spec_offset().0 == k.x
                                        && s0[jj].y + Dir::spec_from_index(d).spec_offset().1
                                        == k.y && Dir::spec_from_index(
                                        d,
                                    ).spec_inverse().spec_index() == kk {
                                        let dd = Dir::spec_from_index(d);
                                        assert(dd.spec_inverse() == dir) by {
                                            lemma_index_inverse_unique(dd, dir, kk as int);
                                        }
                                        assert((s0[jj].x as int, s0[jj].y as int) == (
                                        nx as int,
                                        ny as int,
                                        )) by {
                                            crate::lemma_dir_inverse(dd);
                                        }
                                        lemma_find_from_present(c0, nx as int, ny as int, 0, jj);
                                        assert(false);
                                    }
                                }
                            }
                        },
                    }
                    kk = kk + 1;
                }

                let ghost s1 = self.entries@;
                self.entries.remove(mi);
                proof {
                    let s = self.entries@;
                    let cm = c0.remove(mi as int);
                    assert(coords_of(s) =~= cm);
                    assert(reads_of(s) =~= reads_of(s0).remove(mi as int));
                    assert(writes_of(s) =~= writes_of(s0).remove(mi as int));
                    assert(ChunkMap::wf_entries(s));
                    assert(unique_coords(s)) by {
                        assert forall|j1: int, j2: int|
                            0 <= j1 < s.len() && 0 <= j2 < s.len() && j1 != j2 implies
                            #[trigger] coords_of(s)[j1] != #[trigger] coords_of(s)[j2] by {
                            let o1 = if j1 < mi { j1 } else { j1 + 1 };
                            let o2 = if j2 < mi { j2 } else { j2 + 1 };
                            assert(coords_of(s)[j1] == c0[o1] && coords_of(s)[j2] == c0[o2]);
                        }
                    }
                    assert(bufs_synced(s));
                    assert forall|jj: int, d: int| 0 <= jj < s.len() && 0 <= d < 8 implies (
                    #[trigger] s[jj].chunk.neighbors@[d]) == (find_chunk(
                        coords_of(s),
                        s[jj].x + Dir::spec_from_index(d).spec_offset().0,
                        s[jj].y + Dir::spec_from_index(d).spec_offset().1,
                    ) is Some) by {
                        let oj = if jj < mi { jj } else { jj + 1 };
                        assert(s[jj] == s1[oj]);
                        assert(oj != mi);
                        let dd = Dir::spec_from_index(d);
                        let tx = s[jj].x + dd.spec_offset().0;
                        let ty = s[jj].y + dd.spec_offset().1;
                        assert(0 <= dd.spec_inverse().spec_index() < 8) by {
                            lemma_dir_index_bound(dd.spec_inverse());
                        }
                        lemma_find_iff(coords_of(s), tx, ty);
                        lemma_find_iff(c0, tx, ty);
                        if tx == k.x && ty == k.y {
                            assert(!s[jj].chunk.neighbors@[d]);
                            if find_chunk(coords_of(s), tx, ty) is Some {
                                let w = choose|w: int|
                                    0 <= w < coords_of(s).len() && #[trigger] coords_of(s)[w] == (
                                    tx,
                                    ty,
                                    );
                                let ow = if w < mi { w } else { w + 1 };
                                assert(c0[ow] == (tx, ty));
                                assert(ow != mi);
                                assert(c0[mi as int] == (tx, ty));
                                assert(false);
                            }
                        } else {
                            assert(s[jj].chunk.neighbors@[d] == s0[oj].chunk.neighbors@[d]);
                            assert(s0[oj].chunk.neighbors@[d] == (find_chunk(c0, tx, ty) is Some));
                            if find_chunk(c0, tx, ty) is Some {
                                let w = choose|w: int|
                                    0 <= w < c0.len() && #[trigger] c0[w] == (tx, ty);
                                assert(w != mi);
                                let nw = if w < mi { w } else { w - 1 };
                                assert(coords_of(s)[nw] == (tx, ty));
                            }
                            if find_chunk(coords_of(s), tx, ty) is Some {
                                let w = choose|w: int|
                                    0 <= w < coords_of(s).len() && #[trigger] coords_of(s)[w] == (
                                    tx,
                                    ty,
                                    );
                                let ow = if w < mi { w } else { w + 1 };
                                assert(c0[ow] == (tx, ty));
                            }
                        }
                    }
                }
            },
        }
    }
}

/// The local occupied positions of one chunk, moved to world space.
pub open spec fn offset_positions(q: Seq<IVec2>, cx: int, cy: int) -> Seq<IVec2> {
    q.map_values(
        |p: IVec2| IVec2 { x: (cx * 64 + p.x) as i32, y: (cy * 64 + p.y) as i32 },
    )
}

/// The world positions of every occupied cell of the first `j` chunks, in
/// entry order and slot order within a chunk.
pub open spec fn world_occupied_upto(s: Seq<Entry>, j: int) -> Seq<IVec2>
    decreases j,
{
    if j <= 0 {
        Seq::empty()
    } else {
        world_occupied_upto(s, j - 1) + offset_positions(
            spec_occupied(s[j - 1].chunk.read@),
            s[j - 1].x as int,
            s[j - 1].y as int,
        )
    }
}

/// The world positions of every occupied cell.
pub open spec fn world_occupied(s: Seq<Entry>) -> Seq<IVec2> {
    world_occupied_upto(s, s.len() as int)
}

impl ChunkMap {
    /// The world positions of every occupied cell, for the renderer.
    pub fn iter_some(&self) -> (r: Vec<IVec2>)
        requires
            self.wf(),
        ensures
            r@ == world_occupied(self.entries@),
    {
        let mut r: Vec<IVec2> = Vec::new();
        let len = self.entries.len();
        let mut j: usize = 0;
        while j < len
            invariant
                j <= len,
                len == self.entries@.len(),
                self.wf(),
                r@ == world_occupied_upto(self.entries@, j as int),
            decreases len - j,
        {
            let e = &self.entries[j];
            let local = e.chunk.iter_some();
            let bx = e.x * 64;
            let by = e.y * 64;
            let ghost q = spec_occupied(e.chunk.read@);
            proof {
                crate::chunk::lemma_occupied_bounds(e.chunk.read@, 4096);
            }
            let tl = local.len();
            let mut t: usize = 0;
            while t < tl
                invariant
                    t <= tl,
                    j < len,
                    len == self.entries@.len(),
                    tl == local@.len(),
                    local@ == q,
                    q == spec_occupied(self.entries@[j as int].chunk.read@),
                    bx as int == self.entries@[j as int].x * 64,
                    by as int == self.entries@[j as int].y * 64,
                    -2147483648 <= bx as int <= 2147483584,
                    -2147483648 <= by as int <= 2147483584,
                    forall|tt: int|
                        0 <= tt < q.len() ==> 0 <= (#[trigger] q[tt]).x < 64 && 0 <= q[tt].y < 64,
                    r@ == world_occupied_upto(self.entries@, j as int) + offset_positions(
                        q.take(t as int),
                        self.entries@[j as int].x as int,
                        self.entries@[j as int].y as int,
                    ),
                decreases tl - t,
            {
                let p = local[t];
                r.push(IVec2 { x: bx + p.x, y: by + p.y });
                proof {
                    let cx = self.entries@[j as int].x as int;
                    let cy = self.entries@[j as int].y as int;
                    assert(q.take(t + 1) =~= q.take(t as int).push(q[t as int]));
                    assert(offset_positions(q.take(t + 1), cx, cy) =~= offset_positions(
                        q.take(t as int),
                        cx,
                        cy,
                    ).push(
                        (IVec2 {
                            x: (cx * 64 + q[t as int].x) as i32,
                            y: (cy * 64 + q[t as int].y) as i32,
                        }),
                    ));
                }
                t = t + 1;
            }
            proof {
                assert(q.take(tl as int) =~= q);
            }
            j = j + 1;
        }
        r
    }
}

/// The index function is injective on directions.
proof fn lemma_index_inverse_unique(a: Dir, b: Dir, k: int)
    requires
        a.spec_inverse().spec_index() == k,
        b.spec_index() == k,
    ensures
        a.spec_inverse() == b,
{
}

/// Every direction's index lies below eight.
proof fn lemma_dir_index_bound(d: Dir)
    ensures
        0 <= d.spec_index() < 8,
{
}

/// Inverting a direction mirrors its index through the inverse map.
proof fn lemma_dir_inverse_index(d: Dir)
    ensures
        d.spec_inverse().spec_inverse() == d,
{
}

/// Scan for the entry carrying a coordinate (given as 64-bit values so that
/// callers can form neighbor coordinates without overflow).
fn find_index(entries: &Vec<Entry>, x: i64, y: i64) -> (r: Option<usize>)
    ensures
        (match r {
            Some(j) => find_chunk(coords_of(entries@), x as int, y as int) == Some(j as int) && j
                < entries@.len(),
            None => find_chunk(coords_of(entries@), x as int, y as int) is None,
        }),
{
    let ghost coords = coords_of(entries@);
    let len = entries.len();
    let mut k: usize = 0;
    while k < len
        invariant
            k <= len,
            len == entries@.len(),
            coords == coords_of(entries@),
            find_from(coords, x as int, y as int, 0) == find_from(coords, x as int, y as int, k as int),
        decreases len - k,
    {
        let e = &entries[k];
        if e.x as i64 == x && e.y as i64 == y {
            proof {
                lemma_find_from(coords, x as int, y as int, k as int);
            }
            return Some(k);
        }
        k = k + 1;
    }
    None
}

/// Replace one write-buffer slot of one entry.
fn put_write(entries: &mut Vec<Entry>, j: usize, p: usize, v: PackedCell)
    requires
        j < old(entries)@.len(),
        p < 4096,
        forall|jj: int| 0 <= jj < old(entries)@.len() ==> (#[trigger] old(entries)@[jj].chunk).wf(),
    ensures
        final(entries)@.len() == old(entries)@.len(),
        writes_of(final(entries)@) =~= upd(writes_of(old(entries)@), j as int, p as int, v),
        forall|jj: int| 0 <= jj < final(entries)@.len() ==> (#[trigger] final(entries)@[jj].chunk).wf(),
        forall|jj: int|
            0 <= jj < old(entries)@.len() ==> {
                let oe = #[trigger] old(entries)@[jj];
                let ne = final(entries)@[jj];
                ne.x == oe.x && ne.y == oe.y && ne.chunk.read@ == oe.chunk.read@
                    && ne.chunk.neighbors@ == oe.chunk.neighbors@
            },
        forall|jj: int|
            0 <= jj < old(entries)@.len() && jj != j ==> #[trigger] final(entries)@[jj].chunk.write@
                == old(entries)@[jj].chunk.write@,
        final(entries)@[j as int].chunk.write@ == old(entries)@[j as int].chunk.write@.update(
            p as int,
            v,
        ),
{
    let e = &mut entries[j];
    e.chunk.write.set(p, v);
}

/// Copy one cell buffer.
fn copy_cells(v: &Vec<PackedCell>) -> (r: Vec<PackedCell>)
    ensures
        r@ == v@,
{
    let mut r: Vec<PackedCell> = Vec::new();
    let mut i: usize = 0;
    let len = v.len();
    while i < len
        invariant
            i <= len,
            len == v@.len(),
            r@ == v@.take(i as int),
        decreases len - i,
    {
        r.push(v[i]);
        i = i + 1;
    }
    assert(v@.take(len as int) =~= v@);
    r
}

/// Scan a coordinate snapshot for a coordinate.
fn find_in_cv(cv: &Vec<(i32, i32)>, x: i64, y: i64) -> (r: Option<usize>)
    ensures
        (match r {
            Some(j) => find_chunk(cv_view(cv@), x as int, y as int) == Some(j as int) && j
                < cv@.len(),
            None => find_chunk(cv_view(cv@), x as int, y as int) is None,
        }),
{
    let ghost coords = cv_view(cv@);
    let len = cv.len();
    let mut k: usize = 0;
    while k < len
        invariant
            k <= len,
            len == cv@.len(),
            coords == cv_view(cv@),
            find_from(coords, x as int, y as int, 0) == find_from(
                coords,
                x as int,
                y as int,
                k as int,
            ),
        decreases len - k,
    {
        let e = cv[k];
        if e.0 as i64 == x && e.1 as i64 == y {
            proof {
                lemma_find_from(coords, x as int, y as int, k as int);
            }
            return Some(k);
        }
        k = k + 1;
    }
    None
}

/// Wrap a local coordinate one step out of bounds back into the chunk.
fn wrap_local(q: i32) -> (w: usize)
    requires
        -64 <= q < 128,
    ensures
        w as int == wrap64(q as int),
        w < 64,
{
    if q < 0 {
        proof {
            vstd::arithmetic::div_mod::lemma_fundamental_div_mod_converse(
                q as int,
                64,
                -1,
                q as int + 64,
            );
        }
        (q + 64) as usize
    } else if q >= 64 {
        proof {
            vstd::arithmetic::div_mod::lemma_fundamental_div_mod_converse(
                q as int,
                64,
                1,
                q as int - 64,
            );
        }
        (q - 64) as usize
    } else {
        proof {
            vstd::arithmetic::div_mod::lemma_fundamental_div_mod_converse(q as int, 64, 0, q as int);
        }
        q as usize
    }
}

/// Resolve a logical local position of chunk `ci`, possibly one step out of
/// bounds, against a coordinate snapshot.
fn resolve_pos(cv: &Vec<(i32, i32)>, ci: usize, qx: i32, qy: i32) -> (r: Option<(usize, usize)>)
    requires
        ci < cv@.len(),
        -64 <= qx < 128,
        -64 <= qy < 128,
    ensures
        (match r {
            Some(jp) => resolve(cv_view(cv@), ci as int, qx as int, qy as int) == Some(
                ((jp.0 as int, jp.1 as int)),
            ) && jp.0 < cv@.len() && jp.1 < 4096,
            None => resolve(cv_view(cv@), ci as int, qx as int, qy as int) is None,
        }),
{
    let sx: i32 = if qx < 0 { -1 } else if qx > 63 { 1 } else { 0 };
    let sy: i32 = if qy < 0 { -1 } else if qy > 63 { 1 } else { 0 };
    if sx == 0 && sy == 0 {
        let p = linearize(qx as usize, qy as usize);
        Some((ci, p))
    } else {
        let c = cv[ci];
        match find_in_cv(cv, c.0 as i64 + sx as i64, c.1 as i64 + sy as i64) {
            Some(j) => {
                let wx = wrap_local(qx);
                let wy = wrap_local(qy);
                let p = linearize(wx, wy);
                Some((j, p))
            },
            None => None,
        }
    }
}

/// The pull phase for one dynamic cell: fold in each neighbor whose sub-step
/// movement lands exactly on this cell.
fn pull_phase(
    cv: &Vec<(i32, i32)>,
    reads: &Vec<Vec<PackedCell>>,
    ci: usize,
    px: usize,
    py: usize,
    n: u8,
    c0: DynamicCell,
) -> (c: DynamicCell)
    requires
        ci < cv@.len(),
        reads@.len() == cv@.len(),
        forall|j: int| 0 <= j < reads@.len() ==> (#[trigger] reads@[j])@.len() == 4096,
        px < 64,
        py < 64,
        n < 3,
        c0.wf(),
    ensures
        c == spec_pulled(
            c0,
            cv_view(cv@),
            deep_view(reads@),
            ci as int,
            px as int,
            py as int,
            n as int,
        ),
        c.wf(),
        c.mass == c0.mass,
{
    let ghost coords = cv_view(cv@);
    let ghost rr = deep_view(reads@);
    let mut c = c0;
    let mut k: usize = 0;
    while k < 8
        invariant
            k <= 8,
            ci < cv@.len(),
            reads@.len() == cv@.len(),
            forall|j: int| 0 <= j < reads@.len() ==> (#[trigger] reads@[j])@.len() == 4096,
            px < 64,
            py < 64,
            n < 3,
            c0.wf(),
            coords == cv_view(cv@),
            rr == deep_view(reads@),
            c == crate::engine::pull_upto(
                c0,
                coords,
                rr,
                ci as int,
                px as int,
                py as int,
                n as int,
                k as int,
            ),
            c.wf(),
            c.mass == c0.mass,
        decreases 8 - k,
    {
        let dir = Dir::from_index(k);
        let o = dir.offset();
        let qx = px as i32 + o.x;
        let qy = py as i32 + o.y;
        match resolve_pos(cv, ci, qx, qy) {
            Some((j, p)) => {
                match reads[j][p].unpack() {
                    Some(Cell::Dynamic(a)) => {
                        let d = a.sub_step_delta(n);
                        if qx + d.x == px as i32 && qy + d.y == py as i32 {
                            c.dynamic_collision(&a, d);
                        }
                    },
                    _ => {},
                }
            },
            None => {},
        }
        k = k + 1;
    }
    c
}

/// Step one cell: the pull phase, the cell's own move, and the arbitrated
/// push into its destination write slot. The effect on the write buffers is
/// exactly `step_effect` of the model.
fn step_cell(
    entries: &mut Vec<Entry>,
    cv: &Vec<(i32, i32)>,
    reads: &Vec<Vec<PackedCell>>,
    ci: usize,
    i: usize,
    n: u8,
)
    requires
        old(entries)@.len() == cv@.len(),
        reads@.len() == cv@.len(),
        forall|j: int| 0 <= j < reads@.len() ==> (#[trigger] reads@[j])@.len() == 4096,
        forall|j: int| 0 <= j < old(entries)@.len() ==> (#[trigger] old(entries)@[j].chunk).wf(),
        ci < cv@.len(),
        i < 4096,
        n < 3,
        inv_writes(deep_view(reads@), writes_of(old(entries)@), cv@.len() as int),
    ensures
        final(entries)@.len() == old(entries)@.len(),
        writes_of(final(entries)@) == step_effect(
            cv_view(cv@),
            deep_view(reads@),
            writes_of(old(entries)@),
            ci as int,
            i as int,
            n as int,
        ),
        forall|jj: int|
            0 <= jj < old(entries)@.len() ==> {
                let oe = #[trigger] old(entries)@[jj];
                let ne = final(entries)@[jj];
                ne.x == oe.x && ne.y == oe.y && ne.chunk.read@ == oe.chunk.read@
                    && ne.chunk.neighbors@ == oe.chunk.neighbors@
            },
        forall|jj: int| 0 <= jj < final(entries)@.len() ==> (#[trigger] final(entries)@[jj].chunk).wf(),
{
    let ghost coords = cv_view(cv@);
    let ghost rr = deep_view(reads@);
    let ghost w0 = writes_of(old(entries)@);
    let b = reads[ci][i];
    match b.unpack() {
        Some(Cell::Dynamic(c0)) => {
            let (px, py) = delinearize(i);
            let mut c = pull_phase(cv, reads, ci, px, py, n, c0);
            let d = c.sub_step_delta(n);
            if d.x == 0 && d.y == 0 {
                put_write(entries, ci, i, c.pack());
                assert(writes_of(entries@) =~= step_effect(
                    coords,
                    rr,
                    w0,
                    ci as int,
                    i as int,
                    n as int,
                ));
            } else {
                let qx = px as i32 + d.x;
                let qy = py as i32 + d.y;
                match resolve_pos(cv, ci, qx, qy) {
                    None => {
                        c.static_collision(&StaticCell { restitution: MAX_RESTITUTION }, d);
                        put_write(entries, ci, i, c.pack());
                        assert(writes_of(entries@) =~= step_effect(
                            coords,
                            rr,
                            w0,
                            ci as int,
                            i as int,
                            n as int,
                        ));
                    },
                    Some((dj, di)) => {
                        match reads[dj][di].unpack() {
                            Some(Cell::Static(s)) => {
                                c.static_collision(&s, d);
                                put_write(entries, ci, i, c.pack());
                                assert(writes_of(entries@) =~= step_effect(
                                    coords,
                                    rr,
                                    w0,
                                    ci as int,
                                    i as int,
                                    n as int,
                                ));
                            },
                            Some(Cell::Dynamic(a)) => {
                                c.dynamic_collision(&a, d);
                                put_write(entries, ci, i, c.pack());
                                assert(writes_of(entries@) =~= step_effect(
                                    coords,
                                    rr,
                                    w0,
                                    ci as int,
                                    i as int,
                                    n as int,
                                ));
                            },
                            None => {
                                let occ = entries[dj].chunk.write[di];
                                assert(occ == w0[dj as int][di as int]);
                                match occ.unpack() {
                                    None => {
                                        put_write(entries, dj, di, c.pack());
                                        put_write(entries, ci, i, PackedCell::none());
                                        assert(writes_of(entries@) =~= step_effect(
                                            coords,
                                            rr,
                                            w0,
                                            ci as int,
                                            i as int,
                                            n as int,
                                        ));
                                    },
                                    Some(Cell::Dynamic(mut a)) => {
                                        c.two_way_dynamic_collision(&mut a, d);
                                        put_write(entries, dj, di, a.pack());
                                        put_write(entries, ci, i, c.pack());
                                        assert(writes_of(entries@) =~= step_effect(
                                            coords,
                                            rr,
                                            w0,
                                            ci as int,
                                            i as int,
                                            n as int,
                                        ));
                                    },
                                    Some(Cell::Static(_)) => {
                                        // ruled out by inv_writes: the slot was
                                        // empty in the read state, so a static
                                        // occupant would have to stand in the
                                        // read state too
                                        assert(false);
                                    },
                                }
                            },
                        }
                    },
                }
            }
        },
        _ => {
            assert(writes_of(entries@) =~= step_effect(
                coords,
                rr,
                w0,
                ci as int,
                i as int,
                n as int,
            ));
        },
    }
}

/// Euclidean division of a world coordinate by the chunk side: the chunk
/// coordinate and the local position within it.
fn floor_div_mod_64(v: i32) -> (qr: (i32, i32))
    ensures
        qr.0 == (v as int) / 64,
        qr.1 == (v as int) % 64,
        0 <= qr.1 < 64,
        v as int == 64 * (qr.0 as int) + qr.1 as int,
        -COORD_LIMIT <= qr.0 < COORD_LIMIT,
{
    let u = (v as i64 + 0x8000_0000) as u64;
    let q = u / 64;
    let r = u % 64;
    let qo = (q as i64 - 33554432) as i32;
    proof {
        assert(u == 64 * (u / 64) + u % 64) by (nonlinear_arith);
        assert(v as int == 64 * (qo as int) + r as int);
        assert((v as int) % 64 == r as int && (v as int) / 64 == qo as int) by {
            vstd::arithmetic::div_mod::lemma_fundamental_div_mod_converse(
                v as int,
                64,
                qo as int,
                r as int,
            );
        };
    }
    (qo, r as i32)
}

} // verus!
