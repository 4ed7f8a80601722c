//! The mathematical model of one sub-step pass.
//!
//! A pass works on the whole map at once: `coords` lists the resident chunk
//! coordinates, `reads` the frozen read buffers, and the write buffers evolve
//! cell by cell, chunk by chunk, in slot order. `step_effect` gives the exact
//! effect of processing one cell; `run_steps` folds it over every cell of
//! every chunk; `spec_substep` adds the gravity pass and gives the state the
//! map publishes at the end of the phase.

use vstd::prelude::*;
use crate::cell::{
    Cell, DynamicCell, PackedCell, StaticCell, spec_gravity_cell, spec_none, spec_pack_dynamic,
    spec_axis_delta, spec_two_way,
};
use crate::Dir;

verus! {

/// Linear slot index of a local position.
pub open spec fn lin64(x: int, y: int) -> int {
    y * 64 + x
}

/// Local coordinate wrapped into the chunk, as the engine's index wrapping
/// does for positions one step out of bounds.
pub open spec fn wrap64(v: int) -> int {
    v % 64
}

/// Which side of the chunk a local coordinate falls out on: -1 below, 1
/// above, 0 within.
pub open spec fn axis_off(v: int) -> int {
    if v < 0 { -1 } else if v > 63 { 1 } else { 0 }
}

/// The first chunk listed at a coordinate, scanning from position `k`.
pub open spec fn find_from(coords: Seq<(int, int)>, x: int, y: int, k: int) -> Option<int>
    decreases coords.len() - k,
{
    if k < 0 || k >= coords.len() {
        None
    } else if coords[k] == (x, y) {
        Some(k)
    } else {
        find_from(coords, x, y, k + 1)
    }
}

/// The chunk listed at a coordinate, if any.
pub open spec fn find_chunk(coords: Seq<(int, int)>, x: int, y: int) -> Option<int> {
    find_from(coords, x, y, 0)
}

pub proof fn lemma_find_from(coords: Seq<(int, int)>, x: int, y: int, k: int)
    ensures
        find_from(coords, x, y, k) matches Some(j) ==> k <= j < coords.len() && coords[j] == (
        x,
        y,
        ),
    decreases coords.len() - k,
{
    if 0 <= k < coords.len() && coords[k] != (x, y) {
        lemma_find_from(coords, x, y, k + 1);
    }
}

/// A found chunk is in range and carries the coordinate looked up.
pub proof fn lemma_find_chunk(coords: Seq<(int, int)>, x: int, y: int)
    ensures
        find_chunk(coords, x, y) matches Some(j) ==> 0 <= j < coords.len() && coords[j] == (x, y),
{
    lemma_find_from(coords, x, y, 0);
}

/// If some chunk carries the coordinate, lookup finds one.
pub proof fn lemma_find_from_present(coords: Seq<(int, int)>, x: int, y: int, k: int, j: int)
    requires
        0 <= k <= j < coords.len(),
        coords[j] == (x, y),
    ensures
        find_from(coords, x, y, k) is Some,
    decreases coords.len() - k,
{
    if k < j && coords[k] != (x, y) {
        lemma_find_from_present(coords, x, y, k + 1, j);
    }
}

/// Resolve a logical local position `(qx, qy)` of chunk `ci` — possibly one
/// step out of bounds — to the chunk that owns it and the slot index there.
/// `None` means the position lies outside the resident world.
pub open spec fn resolve(coords: Seq<(int, int)>, ci: int, qx: int, qy: int) -> Option<(int, int)> {
    let sx = axis_off(qx);
    let sy = axis_off(qy);
    if sx == 0 && sy == 0 {
        Some((ci, lin64(qx, qy)))
    } else {
        match find_chunk(coords, coords[ci].0 + sx, coords[ci].1 + sy) {
            Some(j) => Some((j, lin64(wrap64(qx), wrap64(qy)))),
            None => None,
        }
    }
}

/// A resolved position names a resident chunk and a slot inside it.
pub proof fn lemma_resolve_in_range(coords: Seq<(int, int)>, ci: int, qx: int, qy: int)
    requires
        0 <= ci < coords.len(),
        -64 <= qx < 128,
        -64 <= qy < 128,
    ensures
        resolve(coords, ci, qx, qy) matches Some(jp) ==> 0 <= jp.0 < coords.len() && 0 <= jp.1
            < 4096,
{
    lemma_find_chunk(coords, coords[ci].0 + axis_off(qx), coords[ci].1 + axis_off(qy));
}

/// Whether a byte holds a dynamic cell.
pub open spec fn is_dyn(b: PackedCell) -> bool {
    b.spec_unpack() matches Some(Cell::Dynamic(_))
}

/// Whether a byte holds a static cell.
pub open spec fn is_static(b: PackedCell) -> bool {
    b.spec_unpack() matches Some(Cell::Static(_))
}

/// Well-formedness of a family of chunk buffers.
pub open spec fn wf_bufs(bufs: Seq<Seq<PackedCell>>, len: int) -> bool {
    &&& bufs.len() == len
    &&& forall|j: int| 0 <= j < len ==> #[trigger] bufs[j].len() == 4096
}

/// One round of the pull phase: how the cell `c` at `(px, py)` of chunk `ci`
/// reacts to the neighbor in direction number `k`, if that neighbor holds a
/// dynamic cell whose sub-step movement lands exactly on `(px, py)`.
pub open spec fn pull_once(
    c: DynamicCell,
    coords: Seq<(int, int)>,
    reads: Seq<Seq<PackedCell>>,
    ci: int,
    px: int,
    py: int,
    n: int,
    k: int,
) -> DynamicCell {
    let o = Dir::spec_from_index(k).spec_offset();
    let qx = px + o.0;
    let qy = py + o.1;
    match resolve(coords, ci, qx, qy) {
        Some(jp) => match reads[jp.0][jp.1].spec_unpack() {
            Some(Cell::Dynamic(a)) => {
                let dx = spec_axis_delta(a.velocity.x as int, n);
                let dy = spec_axis_delta(a.velocity.y as int, n);
                if qx + dx == px && qy + dy == py {
                    c.spec_dynamic_collision(a, dx, dy)
                } else {
                    c
                }
            },
            _ => c,
        },
        None => c,
    }
}

/// The cell after the first `k` rounds of the pull phase.
pub open spec fn pull_upto(
    c0: DynamicCell,
    coords: Seq<(int, int)>,
    reads: Seq<Seq<PackedCell>>,
    ci: int,
    px: int,
    py: int,
    n: int,
    k: int,
) -> DynamicCell
    decreases k,
{
    if k <= 0 {
        c0
    } else {
        pull_once(
            pull_upto(c0, coords, reads, ci, px, py, n, k - 1),
            coords,
            reads,
            ci,
            px,
            py,
            n,
            k - 1,
        )
    }
}

/// The cell after the whole pull phase.
pub open spec fn spec_pulled(
    c0: DynamicCell,
    coords: Seq<(int, int)>,
    reads: Seq<Seq<PackedCell>>,
    ci: int,
    px: int,
    py: int,
    n: int,
) -> DynamicCell {
    pull_upto(c0, coords, reads, ci, px, py, n, 8)
}

pub proof fn lemma_pull_upto_wf(
    c0: DynamicCell,
    coords: Seq<(int, int)>,
    reads: Seq<Seq<PackedCell>>,
    ci: int,
    px: int,
    py: int,
    n: int,
    k: int,
)
    requires
        c0.wf(),
    ensures
        pull_upto(c0, coords, reads, ci, px, py, n, k).wf(),
        pull_upto(c0, coords, reads, ci, px, py, n, k).mass == c0.mass,
    decreases k,
{
    if k > 0 {
        lemma_pull_upto_wf(c0, coords, reads, ci, px, py, n, k - 1);
    }
}

/// One write buffer slot replaced.
pub open spec fn upd(
    bufs: Seq<Seq<PackedCell>>,
    j: int,
    p: int,
    v: PackedCell,
) -> Seq<Seq<PackedCell>> {
    bufs.update(j, bufs[j].update(p, v))
}

/// The fully reflective wall a move out of the resident world bounces off.
pub open spec fn wall() -> StaticCell {
    StaticCell { restitution: 15 }
}

/// The exact effect on the write buffers of processing the cell in slot `i`
/// of chunk `ci` at sub-step `n`.
///
/// An empty or static slot does nothing. A dynamic cell first pulls: it
/// updates its own velocity from each neighbor whose movement lands on it.
/// If its own movement is zero it rewrites its slot; otherwise the move is
/// resolved against the destination's read state (wall, static, dynamic, or
/// free) and, when free, arbitrated against the destination's write slot:
/// the first arrival takes the slot, a later one collides symmetrically with
/// the occupant and stays.
pub open spec fn step_effect(
    coords: Seq<(int, int)>,
    reads: Seq<Seq<PackedCell>>,
    writes: Seq<Seq<PackedCell>>,
    ci: int,
    i: int,
    n: int,
) -> Seq<Seq<PackedCell>> {
    let px = i % 64;
    let py = i / 64;
    match reads[ci][i].spec_unpack() {
        Some(Cell::Dynamic(c0)) => {
            let c = spec_pulled(c0, coords, reads, ci, px, py, n);
            let dx = spec_axis_delta(c.velocity.x as int, n);
            let dy = spec_axis_delta(c.velocity.y as int, n);
            if dx == 0 && dy == 0 {
                upd(writes, ci, i, spec_pack_dynamic(c))
            } else {
                match resolve(coords, ci, px + dx, py + dy) {
                    None => upd(
                        writes,
                        ci,
                        i,
                        spec_pack_dynamic(c.spec_static_collision(wall(), dx, dy)),
                    ),
                    Some(jp) => match reads[jp.0][jp.1].spec_unpack() {
                        Some(Cell::Static(s)) => upd(
                            writes,
                            ci,
                            i,
                            spec_pack_dynamic(c.spec_static_collision(s, dx, dy)),
                        ),
                        Some(Cell::Dynamic(a)) => upd(
                            writes,
                            ci,
                            i,
                            spec_pack_dynamic(c.spec_dynamic_collision(a, dx, dy)),
                        ),
                        None => match writes[jp.0][jp.1].spec_unpack() {
                            None => upd(
                                upd(writes, jp.0, jp.1, spec_pack_dynamic(c)),
                                ci,
                                i,
                                spec_none(),
                            ),
                            Some(Cell::Dynamic(a)) => {
                                let co = spec_two_way(c, a, dx, dy);
                                upd(
                                    upd(writes, jp.0, jp.1, spec_pack_dynamic(co.1)),
                                    ci,
                                    i,
                                    spec_pack_dynamic(co.0),
                                )
                            },
                            // a static occupant of a slot that was empty in
                            // the read state cannot arise; see inv_writes
                            Some(Cell::Static(_)) => writes,
                        },
                    },
                }
            }
        },
        _ => writes,
    }
}

/// The write buffers after the first `t` cell steps of the pass, taking the
/// cells in slot order chunk by chunk.
pub open spec fn run_steps(
    coords: Seq<(int, int)>,
    reads: Seq<Seq<PackedCell>>,
    writes: Seq<Seq<PackedCell>>,
    n: int,
    t: int,
) -> Seq<Seq<PackedCell>>
    decreases t,
{
    if t <= 0 {
        writes
    } else {
        step_effect(
            coords,
            reads,
            run_steps(coords, reads, writes, n, t - 1),
            (t - 1) / 4096,
            (t - 1) % 4096,
            n,
        )
    }
}

/// All read buffers after a gravity pass.
pub open spec fn grav_all(reads: Seq<Seq<PackedCell>>) -> Seq<Seq<PackedCell>> {
    Seq::new(reads.len(), |j: int| Seq::new(4096, |i: int| spec_gravity_cell(reads[j][i])))
}

/// The buffer state the map publishes at the end of one sub-step phase:
/// gravity first when `n` is 0, then every cell of every chunk stepped once,
/// then the writes pushed into the reads.
pub open spec fn spec_substep(
    coords: Seq<(int, int)>,
    reads: Seq<Seq<PackedCell>>,
    n: int,
) -> Seq<Seq<PackedCell>> {
    let r = if n == 0 { grav_all(reads) } else { reads };
    run_steps(coords, r, r, n, coords.len() as int * 4096)
}

/// The standing invariant of the write buffers during a pass: a static cell
/// stands in a write slot only where the read slot holds that same value.
/// The pass itself never writes a static byte, so the arbitration can rely
/// on never meeting one in a slot whose read state is empty.
pub open spec fn inv_writes(
    reads: Seq<Seq<PackedCell>>,
    writes: Seq<Seq<PackedCell>>,
    len: int,
) -> bool {
    forall|j: int, p: int|
        0 <= j < len && 0 <= p < 4096 && is_static(#[trigger] writes[j][p]) ==> writes[j][p]
            == reads[j][p]
}

/// Replacing one non-static slot keeps the buffers well formed and the
/// write invariant standing.
pub proof fn lemma_upd_keeps(
    reads: Seq<Seq<PackedCell>>,
    writes: Seq<Seq<PackedCell>>,
    j: int,
    p: int,
    v: PackedCell,
    len: int,
)
    requires
        wf_bufs(writes, len),
        inv_writes(reads, writes, len),
        0 <= j < len,
        0 <= p < 4096,
        !is_static(v),
    ensures
        wf_bufs(upd(writes, j, p, v), len),
        inv_writes(reads, upd(writes, j, p, v), len),
{
    let w2 = upd(writes, j, p, v);
    assert forall|jj: int, pp: int|
        0 <= jj < len && 0 <= pp < 4096 && is_static(#[trigger] w2[jj][pp]) implies w2[jj][pp]
        == reads[jj][pp] by {
        if jj == j && pp == p {
        } else {
            assert(w2[jj][pp] == writes[jj][pp]);
        }
    }
}

/// The collision responses keep a cell well formed.
pub proof fn lemma_collisions_wf(c: DynamicCell, o: DynamicCell, s: StaticCell, dx: int, dy: int)
    requires
        c.wf(),
    ensures
        c.spec_dynamic_collision(o, dx, dy).wf(),
        c.spec_static_collision(s, dx, dy).wf(),
{
}

/// Both outcomes of a symmetric collision are well formed.
pub proof fn lemma_two_way_wf(c: DynamicCell, o: DynamicCell, dx: int, dy: int)
    requires
        c.wf(),
        o.wf(),
    ensures
        spec_two_way(c, o, dx, dy).0.wf(),
        spec_two_way(c, o, dx, dy).1.wf(),
{
}

/// One cell step never writes a static byte, so the buffers stay well
/// formed and the write invariant keeps standing.
pub proof fn lemma_step_effect_preserves(
    coords: Seq<(int, int)>,
    reads: Seq<Seq<PackedCell>>,
    writes: Seq<Seq<PackedCell>>,
    ci: int,
    i: int,
    n: int,
)
    requires
        coords.len() == reads.len(),
        wf_bufs(reads, reads.len() as int),
        wf_bufs(writes, reads.len() as int),
        0 <= ci < reads.len(),
        0 <= i < 4096,
        inv_writes(reads, writes, reads.len() as int),
    ensures
        wf_bufs(step_effect(coords, reads, writes, ci, i, n), reads.len() as int),
        inv_writes(reads, step_effect(coords, reads, writes, ci, i, n), reads.len() as int),
{
    let len = reads.len() as int;
    let px = i % 64;
    let py = i / 64;
    assert(0 <= px < 64 && 0 <= py < 64) by (nonlinear_arith)
        requires
            0 <= i < 4096 && px == i % 64 && py == i / 64,
    ;
    match reads[ci][i].spec_unpack() {
        Some(Cell::Dynamic(c0)) => {
            crate::cell::lemma_unpack_wf(reads[ci][i]);
            let c = spec_pulled(c0, coords, reads, ci, px, py, n);
            lemma_pull_upto_wf(c0, coords, reads, ci, px, py, n, 8);
            let dx = spec_axis_delta(c.velocity.x as int, n);
            let dy = spec_axis_delta(c.velocity.y as int, n);
            if dx == 0 && dy == 0 {
                crate::cell::lemma_unpack_pack_dynamic(c);
                lemma_upd_keeps(reads, writes, ci, i, spec_pack_dynamic(c), len);
            } else {
                lemma_resolve_in_range(coords, ci, px + dx, py + dy);
                match resolve(coords, ci, px + dx, py + dy) {
                    None => {
                        let c2 = c.spec_static_collision(wall(), dx, dy);
                        lemma_collisions_wf(c, c0, wall(), dx, dy);
                        crate::cell::lemma_unpack_pack_dynamic(c2);
                        lemma_upd_keeps(reads, writes, ci, i, spec_pack_dynamic(c2), len);
                    },
                    Some(jp) => match reads[jp.0][jp.1].spec_unpack() {
                        Some(Cell::Static(s)) => {
                            let c2 = c.spec_static_collision(s, dx, dy);
                            lemma_collisions_wf(c, c0, s, dx, dy);
                            crate::cell::lemma_unpack_pack_dynamic(c2);
                            lemma_upd_keeps(reads, writes, ci, i, spec_pack_dynamic(c2), len);
                        },
                        Some(Cell::Dynamic(a)) => {
                            let c2 = c.spec_dynamic_collision(a, dx, dy);
                            lemma_collisions_wf(c, a, wall(), dx, dy);
                            crate::cell::lemma_unpack_pack_dynamic(c2);
                            lemma_upd_keeps(reads, writes, ci, i, spec_pack_dynamic(c2), len);
                        },
                        None => match writes[jp.0][jp.1].spec_unpack() {
                            None => {
                                crate::cell::lemma_unpack_pack_dynamic(c);
                                broadcast use crate::cell::lemma_unpack_none;
                                lemma_upd_keeps(reads, writes, jp.0, jp.1, spec_pack_dynamic(c), len);
                                lemma_upd_keeps(
                                    reads,
                                    upd(writes, jp.0, jp.1, spec_pack_dynamic(c)),
                                    ci,
                                    i,
                                    spec_none(),
                                    len,
                                );
                            },
                            Some(Cell::Dynamic(a)) => {
                                crate::cell::lemma_unpack_wf(writes[jp.0][jp.1]);
                                let co = spec_two_way(c, a, dx, dy);
                                lemma_two_way_wf(c, a, dx, dy);
                                crate::cell::lemma_unpack_pack_dynamic(co.0);
                                crate::cell::lemma_unpack_pack_dynamic(co.1);
                                lemma_upd_keeps(reads, writes, jp.0, jp.1, spec_pack_dynamic(co.1), len);
                                lemma_upd_keeps(
                                    reads,
                                    upd(writes, jp.0, jp.1, spec_pack_dynamic(co.1)),
                                    ci,
                                    i,
                                    spec_pack_dynamic(co.0),
                                    len,
                                );
                            },
                            Some(Cell::Static(_)) => {},
                        },
                    },
                }
            }
        },
        _ => {},
    }
}

/// Number of dynamic cells among the first `p` slots of one buffer.
pub open spec fn dyn_count_row(row: Seq<PackedCell>, p: int) -> int
    decreases p,
{
    if p <= 0 {
        0
    } else {
        dyn_count_row(row, p - 1) + if is_dyn(row[p - 1]) {
            1int
        } else {
            0int
        }
    }
}

/// Number of dynamic cells in the first `j` buffers.
pub open spec fn dyn_count_upto(bufs: Seq<Seq<PackedCell>>, j: int) -> int
    decreases j,
{
    if j <= 0 {
        0
    } else {
        dyn_count_upto(bufs, j - 1) + dyn_count_row(bufs[j - 1], 4096)
    }
}

/// Total number of dynamic cells over all chunks.
pub open spec fn dyn_count(bufs: Seq<Seq<PackedCell>>) -> int {
    dyn_count_upto(bufs, bufs.len() as int)
}

/// Row counts look only at the slots below `p`.
proof fn lemma_row_count_congruent(a: Seq<PackedCell>, b: Seq<PackedCell>, p: int)
    requires
        forall|i: int| 0 <= i < p ==> is_dyn(#[trigger] a[i]) == is_dyn(#[trigger] b[i]),
    ensures
        dyn_count_row(a, p) == dyn_count_row(b, p),
    decreases p,
{
    if p > 0 {
        lemma_row_count_congruent(a, b, p - 1);
    }
}

/// Updating one slot moves the row count by the difference of the two
/// occupancies.
proof fn lemma_row_count_update(row: Seq<PackedCell>, p: int, pi: int, v: PackedCell)
    requires
        0 <= pi < p <= row.len(),
    ensures
        dyn_count_row(row.update(pi, v), p) == dyn_count_row(row, p) - (if is_dyn(row[pi]) {
            1int
        } else {
            0int
        }) + (if is_dyn(v) {
            1int
        } else {
            0int
        }),
    decreases p,
{
    if pi == p - 1 {
        lemma_row_count_congruent(row.update(pi, v), row, p - 1);
    } else {
        lemma_row_count_update(row, p - 1, pi, v);
    }
}

/// Totals look only at the rows below `j`.
proof fn lemma_count_upto_congruent(a: Seq<Seq<PackedCell>>, b: Seq<Seq<PackedCell>>, j: int)
    requires
        forall|jj: int| 0 <= jj < j ==> #[trigger] a[jj] == b[jj],
    ensures
        dyn_count_upto(a, j) == dyn_count_upto(b, j),
    decreases j,
{
    if j > 0 {
        lemma_count_upto_congruent(a, b, j - 1);
    }
}

/// Replacing one slot moves the total by the difference of the two
/// occupancies.
proof fn lemma_count_upd(bufs: Seq<Seq<PackedCell>>, j: int, p: int, v: PackedCell, jn: int)
    requires
        0 <= j < jn <= bufs.len(),
        0 <= p < 4096,
        bufs[j].len() == 4096,
    ensures
        dyn_count_upto(upd(bufs, j, p, v), jn) == dyn_count_upto(bufs, jn) - (if is_dyn(
            bufs[j][p],
        ) {
            1int
        } else {
            0int
        }) + (if is_dyn(v) {
            1int
        } else {
            0int
        }),
    decreases jn,
{
    let b2 = upd(bufs, j, p, v);
    if j == jn - 1 {
        lemma_count_upto_congruent(b2, bufs, jn - 1);
        lemma_row_count_update(bufs[j], 4096, p, v);
    } else {
        lemma_count_upd(bufs, j, p, v, jn - 1);
        assert(b2[jn - 1] == bufs[jn - 1]);
    }
}

/// During the pass, a dynamic cell not yet processed still stands untouched
/// in its own write slot. Cell `(j, p)` is processed at time `j * 4096 + p`.
pub open spec fn untouched_from(
    reads: Seq<Seq<PackedCell>>,
    writes: Seq<Seq<PackedCell>>,
    t: int,
    len: int,
) -> bool {
    forall|j: int, p: int|
        0 <= j < len && 0 <= p < 4096 && j * 4096 + p >= t && is_dyn(#[trigger] reads[j][p])
            ==> writes[j][p] == reads[j][p]
}

/// One cell step neither creates nor destroys a dynamic cell: the moving
/// cell lands in exactly one write slot, and a push collision leaves both
/// involved cells in place.
proof fn lemma_step_count(
    coords: Seq<(int, int)>,
    reads: Seq<Seq<PackedCell>>,
    writes: Seq<Seq<PackedCell>>,
    ci: int,
    i: int,
    n: int,
)
    requires
        coords.len() == reads.len(),
        wf_bufs(reads, reads.len() as int),
        wf_bufs(writes, reads.len() as int),
        0 <= ci < reads.len(),
        0 <= i < 4096,
        inv_writes(reads, writes, reads.len() as int),
        untouched_from(reads, writes, ci * 4096 + i, reads.len() as int),
    ensures
        dyn_count(step_effect(coords, reads, writes, ci, i, n)) == dyn_count(writes),
        untouched_from(
            reads,
            step_effect(coords, reads, writes, ci, i, n),
            ci * 4096 + i + 1,
            reads.len() as int,
        ),
{
    let len = reads.len() as int;
    let t = ci * 4096 + i;
    let w2 = step_effect(coords, reads, writes, ci, i, n);
    let px = i % 64;
    let py = i / 64;
    assert(0 <= px < 64 && 0 <= py < 64) by (nonlinear_arith)
        requires
            0 <= i < 4096 && px == i % 64 && py == i / 64,
    ;
    match reads[ci][i].spec_unpack() {
        Some(Cell::Dynamic(c0)) => {
            crate::cell::lemma_unpack_wf(reads[ci][i]);
            let c = spec_pulled(c0, coords, reads, ci, px, py, n);
            lemma_pull_upto_wf(c0, coords, reads, ci, px, py, n, 8);
            let dx = spec_axis_delta(c.velocity.x as int, n);
            let dy = spec_axis_delta(c.velocity.y as int, n);
            // the moving cell's own write slot still holds it
            assert(writes[ci][i] == reads[ci][i]);
            assert(is_dyn(writes[ci][i]));
            if dx == 0 && dy == 0 {
                crate::cell::lemma_unpack_pack_dynamic(c);
                lemma_count_upd(writes, ci, i, spec_pack_dynamic(c), len);
            } else {
                lemma_resolve_in_range(coords, ci, px + dx, py + dy);
                match resolve(coords, ci, px + dx, py + dy) {
                    None => {
                        let c2 = c.spec_static_collision(wall(), dx, dy);
                        lemma_collisions_wf(c, c0, wall(), dx, dy);
                        crate::cell::lemma_unpack_pack_dynamic(c2);
                        lemma_count_upd(writes, ci, i, spec_pack_dynamic(c2), len);
                    },
                    Some(jp) => match reads[jp.0][jp.1].spec_unpack() {
                        Some(Cell::Static(s)) => {
                            let c2 = c.spec_static_collision(s, dx, dy);
                            lemma_collisions_wf(c, c0, s, dx, dy);
                            crate::cell::lemma_unpack_pack_dynamic(c2);
                            lemma_count_upd(writes, ci, i, spec_pack_dynamic(c2), len);
                        },
                        Some(Cell::Dynamic(a)) => {
                            let c2 = c.spec_dynamic_collision(a, dx, dy);
                            lemma_collisions_wf(c, a, wall(), dx, dy);
                            crate::cell::lemma_unpack_pack_dynamic(c2);
                            lemma_count_upd(writes, ci, i, spec_pack_dynamic(c2), len);
                        },
                        None => {
                            // the destination differs from the origin: its
                            // read state is empty, the origin's is dynamic
                            assert((jp.0, jp.1) != (ci, i));
                            match writes[jp.0][jp.1].spec_unpack() {
                                None => {
                                    crate::cell::lemma_unpack_pack_dynamic(c);
                                    broadcast use crate::cell::lemma_unpack_none;

                                    let wa = upd(writes, jp.0, jp.1, spec_pack_dynamic(c));
                                    lemma_count_upd(writes, jp.0, jp.1, spec_pack_dynamic(c), len);
                                    lemma_count_upd(wa, ci, i, spec_none(), len);
                                    assert(wa[ci][i] == writes[ci][i]);
                                },
                                Some(Cell::Dynamic(a)) => {
                                    crate::cell::lemma_unpack_wf(writes[jp.0][jp.1]);
                                    let co = spec_two_way(c, a, dx, dy);
                                    lemma_two_way_wf(c, a, dx, dy);
                                    crate::cell::lemma_unpack_pack_dynamic(co.0);
                                    crate::cell::lemma_unpack_pack_dynamic(co.1);
                                    let wa = upd(writes, jp.0, jp.1, spec_pack_dynamic(co.1));
                                    lemma_count_upd(writes, jp.0, jp.1, spec_pack_dynamic(co.1), len);
                                    lemma_count_upd(wa, ci, i, spec_pack_dynamic(co.0), len);
                                    assert(wa[ci][i] == writes[ci][i]);
                                },
                                Some(Cell::Static(_)) => {},
                            }
                        },
                    },
                }
            }
        },
        _ => {},
    }
    // every slot the step wrote lies at a processed position or at a slot
    // whose read state is not dynamic
    assert forall|j: int, p: int|
        0 <= j < len && 0 <= p < 4096 && j * 4096 + p >= t + 1 && is_dyn(#[trigger] reads[j][p])
        implies w2[j][p] == reads[j][p] by {
        lemma_step_effect_touches(coords, reads, writes, ci, i, n, j, p);
        assert((j, p) != (ci, i)) by {
            if (j, p) == (ci, i) {
                assert(j * 4096 + p == t);
            }
        }
    }
}

/// A cell step can change only the origin slot and a destination slot whose
/// read state is empty.
proof fn lemma_step_effect_touches(
    coords: Seq<(int, int)>,
    reads: Seq<Seq<PackedCell>>,
    writes: Seq<Seq<PackedCell>>,
    ci: int,
    i: int,
    n: int,
    j: int,
    p: int,
)
    requires
        coords.len() == reads.len(),
        wf_bufs(reads, reads.len() as int),
        wf_bufs(writes, reads.len() as int),
        0 <= ci < reads.len(),
        0 <= i < 4096,
        0 <= j < reads.len(),
        0 <= p < 4096,
        (j, p) != (ci, i),
        reads[j][p].spec_unpack() is Some,
    ensures
        step_effect(coords, reads, writes, ci, i, n)[j][p] == writes[j][p],
{
    let px = i % 64;
    let py = i / 64;
    assert(0 <= px < 64 && 0 <= py < 64) by (nonlinear_arith)
        requires
            0 <= i < 4096 && px == i % 64 && py == i / 64,
    ;
    match reads[ci][i].spec_unpack() {
        Some(Cell::Dynamic(c0)) => {
            let c = spec_pulled(c0, coords, reads, ci, px, py, n);
            let dx = spec_axis_delta(c.velocity.x as int, n);
            let dy = spec_axis_delta(c.velocity.y as int, n);
            if !(dx == 0 && dy == 0) {
                lemma_resolve_in_range(coords, ci, px + dx, py + dy);
            }
        },
        _ => {},
    }
}

/// Statics never move: a slot whose read state is static keeps its value
/// through every cell step.
pub open spec fn statics_kept(
    reads: Seq<Seq<PackedCell>>,
    writes: Seq<Seq<PackedCell>>,
    len: int,
) -> bool {
    forall|j: int, p: int|
        0 <= j < len && 0 <= p < 4096 && is_static(#[trigger] reads[j][p]) ==> writes[j][p]
            == reads[j][p]
}

proof fn lemma_step_statics(
    coords: Seq<(int, int)>,
    reads: Seq<Seq<PackedCell>>,
    writes: Seq<Seq<PackedCell>>,
    ci: int,
    i: int,
    n: int,
)
    requires
        coords.len() == reads.len(),
        wf_bufs(reads, reads.len() as int),
        wf_bufs(writes, reads.len() as int),
        0 <= ci < reads.len(),
        0 <= i < 4096,
        statics_kept(reads, writes, reads.len() as int),
    ensures
        statics_kept(reads, step_effect(coords, reads, writes, ci, i, n), reads.len() as int),
{
    let len = reads.len() as int;
    let w2 = step_effect(coords, reads, writes, ci, i, n);
    assert forall|j: int, p: int|
        0 <= j < len && 0 <= p < 4096 && is_static(#[trigger] reads[j][p]) implies w2[j][p]
        == reads[j][p] by {
        if (j, p) != (ci, i) {
            lemma_step_effect_touches(coords, reads, writes, ci, i, n, j, p);
        }
    }
}

/// The whole pass, run for `t` steps from the published state, keeps the
/// dynamic count, leaves statics alone, and maintains the pass invariants.
proof fn lemma_run_preserves(
    coords: Seq<(int, int)>,
    reads: Seq<Seq<PackedCell>>,
    n: int,
    t: int,
)
    requires
        coords.len() == reads.len(),
        wf_bufs(reads, reads.len() as int),
        0 <= t <= reads.len() * 4096,
    ensures
        wf_bufs(run_steps(coords, reads, reads, n, t), reads.len() as int),
        inv_writes(reads, run_steps(coords, reads, reads, n, t), reads.len() as int),
        untouched_from(reads, run_steps(coords, reads, reads, n, t), t, reads.len() as int),
        dyn_count(run_steps(coords, reads, reads, n, t)) == dyn_count(reads),
        statics_kept(reads, run_steps(coords, reads, reads, n, t), reads.len() as int),
    decreases t,
{
    let len = reads.len() as int;
    if t <= 0 {
    } else {
        lemma_run_preserves(coords, reads, n, t - 1);
        let w = run_steps(coords, reads, reads, n, t - 1);
        let ci = (t - 1) / 4096;
        let i = (t - 1) % 4096;
        assert(0 <= i < 4096);
        assert(0 <= ci < len) by (nonlinear_arith)
            requires
                0 <= t - 1 < len * 4096 && ci == (t - 1) / 4096,
        ;
        assert(ci * 4096 + i == t - 1) by {
            vstd::arithmetic::div_mod::lemma_fundamental_div_mod(t - 1, 4096);
        }
        lemma_step_effect_preserves(coords, reads, w, ci, i, n);
        lemma_step_count(coords, reads, w, ci, i, n);
        lemma_step_statics(coords, reads, w, ci, i, n);
    }
}

/// Gravity changes no slot's occupancy kind and leaves non-dynamic slots
/// byte-identical.
proof fn lemma_grav_cell_kind(b: PackedCell)
    ensures
        is_dyn(spec_gravity_cell(b)) == is_dyn(b),
        !is_dyn(b) ==> spec_gravity_cell(b) == b,
        is_static(spec_gravity_cell(b)) == is_static(b),
        is_static(b) ==> spec_gravity_cell(b) == b,
{
    match b.spec_unpack() {
        Some(Cell::Dynamic(d)) => {
            crate::cell::lemma_unpack_wf(b);
            let d2 = DynamicCell {
                mass: d.mass,
                velocity: crate::I8Vec2 {
                    x: d.velocity.x,
                    y: crate::cell::spec_gravity_vel(d.velocity.y as int) as i8,
                },
            };
            crate::cell::lemma_unpack_pack_dynamic(d2);
        },
        _ => {},
    }
}

/// A gravity pass keeps the dynamic count of every prefix.
proof fn lemma_grav_count(reads: Seq<Seq<PackedCell>>, j: int)
    requires
        wf_bufs(reads, reads.len() as int),
        0 <= j <= reads.len(),
    ensures
        dyn_count_upto(grav_all(reads), j) == dyn_count_upto(reads, j),
    decreases j,
{
    if j > 0 {
        lemma_grav_count(reads, j - 1);
        assert forall|i: int| 0 <= i < 4096 implies is_dyn(#[trigger] grav_all(reads)[j - 1][i])
            == is_dyn(reads[j - 1][i]) by {
            lemma_grav_cell_kind(reads[j - 1][i]);
        }
        lemma_row_count_congruent(grav_all(reads)[j - 1], reads[j - 1], 4096);
    }
}

/// No duplication, no loss: one sub-step phase leaves the total number of
/// dynamic cells over all chunks exactly as it was. Every moving cell lands
/// in exactly one slot, and colliding cells stay where they are.
pub proof fn lemma_substep_preserves_dynamic_count(
    coords: Seq<(int, int)>,
    reads: Seq<Seq<PackedCell>>,
    n: int,
)
    requires
        coords.len() == reads.len(),
        wf_bufs(reads, reads.len() as int),
    ensures
        dyn_count(spec_substep(coords, reads, n)) == dyn_count(reads),
{
    let r0 = if n == 0 {
        grav_all(reads)
    } else {
        reads
    };
    assert(wf_bufs(r0, reads.len() as int));
    if n == 0 {
        lemma_grav_count(reads, reads.len() as int);
    }
    assert(reads.len() * 4096 >= 0) by (nonlinear_arith);
    lemma_run_preserves(coords, r0, n, reads.len() as int * 4096);
}

/// No interpenetration with obstacles: a slot holding a static cell holds
/// exactly that cell after any sub-step phase, and no static cell ever
/// appears in a slot that held none.
pub proof fn lemma_substep_preserves_statics(
    coords: Seq<(int, int)>,
    reads: Seq<Seq<PackedCell>>,
    n: int,
    j: int,
    p: int,
)
    requires
        coords.len() == reads.len(),
        wf_bufs(reads, reads.len() as int),
        0 <= j < reads.len(),
        0 <= p < 4096,
    ensures
        is_static(reads[j][p]) ==> spec_substep(coords, reads, n)[j][p] == reads[j][p],
        is_static(spec_substep(coords, reads, n)[j][p]) == is_static(reads[j][p]),
{
    let r0 = if n == 0 {
        grav_all(reads)
    } else {
        reads
    };
    lemma_grav_cell_kind(reads[j][p]);
    assert(r0[j][p] == spec_gravity_cell(reads[j][p]) || r0[j][p] == reads[j][p]);
    lemma_run_preserves(coords, r0, n, reads.len() as int * 4096);
    assert(reads.len() * 4096 >= 4096) by (nonlinear_arith)
        requires
            reads.len() >= 1,
    ;
    let w = spec_substep(coords, reads, n);
    if is_static(reads[j][p]) {
        assert(is_static(r0[j][p]));
        assert(w[j][p] == r0[j][p]);
    }
    if is_static(w[j][p]) {
        assert(inv_writes(r0, w, reads.len() as int));
        assert(w[j][p] == r0[j][p]);
    }
}

/// Velocity clamp: whatever buffer state a sub-step phase leaves behind,
/// every cell that decodes as dynamic carries a mass in 1..=4 and velocity
/// components of magnitude at most 3. This is forced by the byte layout, so
/// it holds of the published state of every phase.
pub proof fn lemma_substep_velocity_clamp(
    coords: Seq<(int, int)>,
    reads: Seq<Seq<PackedCell>>,
    n: int,
    j: int,
    p: int,
)
    ensures
        spec_substep(coords, reads, n)[j][p].spec_unpack() matches Some(c) ==> c.wf(),
{
    crate::cell::lemma_unpack_wf(spec_substep(coords, reads, n)[j][p]);
}

/// Wall reflection: a dynamic cell whose pull-adjusted movement leads out of
/// the resident world stays in its own slot, with its velocity reflected and
/// scaled as by a static cell of full restitution; nothing else changes.
pub proof fn lemma_wall_reflection(
    coords: Seq<(int, int)>,
    reads: Seq<Seq<PackedCell>>,
    writes: Seq<Seq<PackedCell>>,
    ci: int,
    i: int,
    n: int,
)
    requires
        reads[ci][i].spec_unpack() matches Some(Cell::Dynamic(_)),
        ({
            let c0 = reads[ci][i].spec_unpack()->Some_0->Dynamic_0;
            let c = spec_pulled(c0, coords, reads, ci, i % 64, i / 64, n);
            let dx = spec_axis_delta(c.velocity.x as int, n);
            let dy = spec_axis_delta(c.velocity.y as int, n);
            (dx, dy) != (0int, 0int) && resolve(coords, ci, i % 64 + dx, i / 64 + dy) is None
        }),
    ensures
        ({
            let c0 = reads[ci][i].spec_unpack()->Some_0->Dynamic_0;
            let c = spec_pulled(c0, coords, reads, ci, i % 64, i / 64, n);
            let dx = spec_axis_delta(c.velocity.x as int, n);
            let dy = spec_axis_delta(c.velocity.y as int, n);
            step_effect(coords, reads, writes, ci, i, n) == upd(
                writes,
                ci,
                i,
                spec_pack_dynamic(c.spec_static_collision(wall(), dx, dy)),
            )
        }),
{
}

/// Gravity: one gravity pass lowers every dynamic cell's y velocity by
/// exactly one, floored at the maximum downward speed, and leaves its mass,
/// its x velocity and every non-dynamic cell untouched.
pub proof fn lemma_gravity_exact(b: PackedCell)
    ensures
        (match b.spec_unpack() {
            Some(Cell::Dynamic(d)) => spec_gravity_cell(b).spec_unpack() == Some(
                Cell::Dynamic(
                    DynamicCell {
                        mass: d.mass,
                        velocity: crate::I8Vec2 {
                            x: d.velocity.x,
                            y: crate::cell::spec_gravity_vel(d.velocity.y as int) as i8,
                        },
                    },
                ),
            ),
            _ => spec_gravity_cell(b) == b,
        }),
{
    match b.spec_unpack() {
        Some(Cell::Dynamic(d)) => {
            crate::cell::lemma_unpack_wf(b);
            let d2 = DynamicCell {
                mass: d.mass,
                velocity: crate::I8Vec2 {
                    x: d.velocity.x,
                    y: crate::cell::spec_gravity_vel(d.velocity.y as int) as i8,
                },
            };
            crate::cell::lemma_unpack_pack_dynamic(d2);
        },
        _ => {},
    }
}

} // verus!
