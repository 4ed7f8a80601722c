//! Tests of the sparse chunk map: residency, neighbor linkage, the painting
//! operations and the world-position iterator.

use cell_grid::cell::{Cell, DynamicCell, StaticCell};
use cell_grid::chunk::Chunk;
use cell_grid::chunk_map::ChunkMap;
use cell_grid::{Dir, I8Vec2, IVec2};

fn at(x: i32, y: i32) -> IVec2 {
    IVec2 { x, y }
}

fn flag(m: &ChunkMap, entry: usize, d: Dir) -> bool {
    m.entries[entry].chunk.neighbors[d.index()]
}

#[test]
fn insert_links_both_sides() {
    let mut m = ChunkMap::new();
    m.insert(at(0, 0), Chunk::empty());
    for k in 0..8 {
        assert!(!m.entries[0].chunk.neighbors[k]);
    }
    m.insert(at(1, 0), Chunk::empty());
    assert!(flag(&m, 0, Dir::Right));
    assert!(flag(&m, 1, Dir::Left));
    assert!(!flag(&m, 0, Dir::Left));
    assert!(!flag(&m, 1, Dir::Right));

    m.insert(at(1, 1), Chunk::empty());
    assert!(flag(&m, 0, Dir::UpRight));
    assert!(flag(&m, 1, Dir::Up));
    assert!(flag(&m, 2, Dir::DownLeft));
    assert!(flag(&m, 2, Dir::Down));
}

#[test]
fn remove_unlinks_neighbors() {
    let mut m = ChunkMap::new();
    m.insert(at(0, 0), Chunk::empty());
    m.insert(at(1, 0), Chunk::empty());
    m.insert(at(0, 1), Chunk::empty());
    m.remove(at(0, 0));
    assert_eq!(m.entries.len(), 2);
    // the survivors no longer point at the removed coordinate
    assert!(!flag(&m, 0, Dir::Left));
    assert!(!flag(&m, 1, Dir::Down));
    // and a removed coordinate acts as a wall again
    m.set_cell(
        at(64, 32),
        Cell::Dynamic(DynamicCell {
            mass: 1,
            velocity: I8Vec2 { x: -3, y: 1 },
        }),
    );
    m.tick();
    m.tick();
    m.tick();
    // the cell bounced off the gap where the removed chunk was
    assert_eq!(
        m.get_cell(at(66, 32)),
        Some(Cell::Dynamic(DynamicCell {
            mass: 1,
            velocity: I8Vec2 { x: 3, y: 0 },
        }))
    );
}

#[test]
fn set_and_get_round_trip() {
    let mut m = ChunkMap::new();
    m.insert(at(0, 0), Chunk::empty());
    assert_eq!(m.get_cell(at(5, 5)), None);

    m.set_static(at(5, 5));
    assert_eq!(
        m.get_cell(at(5, 5)),
        Some(Cell::Static(StaticCell { restitution: 15 }))
    );

    m.set_none(at(5, 5));
    assert_eq!(m.get_cell(at(5, 5)), None);
}

#[test]
fn set_dynamic_draws_within_ranges() {
    let mut m = ChunkMap::new();
    m.insert(at(0, 0), Chunk::empty());
    for i in 0..32 {
        let p = at(i, 10);
        m.set_dynamic(p);
        match m.get_cell(p) {
            Some(Cell::Dynamic(d)) => {
                assert!((1..=4).contains(&d.mass));
                assert!((-3..=3).contains(&d.velocity.x));
                assert!((1..=3).contains(&d.velocity.y));
            }
            other => panic!("expected a dynamic cell, got {:?}", other),
        }
    }
}

#[test]
fn operations_on_absent_chunks_are_ignored() {
    let mut m = ChunkMap::new();
    m.insert(at(0, 0), Chunk::empty());
    m.set_dynamic(at(500, 500));
    m.set_static(at(-1, 0));
    m.set_none(at(0, -1));
    m.set_cell(
        at(64, 0),
        Cell::Static(StaticCell { restitution: 1 }),
    );
    assert_eq!(m.get_cell(at(500, 500)), None);
    assert_eq!(m.get_cell(at(-1, 0)), None);
    assert_eq!(m.get_cell(at(64, 0)), None);
    assert_eq!(m.iter_some().len(), 0);
}

#[test]
fn iter_some_reports_world_positions() {
    let mut m = ChunkMap::new();
    m.insert(at(0, 0), Chunk::empty());
    m.insert(at(-1, 0), Chunk::empty());
    m.set_static(at(3, 7));
    m.set_static(at(-1, 5));
    m.set_dynamic(at(-64, 0));
    let mut got = m.iter_some();
    got.sort_by_key(|p| (p.x, p.y));
    assert_eq!(got.len(), 3);
    assert_eq!(got[0], at(-64, 0));
    assert_eq!(got[1], at(-1, 5));
    assert_eq!(got[2], at(3, 7));
}

#[test]
fn negative_world_coordinates_map_to_chunks() {
    let mut m = ChunkMap::new();
    m.insert(at(-1, -1), Chunk::empty());
    // world (-1, -1) is local (63, 63) of chunk (-1, -1)
    m.set_static(at(-1, -1));
    assert_eq!(
        m.get_cell(at(-1, -1)),
        Some(Cell::Static(StaticCell { restitution: 15 }))
    );
    assert_eq!(m.get_cell(at(-64, -64)), None);
    m.set_static(at(-64, -64));
    assert_eq!(
        m.get_cell(at(-64, -64)),
        Some(Cell::Static(StaticCell { restitution: 15 }))
    );
}

#[test]
fn replacing_a_chunk_keeps_the_links() {
    let mut m = ChunkMap::new();
    m.insert(at(0, 0), Chunk::empty());
    m.insert(at(1, 0), Chunk::empty());
    m.set_static(at(3, 3));
    // inserting a fresh chunk at a resident coordinate replaces its cells
    m.insert(at(0, 0), Chunk::empty());
    assert_eq!(m.get_cell(at(3, 3)), None);
    assert_eq!(m.entries.len(), 2);
    assert!(flag(&m, 0, Dir::Right));
    assert!(flag(&m, 1, Dir::Left));
}

#[test]
fn ticking_an_empty_world_is_a_no_op() {
    let mut m = ChunkMap::new();
    m.tick();
    m.tick();
    m.tick();
    assert_eq!(m.iter_some().len(), 0);
    assert_eq!(m.entries.len(), 0);
}

#[test]
fn chunks_at_the_edge_of_the_world() {
    // the outermost representable chunk row touches the extremes of the
    // 32-bit world coordinates without overflowing
    let mut m = ChunkMap::new();
    m.insert(at(33554431, -33554432), Chunk::empty());
    m.set_static(at(i32::MAX, i32::MIN));
    assert_eq!(
        m.get_cell(at(i32::MAX, i32::MIN)),
        Some(Cell::Static(StaticCell { restitution: 15 }))
    );
    let got = m.iter_some();
    assert_eq!(got.len(), 1);
    assert_eq!(got[0], at(i32::MAX, i32::MIN));
}

#[test]
fn tick_counter_wraps() {
    let mut m = ChunkMap::new();
    m.insert(at(0, 0), Chunk::empty());
    assert_eq!(m.counter, 0);
    m.tick();
    assert_eq!(m.counter, 1);
    m.tick();
    m.tick();
    assert_eq!(m.counter, 0);
}
