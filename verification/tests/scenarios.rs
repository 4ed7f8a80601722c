//! End-to-end scenarios: single cells and pairs advanced through whole
//! ticks. A full tick is three driver calls; gravity runs in the first.

use cell_grid::cell::{Cell, DynamicCell, StaticCell};
use cell_grid::chunk::Chunk;
use cell_grid::chunk_map::ChunkMap;
use cell_grid::{I8Vec2, IVec2};

fn dynamic(mass: i8, vx: i8, vy: i8) -> Cell {
    Cell::Dynamic(DynamicCell {
        mass,
        velocity: I8Vec2 { x: vx, y: vy },
    })
}

fn at(x: i32, y: i32) -> IVec2 {
    IVec2 { x, y }
}

fn full_tick(m: &mut ChunkMap) {
    m.tick();
    m.tick();
    m.tick();
}

fn single_chunk_map() -> ChunkMap {
    let mut m = ChunkMap::new();
    m.insert(at(0, 0), Chunk::empty());
    m
}

#[test]
fn free_fall() {
    let mut m = single_chunk_map();
    m.set_cell(at(32, 60), dynamic(1, 0, 0));

    full_tick(&mut m);
    assert_eq!(m.get_cell(at(32, 59)), Some(dynamic(1, 0, -1)));
    assert_eq!(m.iter_some().len(), 1);

    for _ in 1..20 {
        full_tick(&mut m);
    }
    // displacement 1 + 2 + 3 * 18 = 57 from y = 60
    assert_eq!(m.get_cell(at(32, 3)), Some(dynamic(1, 0, -3)));
    assert_eq!(m.iter_some().len(), 1);
}

#[test]
fn free_fall_velocity_per_tick() {
    // gravity takes one unit of y velocity per tick, floored at -3
    let mut m = single_chunk_map();
    m.set_cell(at(10, 50), dynamic(2, 0, 0));
    let mut expected_vy: i8 = 0;
    let mut y: i32 = 50;
    for _ in 0..5 {
        expected_vy = (expected_vy - 1).max(-3);
        y += expected_vy as i32;
        full_tick(&mut m);
        assert_eq!(m.get_cell(at(10, y)), Some(dynamic(2, 0, expected_vy)));
    }
}

#[test]
fn wall_bounce_below() {
    let mut m = single_chunk_map();
    m.set_cell(at(32, 60), dynamic(1, 0, 0));
    // falls for 21 ticks and lands exactly on the floor row
    for _ in 0..21 {
        full_tick(&mut m);
    }
    assert_eq!(m.get_cell(at(32, 0)), Some(dynamic(1, 0, -3)));

    // the push into the absent south chunk resolves as a wall of full
    // restitution: -(-3 * 15) / 7 = 6, clamped to 3; the two remaining
    // sub-steps carry the cell back up
    full_tick(&mut m);
    assert_eq!(m.get_cell(at(32, 2)), Some(dynamic(1, 0, 3)));
}

#[test]
fn wall_bounce_sideways() {
    // moving into the absent east chunk reflects the x velocity; the upward
    // unit of velocity only cancels this tick's gravity
    let mut m = single_chunk_map();
    m.set_cell(at(63, 32), dynamic(1, 3, 1));
    full_tick(&mut m);
    assert_eq!(m.get_cell(at(61, 32)), Some(dynamic(1, -3, 0)));
}

#[test]
fn head_on_collision_equal_mass() {
    let mut m = single_chunk_map();
    m.set_cell(at(10, 32), dynamic(1, 3, 0));
    m.set_cell(at(13, 32), dynamic(1, -3, 0));
    full_tick(&mut m);
    // both fall one row from gravity; they meet after the first sub-step,
    // exchange x velocities through the pull phase, and part again
    assert_eq!(m.get_cell(at(9, 31)), Some(dynamic(1, -3, -1)));
    assert_eq!(m.get_cell(at(14, 31)), Some(dynamic(1, 3, -1)));
    assert_eq!(m.iter_some().len(), 2);
}

#[test]
fn heavier_pushes_lighter() {
    let mut m = single_chunk_map();
    m.set_cell(at(10, 32), dynamic(4, 2, 0));
    m.set_cell(at(12, 32), dynamic(1, 0, 0));
    full_tick(&mut m);
    // the heavy cell keeps a reduced positive x velocity: ((4-1)*3)/5 = 1;
    // the light one is thrown to the full speed: (2*4*3)/5 = 4, clamped to 3
    let heavy = m.get_cell(at(11, 31));
    let light = m.get_cell(at(14, 31));
    assert_eq!(heavy, Some(dynamic(4, 1, -1)));
    assert_eq!(light, Some(dynamic(1, 3, -1)));
    assert_eq!(m.iter_some().len(), 2);
}

#[test]
fn static_bounce_full_speed() {
    // the upward unit of velocity cancels this tick's gravity, so the cell
    // hits the obstacle head on: new vx = -(3 * 7) / 7 = -3, and the two
    // remaining sub-steps carry it away from the obstacle
    let mut m = single_chunk_map();
    m.set_cell(at(10, 32), dynamic(1, 3, 1));
    m.set_cell(at(11, 32), Cell::Static(StaticCell { restitution: 7 }));
    full_tick(&mut m);
    assert_eq!(m.get_cell(at(8, 32)), Some(dynamic(1, -3, 0)));
    // the obstacle has not moved
    assert_eq!(
        m.get_cell(at(11, 32)),
        Some(Cell::Static(StaticCell { restitution: 7 }))
    );
}

#[test]
fn static_bounce_low_restitution() {
    // with restitution 3 the bounce is slow: -(3 * 3) / 7 = -1, too slow to
    // move again within the same tick, so the cell ends where it started
    let mut m = single_chunk_map();
    m.set_cell(at(10, 32), dynamic(1, 3, 1));
    m.set_cell(at(11, 32), Cell::Static(StaticCell { restitution: 3 }));
    full_tick(&mut m);
    assert_eq!(m.get_cell(at(10, 32)), Some(dynamic(1, -1, 0)));
}

#[test]
fn cross_chunk_push() {
    let mut m = ChunkMap::new();
    m.insert(at(0, 0), Chunk::empty());
    m.insert(at(1, 0), Chunk::empty());
    // local (63, 32) of the west chunk, moving east; the upward unit of
    // velocity cancels this tick's gravity
    m.set_cell(at(63, 32), dynamic(1, 3, 1));
    full_tick(&mut m);
    // three sub-steps carry it three cells across the boundary
    assert_eq!(m.get_cell(at(66, 32)), Some(dynamic(1, 3, 0)));
    assert_eq!(m.get_cell(at(63, 32)), None);
    assert_eq!(m.iter_some().len(), 1);
}

#[test]
fn dynamic_cell_count_is_preserved() {
    // several cells thrown together: collisions may reorder them, but the
    // count never changes
    let mut m = single_chunk_map();
    m.set_cell(at(10, 30), dynamic(1, 3, 1));
    m.set_cell(at(13, 30), dynamic(2, -3, 1));
    m.set_cell(at(11, 33), dynamic(4, 2, -2));
    m.set_cell(at(12, 27), dynamic(3, -1, 3));
    m.set_cell(at(20, 30), Cell::Static(StaticCell { restitution: 15 }));
    for _ in 0..10 {
        full_tick(&mut m);
        let occupied = m.iter_some();
        let mut dynamic_count = 0;
        let mut static_count = 0;
        for p in &occupied {
            match m.get_cell(*p) {
                Some(Cell::Dynamic(d)) => {
                    dynamic_count += 1;
                    // velocity clamp: every live cell stays within bounds
                    assert!(d.velocity.x.abs() <= 3 && d.velocity.y.abs() <= 3);
                    assert!((1..=4).contains(&d.mass));
                }
                Some(Cell::Static(_)) => static_count += 1,
                None => panic!("occupied position reads back empty"),
            }
        }
        assert_eq!(dynamic_count, 4);
        assert_eq!(static_count, 1);
    }
    // the obstacle is byte-identical after all ticks
    assert_eq!(
        m.get_cell(at(20, 30)),
        Some(Cell::Static(StaticCell { restitution: 15 }))
    );
}
