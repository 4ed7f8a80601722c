//! Unit tests for the one-byte cell codec and the per-cell physics.

use cell_grid::cell::{Cell, DynamicCell, PackedCell, StaticCell};
use cell_grid::{Dir, I8Vec2, IVec2};

fn dynamic(mass: i8, vx: i8, vy: i8) -> DynamicCell {
    DynamicCell {
        mass,
        velocity: I8Vec2 { x: vx, y: vy },
    }
}

#[test]
fn round_trip_dynamic_all() {
    for mass in 1..=4i8 {
        for vx in -3..=3i8 {
            for vy in -3..=3i8 {
                let c = dynamic(mass, vx, vy);
                assert_eq!(c.pack().unpack(), Some(Cell::Dynamic(c)));
            }
        }
    }
}

#[test]
fn round_trip_static_all() {
    for r in 0..=15i8 {
        let s = StaticCell { restitution: r };
        assert_eq!(s.pack().unpack(), Some(Cell::Static(s)));
    }
}

#[test]
fn none_unpacks_to_nothing() {
    assert_eq!(PackedCell::none().unpack(), None);
    assert!(!PackedCell::none().is_some());
}

#[test]
fn occupancy_predicates() {
    let d = dynamic(2, -1, 3).pack();
    assert!(d.is_some());
    assert!(d.is_dynamic());
    let s = StaticCell { restitution: 9 }.pack();
    assert!(s.is_some());
    assert!(!s.is_dynamic());
}

#[test]
fn sub_step_delta_spreads_the_move() {
    let c = dynamic(1, 3, -1);
    assert_eq!(c.sub_step_delta(0), IVec2 { x: 1, y: -1 });
    assert_eq!(c.sub_step_delta(1), IVec2 { x: 1, y: 0 });
    assert_eq!(c.sub_step_delta(2), IVec2 { x: 1, y: 0 });
    let z = dynamic(1, 0, 0);
    assert_eq!(z.sub_step_delta(0), IVec2 { x: 0, y: 0 });
    let m = dynamic(4, -2, 2);
    assert_eq!(m.sub_step_delta(1), IVec2 { x: -1, y: 1 });
    assert_eq!(m.sub_step_delta(2), IVec2 { x: 0, y: 0 });
}

#[test]
fn gravity_lowers_and_floors() {
    let mut c = dynamic(1, 2, 3);
    c.gravity();
    assert_eq!(c.velocity, I8Vec2 { x: 2, y: 2 });
    let mut f = dynamic(1, 0, -3);
    f.gravity();
    assert_eq!(f.velocity, I8Vec2 { x: 0, y: -3 });
    let mut g = dynamic(1, 0, 0);
    g.gravity();
    assert_eq!(g.velocity, I8Vec2 { x: 0, y: -1 });
}

#[test]
fn dynamic_collision_exact_values() {
    // equal masses head on: (0*4 + 2*1*(-4)) / 2 = -4, clamped to -3
    let mut a = dynamic(1, 3, 0);
    let b = dynamic(1, -3, 0);
    a.dynamic_collision_x(&b);
    assert_eq!(a.velocity.x, -3);

    // heavy against light and still: ((4-1)*3 + 0) / 5 = 1
    let mut h = dynamic(4, 2, 0);
    let l = dynamic(1, 0, 0);
    h.dynamic_collision_x(&l);
    assert_eq!(h.velocity.x, 1);

    // light hit by heavy: (-3*0 + 2*4*3) / 5 = 4, clamped to 3
    let mut l2 = dynamic(1, 0, 0);
    let h2 = dynamic(4, 2, 0);
    l2.dynamic_collision_x(&h2);
    assert_eq!(l2.velocity.x, 3);

    // truncation toward zero: v1=-1 gives -3/2 -> -1
    let mut t = dynamic(2, 0, -1);
    let u = dynamic(2, 0, 1);
    t.dynamic_collision_y(&u);
    assert_eq!(t.velocity.y, 1);
}

#[test]
fn static_collision_exact_values() {
    // -(3*7)/7 = -3
    let mut a = dynamic(1, 3, 0);
    a.static_collision_x(&StaticCell { restitution: 7 });
    assert_eq!(a.velocity.x, -3);

    // -(3*3)/7 = -1 (truncated)
    let mut b = dynamic(1, 3, 0);
    b.static_collision_x(&StaticCell { restitution: 3 });
    assert_eq!(b.velocity.x, -1);

    // -(-3*15)/7 = 6, clamped to 3
    let mut c = dynamic(1, 0, -3);
    c.static_collision_y(&StaticCell { restitution: 15 });
    assert_eq!(c.velocity.y, 3);

    // restitution 0 stops the cell on that axis
    let mut d = dynamic(1, -2, 0);
    d.static_collision_x(&StaticCell { restitution: 0 });
    assert_eq!(d.velocity.x, 0);
}

#[test]
fn two_way_collision_updates_in_turn() {
    // the second cell reacts to the first one's already-updated velocity
    let mut a = dynamic(1, 3, 0);
    let mut b = dynamic(1, -3, 0);
    a.two_way_dynamic_collision(&mut b, IVec2 { x: 1, y: 0 });
    assert_eq!(a.velocity.x, -3);
    assert_eq!(b.velocity.x, -3);
}

#[test]
fn collision_only_on_selected_axes() {
    let mut a = dynamic(1, 3, 2);
    let b = dynamic(1, -3, -2);
    a.dynamic_collision(&b, IVec2 { x: 1, y: 0 });
    assert_eq!(a.velocity.y, 2);
    assert_eq!(a.velocity.x, -3);
}

#[test]
fn dir_inverse_is_an_involution() {
    let dirs = [
        Dir::Left,
        Dir::Right,
        Dir::DownLeft,
        Dir::Down,
        Dir::DownRight,
        Dir::UpLeft,
        Dir::Up,
        Dir::UpRight,
    ];
    for (k, d) in dirs.iter().enumerate() {
        assert_eq!(d.index(), k);
        assert_eq!(d.inverse().inverse().index(), k);
        let o = d.offset();
        let io = d.inverse().offset();
        assert_eq!(o.x, -io.x);
        assert_eq!(o.y, -io.y);
    }
    assert_eq!(Dir::Left.inverse().index(), Dir::Right.index());
    assert_eq!(Dir::DownLeft.inverse().index(), Dir::UpRight.index());
}
