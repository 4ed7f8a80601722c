//! The one-byte cell representation and the per-cell physics.
//!
//! A `PackedCell` is a tagged union in a single byte. Bits 0..=2 hold the x
//! velocity as a three-bit two's complement value, or the sentinel -4 to mean
//! "static". Bits 3..=5 hold the y velocity the same way, or the sentinel -4
//! to mean "empty"; a static cell keeps its lowest y bit set so that it stays
//! distinguishable from empty. For a dynamic cell, bits 6..=7 hold the mass
//! minus one; for a static cell, bits 4..=7 hold the restitution.

use vstd::prelude::*;
use crate::I8Vec2;
use crate::IVec2;

verus! {

/// Largest velocity magnitude a dynamic cell can carry on one axis.
pub const MAX_SPEED: i8 = 3;

/// Largest restitution value a static cell can carry.
pub const MAX_RESTITUTION: i8 = 15;

/// A static obstacle: bounces dynamic cells with a `restitution / 7` scale.
#[derive(Clone, Copy, PartialEq, Eq, Structural, Debug)]
pub struct StaticCell {
    pub restitution: i8,
}

/// A moving particle with a small mass and a per-axis velocity.
#[derive(Clone, Copy, PartialEq, Eq, Structural, Debug)]
pub struct DynamicCell {
    pub mass: i8,
    pub velocity: I8Vec2,
}

/// An occupied cell.
#[derive(Clone, Copy, PartialEq, Eq, Structural, Debug)]
pub enum Cell {
    Static(StaticCell),
    Dynamic(DynamicCell),
}

impl StaticCell {
    pub open spec fn wf(self) -> bool {
        0 <= self.restitution <= MAX_RESTITUTION
    }
}

impl DynamicCell {
    pub open spec fn wf(self) -> bool {
        &&& 1 <= self.mass <= 4
        &&& -MAX_SPEED <= self.velocity.x <= MAX_SPEED
        &&& -MAX_SPEED <= self.velocity.y <= MAX_SPEED
    }
}

impl Cell {
    pub open spec fn wf(self) -> bool {
        match self {
            Cell::Static(s) => s.wf(),
            Cell::Dynamic(d) => d.wf(),
        }
    }
}

/// One cell state in a single byte.
#[derive(Clone, Copy, PartialEq, Eq, Structural, Debug)]
pub struct PackedCell {
    bits: u8,
}

/// Decoding of a three-bit two's complement field.
spec fn dec3(f: u8) -> i8
    recommends
        f < 8,
{
    if f < 4 { f as i8 } else { (f - 8) as i8 }
}

/// Encoding of a velocity component into a three-bit two's complement field.
spec fn enc3(v: i8) -> u8
    recommends
        -MAX_SPEED <= v <= MAX_SPEED,
{
    if v >= 0 { v as u8 } else { (v + 8) as u8 }
}

impl PackedCell {
    /// What this byte denotes: empty, or one occupied cell.
    pub closed spec fn spec_unpack(self) -> Option<Cell> {
        let xf = self.bits & 7;
        let yf = (self.bits >> 3) & 7;
        if yf == 4 {
            None
        } else if xf == 4 {
            Some(Cell::Static(StaticCell { restitution: (self.bits >> 4) as i8 }))
        } else {
            Some(Cell::Dynamic(DynamicCell {
                mass: ((self.bits >> 6) + 1) as i8,
                velocity: I8Vec2 { x: dec3(xf), y: dec3(yf) },
            }))
        }
    }

    pub open spec fn spec_is_some(self) -> bool {
        self.spec_unpack() is Some
    }

    pub open spec fn spec_is_dynamic(self) -> bool {
        self.spec_unpack() matches Some(Cell::Dynamic(_))
    }

    /// The empty byte.
    pub fn none() -> (p: PackedCell)
        ensures
            p == spec_none(),
    {
        PackedCell { bits: 36 }
    }

    /// Decode the byte. Every byte decodes to the empty state or to one
    /// well-formed cell, so the velocity bounds need no side condition.
    pub fn unpack(self) -> (c: Option<Cell>)
        ensures
            c == self.spec_unpack(),
            c matches Some(cc) ==> cc.wf(),
    {
        proof {
            lemma_unpack_wf(self);
        }
        let b = self.bits;
        let xf = b & 7;
        let yf = (b >> 3) & 7;
        assert(xf < 8 && yf < 8 && (b >> 6) < 4 && (b >> 4) < 16) by (bit_vector)
            requires
                xf == b & 7 && yf == (b >> 3) & 7,
        ;
        if yf == 4 {
            None
        } else if xf == 4 {
            Some(Cell::Static(StaticCell { restitution: (b >> 4) as i8 }))
        } else {
            let vx = if xf < 4 { xf as i8 } else { (xf as i8) - 8 };
            let vy = if yf < 4 { yf as i8 } else { (yf as i8) - 8 };
            Some(Cell::Dynamic(DynamicCell {
                mass: ((b >> 6) as i8) + 1,
                velocity: I8Vec2 { x: vx, y: vy },
            }))
        }
    }

    /// Whether the byte holds a cell at all.
    pub fn is_some(self) -> (r: bool)
        ensures
            r == self.spec_is_some(),
    {
        (self.bits >> 3) & 7 != 4
    }

    /// Whether the byte holds a dynamic cell. Meaningful only on occupied
    /// bytes: the empty byte carries the static sentinel in its x field, so
    /// this alone does not distinguish empty from dynamic.
    pub fn is_dynamic(self) -> (r: bool)
        ensures
            self.spec_is_some() ==> r == self.spec_is_dynamic(),
    {
        self.bits & 7 != 4
    }
}

/// The empty byte: x and y fields both hold the sentinel -4.
pub closed spec fn spec_none() -> PackedCell {
    PackedCell { bits: 36 }
}

/// The byte encoding a given static cell.
pub closed spec fn spec_pack_static(s: StaticCell) -> PackedCell {
    PackedCell { bits: (((s.restitution as u8) << 4) | 12) as u8 }
}

/// The byte encoding a given dynamic cell.
pub closed spec fn spec_pack_dynamic(d: DynamicCell) -> PackedCell {
    PackedCell {
        bits: ((((d.mass - 1) as u8) << 6) | (enc3(d.velocity.y) << 3) | enc3(
            d.velocity.x,
        )) as u8,
    }
}

/// The empty byte denotes no cell.
pub broadcast proof fn lemma_unpack_none()
    ensures
        #[trigger] spec_none().spec_unpack() is None,
{
    assert((36u8 >> 3) & 7 == 4) by (bit_vector);
}

/// Whatever a byte decodes to is well formed.
pub broadcast proof fn lemma_unpack_wf(p: PackedCell)
    ensures
        #[trigger] p.spec_unpack() matches Some(c) ==> c.wf(),
{
    let b = p.bits;
    assert(b & 7 < 8 && (b >> 3) & 7 < 8 && b >> 4 < 16 && b >> 6 < 4) by (bit_vector);
}

/// Packing a static cell round-trips.
pub broadcast proof fn lemma_unpack_pack_static(s: StaticCell)
    requires
        s.wf(),
    ensures
        #[trigger] spec_pack_static(s).spec_unpack() == Some(Cell::Static(s)),
{
    let r = s.restitution as u8;
    assert((((r << 4) | 12) & 7 == 4) && ((((r << 4) | 12) >> 3) & 7 != 4) && (((r << 4) | 12)
        >> 4 == r)) by (bit_vector)
        requires
            r < 16,
    ;
}

/// Packing a dynamic cell round-trips.
pub broadcast proof fn lemma_unpack_pack_dynamic(d: DynamicCell)
    requires
        d.wf(),
    ensures
        #[trigger] spec_pack_dynamic(d).spec_unpack() == Some(Cell::Dynamic(d)),
{
    let xe = enc3(d.velocity.x);
    let ye = enc3(d.velocity.y);
    let mm = (d.mass - 1) as u8;
    let b = ((mm << 6) | (ye << 3) | xe) as u8;
    assert(b & 7 == xe && (b >> 3) & 7 == ye && b >> 6 == mm) by (bit_vector)
        requires
            xe < 8 && ye < 8 && mm < 4 && b == ((mm << 6) | (ye << 3) | xe) as u8,
    ;
    assert(dec3(enc3(d.velocity.x)) == d.velocity.x);
    assert(dec3(enc3(d.velocity.y)) == d.velocity.y);
}

/// The byte encoding any given cell.
pub open spec fn spec_pack_cell(c: Cell) -> PackedCell {
    match c {
        Cell::Static(s) => spec_pack_static(s),
        Cell::Dynamic(d) => spec_pack_dynamic(d),
    }
}

/// Round trip: every well-formed cell survives packing and unpacking
/// unchanged.
pub proof fn lemma_pack_round_trip(c: Cell)
    requires
        c.wf(),
    ensures
        (match c {
            Cell::Static(s) => spec_pack_static(s),
            Cell::Dynamic(d) => spec_pack_dynamic(d),
        }).spec_unpack() == Some(c),
{
    match c {
        Cell::Static(s) => lemma_unpack_pack_static(s),
        Cell::Dynamic(d) => lemma_unpack_pack_dynamic(d),
    }
}

pub broadcast group codec_laws {
    lemma_unpack_none,
    lemma_unpack_wf,
    lemma_unpack_pack_static,
    lemma_unpack_pack_dynamic,
}

impl StaticCell {
    /// Encode this static cell into its byte.
    pub fn pack(self) -> (p: PackedCell)
        requires
            self.wf(),
        ensures
            p == spec_pack_static(self),
            p.spec_unpack() == Some(Cell::Static(self)),
    {
        proof {
            lemma_unpack_pack_static(self);
        }
        let r = self.restitution as u8;
        PackedCell { bits: (r << 4) | 12 }
    }
}

/// Truncating division (rounding toward zero), for a positive divisor.
pub open spec fn tdiv(a: int, b: int) -> int
    recommends
        b > 0,
{
    if a >= 0 { a / b } else { -((-a) / b) }
}

/// Clamp a velocity component to the allowed range.
pub open spec fn clamp3(v: int) -> int {
    if v < -MAX_SPEED { -MAX_SPEED as int } else if v > MAX_SPEED { MAX_SPEED as int } else { v }
}

/// The raw (unclamped) one-axis elastic collision response of a cell with
/// velocity `v1` and mass `m1` against one with velocity `v2` and mass `m2`.
pub open spec fn spec_collision_raw(v1: int, m1: int, v2: int, m2: int) -> int {
    let w1 = tdiv(v1 * 3, 2);
    let w2 = tdiv(v2 * 3, 2);
    tdiv((m1 - m2) * w1 + 2 * m2 * w2, m1 + m2)
}

/// The clamped one-axis dynamic collision response.
pub open spec fn spec_collision_axis(v1: int, m1: int, v2: int, m2: int) -> int {
    clamp3(spec_collision_raw(v1, m1, v2, m2))
}

/// The clamped one-axis static collision response: reflect and scale by
/// `r / 7`.
pub open spec fn spec_static_axis(v: int, r: int) -> int {
    clamp3(tdiv(-v * r, 7))
}

/// Truncating division on machine integers.
fn div_trunc(a: i8, b: i8) -> (q: i8)
    requires
        b > 0,
        a > -128,
    ensures
        q as int == tdiv(a as int, b as int),
{
    if a >= 0 {
        ((a as u8) / (b as u8)) as i8
    } else {
        let n = ((-a) as u8) / (b as u8);
        -(n as i8)
    }
}

/// One-axis dynamic collision, unclamped.
fn dynamic_collision(v1: i8, m1: i8, v2: i8, m2: i8) -> (r: i8)
    requires
        -MAX_SPEED <= v1 <= MAX_SPEED,
        -MAX_SPEED <= v2 <= MAX_SPEED,
        1 <= m1 <= 4,
        1 <= m2 <= 4,
    ensures
        r as int == spec_collision_raw(v1 as int, m1 as int, v2 as int, m2 as int),
{
    let w1 = div_trunc(v1 * 3, 2);
    let w2 = div_trunc(v2 * 3, 2);
    assert(-4 <= w1 as int <= 4 && -4 <= w2 as int <= 4);
    let a = m1 - m2;
    proof {
        assert(-12 <= (a as int) * (w1 as int) <= 12) by (nonlinear_arith)
            requires
                -3 <= a as int <= 3 && -4 <= w1 as int <= 4,
        ;
        assert(-32 <= 2 * (m2 as int) * (w2 as int) <= 32) by (nonlinear_arith)
            requires
                1 <= m2 as int <= 4 && -4 <= w2 as int <= 4,
        ;
    }
    let t1 = a * w1;
    let t2 = 2 * m2 * w2;
    let num = t1 + t2;
    div_trunc(num, m1 + m2)
}

/// One-axis static collision, unclamped.
fn static_collision(v: i8, r: i8) -> (q: i8)
    requires
        -MAX_SPEED <= v <= MAX_SPEED,
        0 <= r <= MAX_RESTITUTION,
    ensures
        q as int == tdiv(-(v as int) * r as int, 7),
{
    let nv = -v;
    proof {
        assert(-45 <= (nv as int) * (r as int) <= 45) by (nonlinear_arith)
            requires
                -3 <= nv as int <= 3 && 0 <= r as int <= 15,
        ;
    }
    let num = nv * r;
    div_trunc(num, 7)
}

/// Clamp to the allowed velocity range.
fn clamp_speed(v: i8) -> (r: i8)
    ensures
        r as int == clamp3(v as int),
{
    if v < -MAX_SPEED {
        -MAX_SPEED
    } else if v > MAX_SPEED {
        MAX_SPEED
    } else {
        v
    }
}

/// The change gravity makes to a y velocity: down by one, floored.
pub open spec fn spec_gravity_vel(v: int) -> int {
    if v - 1 < -MAX_SPEED { -MAX_SPEED as int } else { v - 1 }
}

/// The byte after a gravity pass: dynamic cells lose one y velocity
/// (floored), everything else is untouched.
pub open spec fn spec_gravity_cell(b: PackedCell) -> PackedCell {
    match b.spec_unpack() {
        Some(Cell::Dynamic(d)) => spec_pack_dynamic(
            DynamicCell {
                mass: d.mass,
                velocity: I8Vec2 { x: d.velocity.x, y: spec_gravity_vel(d.velocity.y as int) as i8 },
            },
        ),
        _ => b,
    }
}

/// The movement contributed on one axis at sub-step `n` by velocity `v`.
pub open spec fn spec_axis_delta(v: int, n: int) -> int {
    if v > n { 1 } else if v < -n { -1 } else { 0 }
}

impl DynamicCell {
    /// The cell after a one-sided dynamic collision on the axes selected by a
    /// nonzero `dx` / `dy`.
    pub open spec fn spec_dynamic_collision(self, other: DynamicCell, dx: int, dy: int) -> DynamicCell {
        let nx = if dx != 0 {
            clamp3(
                spec_collision_raw(
                    self.velocity.x as int,
                    self.mass as int,
                    other.velocity.x as int,
                    other.mass as int,
                ),
            ) as i8
        } else {
            self.velocity.x
        };
        let ny = if dy != 0 {
            clamp3(
                spec_collision_raw(
                    self.velocity.y as int,
                    self.mass as int,
                    other.velocity.y as int,
                    other.mass as int,
                ),
            ) as i8
        } else {
            self.velocity.y
        };
        DynamicCell { mass: self.mass, velocity: I8Vec2 { x: nx, y: ny } }
    }

    /// The cell after a static collision on the axes selected by `dx` / `dy`.
    pub open spec fn spec_static_collision(self, other: StaticCell, dx: int, dy: int) -> DynamicCell {
        let nx = if dx != 0 {
            spec_static_axis(self.velocity.x as int, other.restitution as int) as i8
        } else {
            self.velocity.x
        };
        let ny = if dy != 0 {
            spec_static_axis(self.velocity.y as int, other.restitution as int) as i8
        } else {
            self.velocity.y
        };
        DynamicCell { mass: self.mass, velocity: I8Vec2 { x: nx, y: ny } }
    }

    /// Encode this dynamic cell into its byte.
    pub fn pack(self) -> (p: PackedCell)
        requires
            self.wf(),
        ensures
            p == spec_pack_dynamic(self),
            p.spec_unpack() == Some(Cell::Dynamic(self)),
    {
        proof {
            lemma_unpack_pack_dynamic(self);
        }
        let xe = if self.velocity.x >= 0 {
            self.velocity.x as u8
        } else {
            (self.velocity.x + 8) as u8
        };
        let ye = if self.velocity.y >= 0 {
            self.velocity.y as u8
        } else {
            (self.velocity.y + 8) as u8
        };
        let mm = (self.mass - 1) as u8;
        PackedCell { bits: (mm << 6) | (ye << 3) | xe }
    }

    /// The per-axis one-cell movement this cell contributes at sub-step `n`:
    /// the sign of the velocity where its magnitude exceeds `n`, else zero.
    pub fn sub_step_delta(&self, n: u8) -> (d: IVec2)
        requires
            self.wf(),
            n < 3,
        ensures
            d.x == spec_axis_delta(self.velocity.x as int, n as int),
            d.y == spec_axis_delta(self.velocity.y as int, n as int),
    {
        let ni = n as i8;
        let dx: i32 = if self.velocity.x > ni {
            1
        } else if self.velocity.x < -ni {
            -1
        } else {
            0
        };
        let dy: i32 = if self.velocity.y > ni {
            1
        } else if self.velocity.y < -ni {
            -1
        } else {
            0
        };
        IVec2 { x: dx, y: dy }
    }

    /// Update only this cell from a collision against `other`, on the axes
    /// selected by `delta`.
    pub fn dynamic_collision(&mut self, other: &DynamicCell, delta: IVec2)
        requires
            old(self).wf(),
            other.wf(),
        ensures
            *final(self) == old(self).spec_dynamic_collision(*other, delta.x as int, delta.y as int),
            final(self).wf(),
            final(self).mass == old(self).mass,
    {
        if delta.x != 0 {
            self.dynamic_collision_x(other);
        }
        if delta.y != 0 {
            self.dynamic_collision_y(other);
        }
    }

    /// One-sided dynamic collision on the x axis alone.
    pub fn dynamic_collision_x(&mut self, other: &DynamicCell)
        requires
            old(self).wf(),
            other.wf(),
        ensures
            *final(self) == old(self).spec_dynamic_collision(*other, 1, 0),
            final(self).wf(),
    {
        let v = dynamic_collision(self.velocity.x, self.mass, other.velocity.x, other.mass);
        self.velocity.x = clamp_speed(v);
    }

    /// One-sided dynamic collision on the y axis alone.
    pub fn dynamic_collision_y(&mut self, other: &DynamicCell)
        requires
            old(self).wf(),
            other.wf(),
        ensures
            *final(self) == old(self).spec_dynamic_collision(*other, 0, 1),
            final(self).wf(),
    {
        let v = dynamic_collision(self.velocity.y, self.mass, other.velocity.y, other.mass);
        self.velocity.y = clamp_speed(v);
    }

    /// Static collision on the axes selected by `delta`.
    pub fn static_collision(&mut self, other: &StaticCell, delta: IVec2)
        requires
            old(self).wf(),
            other.wf(),
        ensures
            *final(self) == old(self).spec_static_collision(*other, delta.x as int, delta.y as int),
            final(self).wf(),
            final(self).mass == old(self).mass,
    {
        if delta.x != 0 {
            self.static_collision_x(other);
        }
        if delta.y != 0 {
            self.static_collision_y(other);
        }
    }

    /// Static collision on the x axis alone.
    pub fn static_collision_x(&mut self, other: &StaticCell)
        requires
            old(self).wf(),
            other.wf(),
        ensures
            *final(self) == old(self).spec_static_collision(*other, 1, 0),
            final(self).wf(),
    {
        let v = static_collision(self.velocity.x, other.restitution);
        self.velocity.x = clamp_speed(v);
    }

    /// Static collision on the y axis alone.
    pub fn static_collision_y(&mut self, other: &StaticCell)
        requires
            old(self).wf(),
            other.wf(),
        ensures
            *final(self) == old(self).spec_static_collision(*other, 0, 1),
            final(self).wf(),
    {
        let v = static_collision(self.velocity.y, other.restitution);
        self.velocity.y = clamp_speed(v);
    }

    /// Gravity lowers the y velocity by exactly one per tick, floored at the
    /// maximum downward speed.
    pub fn gravity(&mut self)
        requires
            old(self).wf(),
        ensures
            final(self).mass == old(self).mass,
            final(self).velocity.x == old(self).velocity.x,
            final(self).velocity.y as int == spec_gravity_vel(old(self).velocity.y as int),
            final(self).wf(),
    {
        if self.velocity.y - 1 >= -MAX_SPEED {
            self.velocity.y = self.velocity.y - 1;
        } else {
            self.velocity.y = -MAX_SPEED;
        }
    }
}

/// The pair after a symmetric two-way dynamic collision on the axes selected
/// by `dx` / `dy`: each axis updates this cell first and then the other cell
/// against the already-updated value, as the push arbitration does.
pub open spec fn spec_two_way(c: DynamicCell, o: DynamicCell, dx: int, dy: int) -> (DynamicCell, DynamicCell) {
    let cd = if dx != 0 {
        let c1 = c.spec_dynamic_collision(o, 1, 0);
        let o1 = o.spec_dynamic_collision(c1, 1, 0);
        (c1, o1)
    } else {
        (c, o)
    };
    if dy != 0 {
        let c2 = cd.0.spec_dynamic_collision(cd.1, 0, 1);
        let o2 = cd.1.spec_dynamic_collision(c2, 0, 1);
        (c2, o2)
    } else {
        cd
    }
}

impl DynamicCell {
    /// Symmetric collision between this cell and another, both updated.
    pub fn two_way_dynamic_collision(&mut self, other: &mut DynamicCell, delta: IVec2)
        requires
            old(self).wf(),
            old(other).wf(),
        ensures
            (*final(self), *final(other)) == spec_two_way(
                *old(self),
                *old(other),
                delta.x as int,
                delta.y as int,
            ),
            final(self).wf(),
            final(other).wf(),
    {
        if delta.x != 0 {
            self.dynamic_collision_x(other);
            other.dynamic_collision_x(self);
        }
        if delta.y != 0 {
            self.dynamic_collision_y(other);
            other.dynamic_collision_y(self);
        }
    }
}

} // verus!
