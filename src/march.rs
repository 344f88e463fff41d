//! Grid traversal of a ray (Amanatides and Woo): the ordered cells that a
//! ray passes through, with the face crossed to enter each one.
//!
//! The ray's origin is given in fixed point (`SUBCELL` units per block) and
//! its direction as integers of any common scale. Every crossing time is a
//! rational number, compared exactly by cross-multiplication.
use vstd::prelude::*;
use crate::coords::{Fixed3, WorldCoordinate, SUBCELL, floor_div_mod};

verus! {

/// A march may take at most this many steps; it keeps every counter in range.
pub const MAX_MARCH_STEPS: u64 = 0x1_0000_0000;

/// Bound on the magnitude of a starting cell: `|floor(i64 / SUBCELL)| <= 2^47`.
pub const START_CELL_LIMIT: i64 = 0x8000_0000_0000;

/// The traversal along one axis, as mathematical values.
///
/// The ray crosses its next boundary on this axis at time `t / speed`;
/// a `speed` of zero means it never does.
pub ghost struct AxisModel {
    pub pos: int,
    pub t: int,
    pub speed: int,
    pub step: int,
}

/// The traversal state of a march: one axis model per coordinate axis and
/// the number of steps taken so far.
pub ghost struct MarchModel {
    pub x: AxisModel,
    pub y: AxisModel,
    pub z: AxisModel,
    pub steps: int,
}

/// Sign of an integer.
pub open spec fn sign(d: int) -> int {
    if d > 0 {
        1
    } else if d < 0 {
        -1
    } else {
        0
    }
}

/// Magnitude of an integer.
pub open spec fn magnitude(d: int) -> int {
    if d < 0 {
        -d
    } else {
        d
    }
}

/// The axis model of a ray starting at fixed-point coordinate `o` and moving
/// with speed `d` along that axis.
pub open spec fn axis_start(o: int, d: int) -> AxisModel {
    let frac = o % (SUBCELL as int);
    AxisModel {
        pos: o / (SUBCELL as int),
        t: if d > 0 {
            if frac == 0 {
                0
            } else {
                SUBCELL - frac
            }
        } else if d < 0 {
            frac
        } else {
            0
        },
        speed: magnitude(d),
        step: sign(d),
    }
}

/// The state of a freshly built march for a ray.
pub open spec fn march_start(origin: Fixed3, dir: Fixed3) -> MarchModel {
    MarchModel {
        x: axis_start(origin.x as int, dir.x as int),
        y: axis_start(origin.y as int, dir.y as int),
        z: axis_start(origin.z as int, dir.z as int),
        steps: 0,
    }
}

/// Whether the next crossing on `a` comes no later than the next on `b`.
pub open spec fn crosses_no_later(a: AxisModel, b: AxisModel) -> bool {
    if a.speed == 0 {
        b.speed == 0
    } else if b.speed == 0 {
        true
    } else {
        a.t * b.speed <= b.t * a.speed
    }
}

/// One step along an axis.
pub open spec fn axis_advanced(a: AxisModel) -> AxisModel {
    AxisModel {
        pos: a.pos + a.step,
        t: if a.speed > 0 {
            a.t + SUBCELL
        } else {
            a.t
        },
        ..a
    }
}

/// The normal of the face entered when stepping along an axis.
pub open spec fn axis_normal(a: AxisModel) -> int {
    -a.step
}

impl AxisModel {
    pub open spec fn consistent(self) -> bool {
        &&& self.t >= 0
        &&& self.speed >= 0
        &&& self.step == sign(self.speed) || self.step == -sign(self.speed)
    }
}

impl MarchModel {
    /// Index of the axis crossed next: the first whose crossing time is least.
    pub open spec fn next_axis(self) -> int {
        if crosses_no_later(self.x, self.y) && crosses_no_later(self.x, self.z) {
            0
        } else if crosses_no_later(self.y, self.z) {
            1
        } else {
            2
        }
    }

    /// The state after one step.
    pub open spec fn advanced(self) -> MarchModel {
        let a = self.next_axis();
        MarchModel {
            x: if a == 0 { axis_advanced(self.x) } else { self.x },
            y: if a == 1 { axis_advanced(self.y) } else { self.y },
            z: if a == 2 { axis_advanced(self.z) } else { self.z },
            steps: self.steps + 1,
        }
    }

    /// The state after `n` steps.
    pub open spec fn iterate(self, n: nat) -> MarchModel
        decreases n,
    {
        if n == 0 {
            self
        } else {
            self.iterate((n - 1) as nat).advanced()
        }
    }

    /// Whether `c` is the current cell.
    pub open spec fn at(self, c: WorldCoordinate) -> bool {
        c.x == self.x.pos && c.y == self.y.pos && c.z == self.z.pos
    }

    /// Whether `n` is the normal of the face entered by the next step.
    pub open spec fn next_normal_is(self, n: WorldCoordinate) -> bool {
        let a = self.next_axis();
        &&& n.x == (if a == 0 { axis_normal(self.x) } else { 0 })
        &&& n.y == (if a == 1 { axis_normal(self.y) } else { 0 })
        &&& n.z == (if a == 2 { axis_normal(self.z) } else { 0 })
    }

    /// Whether the ray moves at all.
    pub open spec fn moving(self) -> bool {
        self.x.speed > 0 || self.y.speed > 0 || self.z.speed > 0
    }

    pub open spec fn consistent(self) -> bool {
        self.x.consistent() && self.y.consistent() && self.z.consistent()
    }
}

/// Traversal along one axis. `t / speed` is the time of the next boundary
/// crossing, in units where the ray moves `speed` fixed-point units along
/// this axis per unit of time.
#[derive(Clone, Copy, Debug)]
struct AxisMarch {
    pos: i64,
    t: u64,
    speed: u64,
    step: i64,
}

impl AxisMarch {
    spec fn model(self) -> AxisModel {
        AxisModel { pos: self.pos as int, t: self.t as int, speed: self.speed as int, step: self.step as int }
    }

    spec fn wf(self, steps: int) -> bool {
        &&& self.speed == 0 ==> self.step == 0
        &&& self.speed > 0 ==> (self.step == 1 || self.step == -1)
        &&& self.t <= SUBCELL * (steps + 1)
        &&& -START_CELL_LIMIT - steps <= self.pos <= START_CELL_LIMIT + steps
    }

    fn start(o: i64, d: i64) -> (r: AxisMarch)
        ensures
            r.model() == axis_start(o as int, d as int),
            r.wf(0),
    {
        let (pos, frac) = floor_div_mod(o, SUBCELL);
        assert(-START_CELL_LIMIT <= pos <= START_CELL_LIMIT) by (nonlinear_arith)
            requires o == SUBCELL * pos + frac, 0 <= frac < SUBCELL, i64::MIN <= o <= i64::MAX;
        proof {
            vstd::arithmetic::div_mod::lemma_fundamental_div_mod(o as int, SUBCELL as int);
        }
        let t = unit_step(o, d);
        let speed: u64 = if d < 0 { (-(d + 1)) as u64 + 1 } else { d as u64 };
        let step: i64 = if d > 0 { 1 } else if d < 0 { -1 } else { 0 };
        AxisMarch { pos, t: t as u64, speed, step }
    }

    /// Whether this axis crosses no later than `other`.
    fn no_later_than(&self, other: &AxisMarch, steps: u64) -> (r: bool)
        requires
            self.wf(steps as int),
            other.wf(steps as int),
            steps <= MAX_MARCH_STEPS,
        ensures
            r == crosses_no_later(self.model(), other.model()),
    {
        if self.speed == 0 {
            other.speed == 0
        } else if other.speed == 0 {
            true
        } else {
            let a: u128 = self.t as u128;
            let b: u128 = other.t as u128;
            let sa: u128 = self.speed as u128;
            let sb: u128 = other.speed as u128;
            assert(SUBCELL * (steps + 1) <= 0x1_0000_0001_0000) by (nonlinear_arith)
                requires steps <= MAX_MARCH_STEPS;
            assert(a * sb <= 0x1_0000_0001_0000u128 * 0x1_0000_0000_0000_0000u128) by (nonlinear_arith)
                requires a <= 0x1_0000_0001_0000u128, sb <= 0x1_0000_0000_0000_0000u128;
            assert(b * sa <= 0x1_0000_0001_0000u128 * 0x1_0000_0000_0000_0000u128) by (nonlinear_arith)
                requires b <= 0x1_0000_0001_0000u128, sa <= 0x1_0000_0000_0000_0000u128;
            a * sb <= b * sa
        }
    }

    /// One step along this axis.
    fn advance(&mut self, steps: u64)
        requires
            old(self).wf(steps as int),
            steps < MAX_MARCH_STEPS,
        ensures
            final(self).model() == axis_advanced(old(self).model()),
            final(self).wf(steps + 1),
    {
        self.pos = self.pos + self.step;
        if self.speed > 0 {
            self.t = self.t + SUBCELL as u64;
        }
    }
}

/// Distance, in fixed-point units, from `start` to the next block boundary
/// in the direction of travel given by the sign of `dir`; zero when `start`
/// lies on a boundary or `dir` is zero. The ray reaches that boundary at time
/// `unit_step(start, dir) / |dir|`.
pub fn unit_step(start: i64, dir: i64) -> (r: i64)
    ensures
        r == axis_start(start as int, dir as int).t,
        0 <= r < SUBCELL,
        dir > 0 ==> (start + r) % (SUBCELL as int) == 0,
        dir < 0 ==> (start - r) % (SUBCELL as int) == 0,
{
    let (_, frac) = floor_div_mod(start, SUBCELL);
    proof {
        vstd::arithmetic::div_mod::lemma_fundamental_div_mod(start as int, SUBCELL as int);
        let q = start as int / SUBCELL as int;
        if dir > 0 && frac != 0 {
            vstd::arithmetic::div_mod::lemma_fundamental_div_mod_converse(
                start + SUBCELL - frac,
                SUBCELL as int,
                q + 1,
                0,
            );
        }
        if dir > 0 && frac == 0 {
            vstd::arithmetic::div_mod::lemma_fundamental_div_mod_converse(start as int, SUBCELL as int, q, 0);
        }
        if dir < 0 {
            vstd::arithmetic::div_mod::lemma_fundamental_div_mod_converse(start - frac, SUBCELL as int, q, 0);
        }
    }
    if dir > 0 {
        if frac == 0 {
            0
        } else {
            SUBCELL - frac
        }
    } else if dir < 0 {
        frac
    } else {
        0
    }
}

/// A ray marching through the block grid, one cell per step.
///
/// The sequence of cells is unbounded: callers bound the number of steps.
#[derive(Clone, Copy, Debug)]
pub struct VoxelMarch {
    x: AxisMarch,
    y: AxisMarch,
    z: AxisMarch,
    steps: u64,
}

impl View for VoxelMarch {
    type V = MarchModel;

    closed spec fn view(&self) -> MarchModel {
        MarchModel { x: self.x.model(), y: self.y.model(), z: self.z.model(), steps: self.steps as int }
    }
}

impl VoxelMarch {
    /// The fields' ranges that keep every step free of overflow.
    pub closed spec fn wf(&self) -> bool {
        &&& self.steps <= MAX_MARCH_STEPS
        &&& self.x.wf(self.steps as int)
        &&& self.y.wf(self.steps as int)
        &&& self.z.wf(self.steps as int)
    }

    pub proof fn lemma_wf_consistent(&self)
        requires
            self.wf(),
        ensures
            self@.consistent(),
            0 <= self@.steps <= MAX_MARCH_STEPS,
    {
    }

    /// A march for the ray from `origin` (fixed point) along `dir`.
    /// Its current cell is the cell that holds the origin.
    pub fn new(origin: &Fixed3, dir: &Fixed3) -> (r: VoxelMarch)
        ensures
            r.wf(),
            r@ == march_start(*origin, *dir),
    {
        VoxelMarch {
            x: AxisMarch::start(origin.x, dir.x),
            y: AxisMarch::start(origin.y, dir.y),
            z: AxisMarch::start(origin.z, dir.z),
            steps: 0,
        }
    }

    /// Steps to the next cell; returns it with the normal of the face
    /// crossed to enter it, which points back toward the ray's origin.
    pub fn next(&mut self) -> (r: (WorldCoordinate, WorldCoordinate))
        requires
            old(self).wf(),
            old(self)@.steps < MAX_MARCH_STEPS,
        ensures
            final(self).wf(),
            final(self)@ == old(self)@.advanced(),
            final(self)@.at(r.0),
            old(self)@.next_normal_is(r.1),
            old(self)@.moving() ==> face_adjacent(old(self)@, final(self)@),
            old(self)@.x.speed == 0 ==> final(self)@.x.pos == old(self)@.x.pos && r.1.x == 0,
            old(self)@.y.speed == 0 ==> final(self)@.y.pos == old(self)@.y.pos && r.1.y == 0,
            old(self)@.z.speed == 0 ==> final(self)@.z.pos == old(self)@.z.pos && r.1.z == 0,
    {
        proof {
            self.lemma_wf_consistent();
            if self@.moving() {
                lemma_step_moves_one_axis(self@);
            }
        }
        let s = self.steps;
        let xy = self.x.no_later_than(&self.y, s);
        let xz = self.x.no_later_than(&self.z, s);
        let yz = self.y.no_later_than(&self.z, s);
        proof {
            lemma_axis_wf_grows(self.x, s as int);
            lemma_axis_wf_grows(self.y, s as int);
            lemma_axis_wf_grows(self.z, s as int);
        }
        let mut normal = WorldCoordinate { x: 0, y: 0, z: 0 };
        if xy && xz {
            normal.x = -self.x.step;
            self.x.advance(s);
        } else if yz {
            normal.y = -self.y.step;
            self.y.advance(s);
        } else {
            normal.z = -self.z.step;
            self.z.advance(s);
        }
        self.steps = s + 1;
        (WorldCoordinate { x: self.x.pos, y: self.y.pos, z: self.z.pos }, normal)
    }

    /// The current cell: the last one stepped to, or the origin's cell.
    pub fn position(&self) -> (r: WorldCoordinate)
        ensures
            self@.at(r),
    {
        WorldCoordinate { x: self.x.pos, y: self.y.pos, z: self.z.pos }
    }

    /// Number of steps taken.
    pub fn steps(&self) -> (r: u64)
        ensures
            r == self@.steps,
    {
        self.steps
    }

    /// Whether the direction is non-zero, so that each step changes cell.
    pub fn is_moving(&self) -> (r: bool)
        ensures
            r == self@.moving(),
    {
        self.x.speed > 0 || self.y.speed > 0 || self.z.speed > 0
    }
}

/// Whether `b`'s cell differs from `a`'s by exactly one unit along exactly
/// one axis.
pub open spec fn face_adjacent(a: MarchModel, b: MarchModel) -> bool {
    magnitude(b.x.pos - a.x.pos) + magnitude(b.y.pos - a.y.pos) + magnitude(b.z.pos - a.z.pos) == 1
}

/// Stepping keeps each axis's speed and step direction, and the state's
/// consistency.
pub proof fn lemma_iterate_keeps_direction(m: MarchModel, n: nat)
    requires
        m.consistent(),
    ensures
        m.iterate(n).consistent(),
        m.iterate(n).x.speed == m.x.speed && m.iterate(n).x.step == m.x.step,
        m.iterate(n).y.speed == m.y.speed && m.iterate(n).y.step == m.y.step,
        m.iterate(n).z.speed == m.z.speed && m.iterate(n).z.step == m.z.step,
        m.iterate(n).steps == m.steps + n,
    decreases n,
{
    if n > 0 {
        lemma_iterate_keeps_direction(m, (n - 1) as nat);
    }
}

/// A moving ray crosses next along an axis on which it moves, so each step
/// changes exactly that axis, by its step of one.
pub proof fn lemma_step_moves_one_axis(m: MarchModel)
    requires
        m.consistent(),
        m.moving(),
    ensures
        m.next_axis() == 0 ==> m.x.speed > 0 && (m.x.step == 1 || m.x.step == -1),
        m.next_axis() == 1 ==> m.y.speed > 0 && (m.y.step == 1 || m.y.step == -1),
        m.next_axis() == 2 ==> m.z.speed > 0 && (m.z.step == 1 || m.z.step == -1),
        face_adjacent(m, m.advanced()),
{
}

/// A march's state at the start of a ray is consistent.
pub proof fn lemma_start_consistent(origin: Fixed3, dir: Fixed3)
    ensures
        march_start(origin, dir).consistent(),
        march_start(origin, dir).moving() <==> (dir.x != 0 || dir.y != 0 || dir.z != 0),
{
    assert(SUBCELL > 0);
    vstd::arithmetic::div_mod::lemma_mod_bound(origin.x as int, SUBCELL as int);
    vstd::arithmetic::div_mod::lemma_mod_bound(origin.y as int, SUBCELL as int);
    vstd::arithmetic::div_mod::lemma_mod_bound(origin.z as int, SUBCELL as int);
}

/// For a ray with a non-zero direction, every cell a march steps to differs
/// from the cell before it by exactly one unit along exactly one axis.
pub proof fn lemma_march_steps_to_adjacent_cell(origin: Fixed3, dir: Fixed3, n: nat)
    requires
        dir.x != 0 || dir.y != 0 || dir.z != 0,
    ensures
        face_adjacent(march_start(origin, dir).iterate(n), march_start(origin, dir).iterate(n + 1)),
{
    let m = march_start(origin, dir);
    lemma_start_consistent(origin, dir);
    lemma_iterate_keeps_direction(m, n);
    lemma_step_moves_one_axis(m.iterate(n));
    assert(m.iterate(n + 1) == m.iterate(n).advanced());
}

/// Along an axis on which the direction is zero, a march's cell coordinate
/// never changes, however many steps it takes.
pub proof fn lemma_march_fixed_axis(origin: Fixed3, dir: Fixed3, n: nat)
    ensures
        dir.x == 0 ==> march_start(origin, dir).iterate(n).x.pos == march_start(origin, dir).x.pos,
        dir.y == 0 ==> march_start(origin, dir).iterate(n).y.pos == march_start(origin, dir).y.pos,
        dir.z == 0 ==> march_start(origin, dir).iterate(n).z.pos == march_start(origin, dir).z.pos,
    decreases n,
{
    let m = march_start(origin, dir);
    lemma_start_consistent(origin, dir);
    if n > 0 {
        lemma_march_fixed_axis(origin, dir, (n - 1) as nat);
        lemma_iterate_keeps_direction(m, (n - 1) as nat);
    }
}

/// Marches built from the same origin and direction are in the same
/// traversal state, so they visit the same cells and cross the same faces
/// at every step.
pub proof fn lemma_march_deterministic(origin: Fixed3, dir: Fixed3, a: MarchModel, b: MarchModel, n: nat)
    requires
        a == march_start(origin, dir),
        b == march_start(origin, dir),
    ensures
        a.iterate(n).x == b.iterate(n).x,
        a.iterate(n).y == b.iterate(n).y,
        a.iterate(n).z == b.iterate(n).z,
        forall|c: WorldCoordinate| a.iterate(n).at(c) <==> b.iterate(n).at(c),
        forall|c: WorldCoordinate| a.iterate(n).next_normal_is(c) <==> b.iterate(n).next_normal_is(c),
{
}

proof fn lemma_axis_wf_grows(a: AxisMarch, s: int)
    requires
        a.wf(s),
        s >= 0,
    ensures
        a.wf(s + 1),
{
}

} // verus!
