//! Particles and the shared radius-query contract every spatial index
//! satisfies, together with the simulation step that rebuilds an index each
//! tick and integrates particle motion.

use vstd::prelude::*;
use vstd::seq_lib::group_to_multiset_ensures;
use crate::numeric::{
    clamp_abs, clamp_abs_i64, div_trunc, div_trunc_i64, lemma_div_trunc_abs, lemma_div_trunc_bound,
    lemma_sqrt_floor_bounds, sqrt_floor,
};
use crate::seq_facts::lemma_filter_subset;
use crate::v2::{
    dist_sq, in_range, lemma_dist_sq_nonneg, spec_normalized, TreeValue, V2, COORD_LIMIT,
};

verus! {

/// A particle: a position and a velocity, both in milli-units.
#[derive(Clone, Copy, Debug, PartialEq, Eq, Structural)]
pub struct Particle {
    pub position: V2,
    pub velocity: V2,
}

impl Particle {
    pub fn new(position: V2, velocity: V2) -> (p: Particle)
        ensures
            p == (Particle { position, velocity }),
    {
        Particle { position, velocity }
    }
}

impl TreeValue for Particle {
    open spec fn pos(&self) -> V2 {
        self.position
    }

    fn position(&self) -> (p: V2) {
        self.position
    }

    fn x(&self) -> (r: i64) {
        self.position.x
    }

    fn y(&self) -> (r: i64) {
        self.position.y
    }

    fn offset_pos(&mut self)
        ensures
            final(self).velocity == old(self).velocity,
    {
        self.position.x = self.position.x + 1;
        self.position.y = self.position.y + 1;
    }
}

/// The radius-query contract all spatial index variants satisfy: `from_vec`
/// builds an index over a point snapshot, and `query_distance` returns
/// exactly the retained points strictly within the radius, in the index's
/// content order.
pub trait GeoQuery<T: TreeValue>: Sized {
    /// The retained points, in the index's own content order.
    spec fn contents(&self) -> Seq<T>;

    /// The index's internal invariant.
    spec fn wf(&self) -> bool;

    /// The radii for which this variant's query is exact.
    spec fn query_pre(radius: int) -> bool;

    fn from_vec(vec: Vec<T>, max_dim: i64) -> (s: Self)
        requires
            0 <= max_dim <= COORD_LIMIT,
            forall|i: int|
                0 <= i < vec@.len() ==> (#[trigger] vec@[i].pos()).abs_le(max_dim as int),
        ensures
            s.wf(),
            forall|x: T|
                #[trigger] s.contents().to_multiset().count(x) <= vec@.to_multiset().count(x),
            forall|i: int|
                0 <= i < vec@.len() && (forall|j: int|
                    0 <= j < i ==> (#[trigger] vec@[j]).pos() != vec@[i].pos())
                    ==> s.contents().contains(#[trigger] vec@[i]),
    ;

    fn query_distance(&self, point: &V2, radius: i64) -> (res: Vec<T>)
        requires
            self.wf(),
            point.in_bounds(),
            0 <= radius <= COORD_LIMIT,
            Self::query_pre(radius as int),
        ensures
            res@ == self.contents().filter(range_pred(*point, radius as int)),
    ;
}

/// The radius-query membership predicate, as one shared closure.
pub open spec fn range_pred<T: TreeValue>(center: V2, radius: int) -> spec_fn(T) -> bool {
    |t: T| in_range(t.pos(), center, radius)
}

/// Build/point-count law: a point an index retains is returned by any query
/// that covers it; in particular the query centered at the point itself with
/// any positive radius selects it. Together with the retention clause of
/// `GeoQuery::from_vec`, every point fed to a build (outside the documented
/// duplicate-position case) stays queryable.
pub proof fn lemma_retained_point_queryable<T: TreeValue>(contents: Seq<T>, i: int, radius: int)
    requires
        0 <= i < contents.len(),
        radius >= 1,
    ensures
        contents.filter(range_pred(contents[i].pos(), radius)).contains(contents[i]),
{
    let t = contents[i];
    assert(in_range(t.pos(), t.pos(), radius)) by {
        assert(dist_sq(t.pos(), t.pos()) == 0) by (nonlinear_arith);
        assert(radius * radius >= 1) by (nonlinear_arith)
            requires
                radius >= 1,
        ;
    }
    assert(range_pred::<T>(t.pos(), radius)(t));
    contents.lemma_filter_contains(range_pred(t.pos(), radius), i);
}

/// The neighbor-interaction radius (20 length units).
pub const PARTICLE_RADIUS: i64 = 20_000;

/// Pressure scale of the repulsion kernel.
pub const PRESSURE_MULTIPLIER: i64 = 1000;

/// Velocity-difference damping, as the fraction 5/100.
pub const FRICTION_NUM: i64 = 5;

pub const FRICTION_DEN: i64 = 100;

/// The fixed integration step, as the fraction 6/1000.
pub const STEP_NUM: i64 = 6;

pub const STEP_DEN: i64 = 1000;

/// Magnitude of the pointer attraction.
pub const MOUSE_FORCE: i64 = -200;

/// Pointer force acts within this distance (100 length units).
pub const MOUSE_RANGE: i64 = 100_000;

/// Integrated velocities saturate at this magnitude, standing in for the
/// float domain's unbounded range.
pub const VEL_LIMIT: i64 = 0x2_0000_0000;

/// The particle count the force accumulation is specified for.
pub const N_LIMIT: usize = 4096;

/// The smoothed repulsion kernel `max(0, (R - d) / R)^2` in millionths.
pub open spec fn spec_kernel(d: int) -> int {
    let num = if PARTICLE_RADIUS - d > 0 {
        PARTICLE_RADIUS - d
    } else {
        0
    };
    div_trunc(1_000_000 * (num * num), (PARTICLE_RADIUS as int) * (PARTICLE_RADIUS as int))
}

/// The acceleration one neighbor contributes: a repulsive pressure term along
/// the unit vector from the neighbor, plus velocity-difference damping.
/// Neighbors at the particle's own position (distance below one milli-unit)
/// and beyond the interaction radius contribute nothing.
pub open spec fn spec_pair_accel(p: Particle, o: Particle) -> (int, int) {
    let dx = o.position.x - p.position.x;
    let dy = o.position.y - p.position.y;
    let d = sqrt_floor(dist_sq(o.position, p.position));
    if d > PARTICLE_RADIUS || d < 1 {
        (0, 0)
    } else {
        let dcl = if d < 10 {
            10
        } else {
            d
        };
        let g = div_trunc(-(spec_kernel(dcl) * PRESSURE_MULTIPLIER), 1000);
        let fx = div_trunc(-((p.velocity.x - o.velocity.x) * FRICTION_NUM), FRICTION_DEN as int);
        let fy = div_trunc(-((p.velocity.y - o.velocity.y) * FRICTION_NUM), FRICTION_DEN as int);
        (div_trunc(g * dx, d) + fx, div_trunc(g * dy, d) + fy)
    }
}

/// The accumulated neighbor acceleration, folded left to right over the
/// neighbor sequence.
pub open spec fn spec_accel_sum(ns: Seq<Particle>, p: Particle) -> (int, int)
    decreases ns.len(),
{
    if ns.len() == 0 {
        (0, 0)
    } else {
        let rest = spec_accel_sum(ns.drop_last(), p);
        let t = spec_pair_accel(p, ns.last());
        (rest.0 + t.0, rest.1 + t.1)
    }
}

/// The pointer term: an attraction of fixed magnitude toward a pressed
/// pointer within range, along the fixed-point unit vector.
pub open spec fn spec_mouse_accel(p: Particle, mouse: Option<V2>, pressing: bool) -> (int, int) {
    match mouse {
        Option::Some(m) => {
            if !pressing {
                (0, 0)
            } else {
                let md = V2 { x: (m.x - p.position.x) as i64, y: (m.y - p.position.y) as i64 };
                let l = sqrt_floor(dist_sq(m, p.position));
                if l > MOUSE_RANGE {
                    (0, 0)
                } else {
                    let n = spec_normalized(md);
                    (n.x * -MOUSE_FORCE, n.y * -MOUSE_FORCE)
                }
            }
        },
        Option::None => (0, 0),
    }
}

/// One scaled step `a * num / den`, rounded toward zero.
pub open spec fn spec_scale(a: int, num: int, den: int) -> int {
    div_trunc(a * num, den)
}

/// Classical fourth-order Runge-Kutta with the acceleration frozen across
/// all four stages, per axis in integer fixed point.
pub open spec fn spec_rk4(s: Particle, ax: int, ay: int, num: int, den: int) -> Particle {
    let k1vx = spec_scale(ax, num, den);
    let k1vy = spec_scale(ay, num, den);
    let vx = s.velocity.x as int;
    let vy = s.velocity.y as int;
    let k1px = spec_scale(vx, num, den);
    let k1py = spec_scale(vy, num, den);
    let k2px = spec_scale(vx + div_trunc(k1vx, 2), num, den);
    let k2py = spec_scale(vy + div_trunc(k1vy, 2), num, den);
    let k3px = spec_scale(vx + div_trunc(k1vx, 2), num, den);
    let k3py = spec_scale(vy + div_trunc(k1vy, 2), num, den);
    let k4px = spec_scale(vx + k1vx, num, den);
    let k4py = spec_scale(vy + k1vy, num, den);
    Particle {
        position: V2 {
            x: (s.position.x + div_trunc(k1px + 2 * k2px + 2 * k3px + k4px, 6)) as i64,
            y: (s.position.y + div_trunc(k1py + 2 * k2py + 2 * k3py + k4py, 6)) as i64,
        },
        velocity: V2 {
            x: (vx + div_trunc(k1vx + 2 * k1vx + 2 * k1vx + k1vx, 6)) as i64,
            y: (vy + div_trunc(k1vy + 2 * k1vy + 2 * k1vy + k1vy, 6)) as i64,
        },
    }
}

/// Hard inelastic boundary reflection, one axis at a time: clamp to the
/// domain edge and negate that axis's velocity.
pub open spec fn spec_reflect(p: Particle, dims: V2) -> Particle {
    let (x1, vx1) = if p.position.x < 0 {
        (0, -p.velocity.x as int)
    } else {
        (p.position.x as int, p.velocity.x as int)
    };
    let (x2, vx2) = if x1 > dims.x {
        (dims.x as int, -vx1)
    } else {
        (x1, vx1)
    };
    let (y1, vy1) = if p.position.y < 0 {
        (0, -p.velocity.y as int)
    } else {
        (p.position.y as int, p.velocity.y as int)
    };
    let (y2, vy2) = if y1 > dims.y {
        (dims.y as int, -vy1)
    } else {
        (y1, vy1)
    };
    Particle {
        position: V2 { x: x2 as i64, y: y2 as i64 },
        velocity: V2 { x: vx2 as i64, y: vy2 as i64 },
    }
}

/// One whole sub-step for one particle: accumulate neighbor, pointer and
/// gravity acceleration, integrate, saturate the velocity, reflect at the
/// boundary.
pub open spec fn spec_step_particle(
    p: Particle,
    contents: Seq<Particle>,
    mouse: Option<V2>,
    pressing: bool,
    gravity: V2,
    dims: V2,
) -> Particle {
    let ns = contents.filter(range_pred(p.position, PARTICLE_RADIUS as int));
    let a = spec_accel_sum(ns, p);
    let m = spec_mouse_accel(p, mouse, pressing);
    let ax = a.0 + m.0 + gravity.x;
    let ay = a.1 + m.1 + gravity.y;
    let integrated = spec_rk4(p, ax, ay, STEP_NUM as int, STEP_DEN as int);
    let clamped = Particle {
        position: integrated.position,
        velocity: V2 {
            x: clamp_abs(integrated.velocity.x as int, VEL_LIMIT as int) as i64,
            y: clamp_abs(integrated.velocity.y as int, VEL_LIMIT as int) as i64,
        },
    };
    spec_reflect(clamped, dims)
}

/// Executable smoothing kernel, in millionths.
pub fn smoothing_kernel_gradient(d: i64) -> (r: i64)
    requires
        0 <= d <= 0x4000_0000,
    ensures
        r == spec_kernel(d as int),
        0 <= r <= 1_000_000,
{
    let num: i64 = if PARTICLE_RADIUS - d > 0 {
        PARTICLE_RADIUS - d
    } else {
        0
    };
    proof {
        crate::numeric::lemma_square_bound(num as int, 20_000);
        lemma_div_trunc_bound(
            1_000_000 * (num as int * num as int),
            (PARTICLE_RADIUS as int) * (PARTICLE_RADIUS as int),
            1_000_000,
        );
    }
    div_trunc_i64(1_000_000 * (num * num), PARTICLE_RADIUS * PARTICLE_RADIUS)
}

/// Executable frozen-acceleration RK4 step.
pub fn rk4_integrate(state: &Particle, acceleration: V2, dt_num: i64, dt_den: i64) -> (r: Particle)
    requires
        1 <= dt_den <= 1000,
        0 <= dt_num <= dt_den,
        acceleration.abs_le(0x4_0000_0000_0000),
        state.velocity.abs_le(0x4_0000_0000_0000),
        state.position.abs_le(0x4_0000_0000_0000),
    ensures
        r == spec_rk4(
            *state,
            acceleration.x as int,
            acceleration.y as int,
            dt_num as int,
            dt_den as int,
        ),
        r.position.abs_le(0x10_0000_0000_0000),
        r.velocity.abs_le(0x10_0000_0000_0000),
{
    proof {
        lemma_scale_bound(
            acceleration.x as int,
            dt_num as int,
            dt_den as int,
            0x4_0000_0000_0000,
        );
        lemma_scale_bound(
            acceleration.y as int,
            dt_num as int,
            dt_den as int,
            0x4_0000_0000_0000,
        );
        lemma_scale_bound(
            state.velocity.x as int,
            dt_num as int,
            dt_den as int,
            0x4_0000_0000_0000,
        );
        lemma_scale_bound(
            state.velocity.y as int,
            dt_num as int,
            dt_den as int,
            0x4_0000_0000_0000,
        );
    }
    let k1vx = scale_step(acceleration.x, dt_num, dt_den);
    let k1vy = scale_step(acceleration.y, dt_num, dt_den);
    let vx = state.velocity.x;
    let vy = state.velocity.y;
    let k1px = scale_step(vx, dt_num, dt_den);
    let k1py = scale_step(vy, dt_num, dt_den);
    let h1x = div_trunc_i64(k1vx, 2);
    let h1y = div_trunc_i64(k1vy, 2);
    proof {
        lemma_div_trunc_abs(k1vx as int, 2);
        lemma_div_trunc_abs(k1vy as int, 2);
        lemma_scale_bound((vx + h1x) as int, dt_num as int, dt_den as int, 0x8_0000_0000_0000);
        lemma_scale_bound((vy + h1y) as int, dt_num as int, dt_den as int, 0x8_0000_0000_0000);
        lemma_scale_bound((vx + k1vx) as int, dt_num as int, dt_den as int, 0x8_0000_0000_0000);
        lemma_scale_bound((vy + k1vy) as int, dt_num as int, dt_den as int, 0x8_0000_0000_0000);
    }
    let k2px = scale_step(vx + h1x, dt_num, dt_den);
    let k2py = scale_step(vy + h1y, dt_num, dt_den);
    let k3px = scale_step(vx + h1x, dt_num, dt_den);
    let k3py = scale_step(vy + h1y, dt_num, dt_den);
    let k4px = scale_step(vx + k1vx, dt_num, dt_den);
    let k4py = scale_step(vy + k1vy, dt_num, dt_den);
    let new_vx = vx + div_trunc_i64(k1vx + 2 * k1vx + 2 * k1vx + k1vx, 6);
    let new_vy = vy + div_trunc_i64(k1vy + 2 * k1vy + 2 * k1vy + k1vy, 6);
    let new_px = state.position.x + div_trunc_i64(k1px + 2 * k2px + 2 * k3px + k4px, 6);
    let new_py = state.position.y + div_trunc_i64(k1py + 2 * k2py + 2 * k3py + k4py, 6);
    proof {
        lemma_div_trunc_abs((k1vx + 2 * k1vx + 2 * k1vx + k1vx) as int, 6);
        lemma_div_trunc_abs((k1vy + 2 * k1vy + 2 * k1vy + k1vy) as int, 6);
        lemma_div_trunc_abs((k1px + 2 * k2px + 2 * k3px + k4px) as int, 6);
        lemma_div_trunc_abs((k1py + 2 * k2py + 2 * k3py + k4py) as int, 6);
    }
    Particle {
        position: V2 { x: new_px, y: new_py },
        velocity: V2 { x: new_vx, y: new_vy },
    }
}

/// The scaled step stays within the magnitude bound of its argument for
/// step fractions at most one, and its product stays representable.
proof fn lemma_scale_bound(a: int, num: int, den: int, m: int)
    requires
        1 <= den <= 1000,
        0 <= num <= den,
        0 <= m,
        -m <= a <= m,
    ensures
        -m <= spec_scale(a, num, den) <= m,
        -(m * 1000) <= a * num <= m * 1000,
{
    assert(-(den * m) <= a * num <= den * m) by (nonlinear_arith)
        requires
            1 <= den,
            0 <= num <= den,
            0 <= m,
            -m <= a <= m,
    ;
    lemma_div_trunc_bound(a * num, den, m);
    assert(-(m * 1000) <= a * num <= m * 1000) by (nonlinear_arith)
        requires
            1 <= den <= 1000,
            0 <= num <= den,
            0 <= m,
            -m <= a <= m,
    ;
}

/// One scaled step, executably.
fn scale_step(a: i64, num: i64, den: i64) -> (r: i64)
    requires
        1 <= den <= 1000,
        0 <= num <= den,
        -0x8_0000_0000_0000 <= a <= 0x8_0000_0000_0000,
    ensures
        r == spec_scale(a as int, num as int, den as int),
        -0x8_0000_0000_0000 <= r <= 0x8_0000_0000_0000,
{
    proof {
        lemma_scale_bound(a as int, num as int, den as int, 0x8_0000_0000_0000);
    }
    div_trunc_i64(a * num, den)
}

/// Executable boundary reflection.
pub fn reflect_boundary(particle: &Particle, dimensions: &V2) -> (r: Particle)
    requires
        0 <= dimensions.x <= COORD_LIMIT,
        0 <= dimensions.y <= COORD_LIMIT,
        particle.position.abs_le(0x1000_0000_0000_0000),
        particle.velocity.abs_le(0x1000_0000_0000_0000),
    ensures
        r == spec_reflect(*particle, *dimensions),
        0 <= r.position.x <= dimensions.x,
        0 <= r.position.y <= dimensions.y,
        forall|b: int| particle.velocity.abs_le(b) && b >= 0 ==> r.velocity.abs_le(b),
{
    let mut p = *particle;
    if p.position.x < 0 {
        p.position.x = 0;
        p.velocity.x = -p.velocity.x;
    }
    if p.position.x > dimensions.x {
        p.position.x = dimensions.x;
        p.velocity.x = -p.velocity.x;
    }
    if p.position.y < 0 {
        p.position.y = 0;
        p.velocity.y = -p.velocity.y;
    }
    if p.position.y > dimensions.y {
        p.position.y = dimensions.y;
        p.velocity.y = -p.velocity.y;
    }
    p
}

/// Copy a particle snapshot.
#[verifier::loop_isolation(false)]
fn copy_particles(src: &Vec<Particle>) -> (out: Vec<Particle>)
    ensures
        out@ == src@,
{
    let mut out: Vec<Particle> = Vec::new();
    let mut i: usize = 0;
    while i < src.len()
        invariant
            i <= src@.len(),
            out@ == src@.take(i as int),
        decreases src@.len() - i,
    {
        out.push(src[i]);
        proof {
            assert(out@ =~= src@.take(i + 1));
        }
        i = i + 1;
    }
    proof {
        assert(src@.take(src@.len() as int) =~= src@);
    }
    out
}

/// A particle within the domain with a saturation-bounded velocity.
pub open spec fn particle_ok(p: Particle, dims: V2) -> bool {
    &&& 0 <= p.position.x <= dims.x
    &&& 0 <= p.position.y <= dims.y
    &&& p.velocity.abs_le(VEL_LIMIT as int)
}

/// A particle with in-bounds position and a saturation-bounded velocity,
/// wherever it sits in the domain.
pub open spec fn particle_bounded(p: Particle) -> bool {
    p.position.in_bounds() && p.velocity.abs_le(VEL_LIMIT as int)
}

/// The simulation's invariant: a bounded domain, bounded gravity, a bounded
/// particle count, in-domain particles, a well-formed index holding only
/// bounded particles, and an in-bounds pointer target.
pub open spec fn world_wf<T: GeoQuery<Particle>>(w: &World<T>) -> bool {
    &&& 0 <= w.dimensions.x <= COORD_LIMIT
    &&& 0 <= w.dimensions.y <= COORD_LIMIT
    &&& w.gravity.abs_le(0x4000_0000)
    &&& w.particles@.len() <= N_LIMIT
    &&& forall|i: int|
        0 <= i < w.particles@.len() ==> particle_ok(#[trigger] w.particles@[i], w.dimensions)
    &&& w.tree.wf()
    &&& w.tree.contents().len() <= N_LIMIT
    &&& forall|k: int|
        0 <= k < w.tree.contents().len() ==> particle_bounded(#[trigger] w.tree.contents()[k])
    &&& match w.mouse_pos {
        Option::Some(m) => m.in_bounds(),
        Option::None => true,
    }
}

/// The simulation step: owns the particle set, rebuilds the active index
/// each tick and integrates particle motion against it.
pub struct World<T> {
    pub particles: Vec<Particle>,
    pub dimensions: V2,
    pub gravity: V2,
    pub tree: T,
    pub mouse_pos: Option<V2>,
    pub is_pressing_mouse: bool,
}

impl<T: GeoQuery<Particle>> World<T> {
    /// A world over the given domain with no particles yet.
    pub fn new(dimensions: V2, gravity: V2) -> (w: World<T>)
        requires
            0 <= dimensions.x <= COORD_LIMIT,
            0 <= dimensions.y <= COORD_LIMIT,
            gravity.abs_le(0x4000_0000),
        ensures
            world_wf(&w),
            w.dimensions == dimensions,
            w.gravity == gravity,
            w.particles@.len() == 0,
            w.tree.contents() == Seq::<Particle>::empty(),
            w.mouse_pos is None,
            !w.is_pressing_mouse,
    {
        let max_dim = if dimensions.x > dimensions.y {
            dimensions.x
        } else {
            dimensions.y
        };
        let tree = T::from_vec(Vec::new(), max_dim);
        proof {
            broadcast use group_to_multiset_ensures;

            assert forall|k: int| 0 <= k < tree.contents().len() implies particle_bounded(
                #[trigger] tree.contents()[k],
            ) by {
                let x = tree.contents()[k];
                assert(tree.contents().contains(x));
                assert(tree.contents().to_multiset().count(x) > 0);
                assert(Seq::<Particle>::empty().to_multiset().count(x) == 0);
            }
            assert(tree.contents().to_multiset().subset_of(
                Seq::<Particle>::empty().to_multiset(),
            ));
            lemma_ms_le_len(
                tree.contents().to_multiset(),
                Seq::<Particle>::empty().to_multiset(),
            );
            assert(tree.contents() =~= Seq::<Particle>::empty());
        }
        World {
            particles: Vec::new(),
            dimensions,
            gravity,
            tree,
            mouse_pos: None,
            is_pressing_mouse: false,
        }
    }

    /// Update the pointer-force target; `None` clears it.
    pub fn update_mouse_pos(&mut self, mouse_pos: Option<V2>, is_pressing: bool)
        requires
            world_wf(old(self)),
            match mouse_pos {
                Option::Some(m) => m.in_bounds(),
                Option::None => true,
            },
        ensures
            world_wf(final(self)),
            final(self).mouse_pos == mouse_pos,
            final(self).is_pressing_mouse == is_pressing,
            final(self).particles == old(self).particles,
            final(self).dimensions == old(self).dimensions,
            final(self).gravity == old(self).gravity,
            final(self).tree == old(self).tree,
    {
        self.mouse_pos = mouse_pos;
        self.is_pressing_mouse = is_pressing;
    }

    /// Append zero-velocity particles at the given positions (drawn by the
    /// caller's random source) and rebuild the index.
    #[verifier::loop_isolation(false)]
    pub fn add_random_particles(&mut self, positions: Vec<V2>)
        requires
            world_wf(old(self)),
            old(self).particles@.len() + positions@.len() <= N_LIMIT,
            forall|i: int|
                0 <= i < positions@.len() ==> 0 <= (#[trigger] positions@[i]).x <= old(
                    self,
                ).dimensions.x && 0 <= positions@[i].y <= old(self).dimensions.y,
        ensures
            world_wf(final(self)),
            final(self).particles@ == old(self).particles@ + positions@.map_values(
                |p: V2| Particle { position: p, velocity: V2 { x: 0, y: 0 } },
            ),
            final(self).dimensions == old(self).dimensions,
            final(self).gravity == old(self).gravity,
            forall|x: Particle|
                #[trigger] final(self).tree.contents().to_multiset().count(x) <= final(self).particles@.to_multiset().count(x),
            forall|i: int|
                0 <= i < final(self).particles@.len() && (forall|j: int|
                    0 <= j < i ==> (#[trigger] final(self).particles@[j]).position != final(self).particles@[i].position) ==> final(self).tree.contents().contains(
                    #[trigger] final(self).particles@[i],
                ),
    {
        let ghost orig = self.particles@;
        let mut i: usize = 0;
        while i < positions.len()
            invariant
                i <= positions@.len(),
                world_wf(old(self)),
                self.particles@.len() == orig.len() + i,
                self.particles@ == orig + positions@.take(i as int).map_values(
                    |p: V2| Particle { position: p, velocity: V2 { x: 0, y: 0 } },
                ),
                self.dimensions == old(self).dimensions,
                self.gravity == old(self).gravity,
                self.tree == old(self).tree,
                self.mouse_pos == old(self).mouse_pos,
                forall|j: int|
                    0 <= j < self.particles@.len() ==> particle_ok(
                        #[trigger] self.particles@[j],
                        self.dimensions,
                    ),
            decreases positions@.len() - i,
        {
            let pos = positions[i];
            proof {
                assert(0 <= positions@[i as int].x <= self.dimensions.x);
                assert(0 <= positions@[i as int].y <= self.dimensions.y);
            }
            let particle = Particle::new(V2::new(pos.x, pos.y), V2::new(0, 0));
            self.particles.push(particle);
            proof {
                assert(self.particles@ =~= orig + positions@.take(i + 1).map_values(
                    |p: V2| Particle { position: p, velocity: V2 { x: 0, y: 0 } },
                ));
            }
            i = i + 1;
        }
        proof {
            assert(positions@.take(positions@.len() as int) =~= positions@);
        }
        self.update_tree();
    }

    /// The accumulated neighbor acceleration for one particle, by one radius
    /// query against the current index.
    #[verifier::loop_isolation(false)]
    pub fn calc_force(&self, particle: &Particle) -> (r: V2)
        requires
            world_wf(self),
            T::query_pre(PARTICLE_RADIUS as int),
            particle_bounded(*particle),
        ensures
            ({
                let ns = self.tree.contents().filter(
                    range_pred(particle.position, PARTICLE_RADIUS as int),
                );
                r.x == spec_accel_sum(ns, *particle).0 && r.y == spec_accel_sum(ns, *particle).1
                    && r.abs_le(0x800_0000_0000)
            }),
    {
        let ghost pred = range_pred::<Particle>(particle.position, PARTICLE_RADIUS as int);
        let neighbors = self.tree.query_distance(&particle.position, PARTICLE_RADIUS);
        proof {
            broadcast use group_to_multiset_ensures;

            lemma_filter_subset(self.tree.contents(), pred);
            assert(neighbors@ == self.tree.contents().filter(pred));
            self.tree.contents().lemma_filter_len(pred);
            assert(neighbors@.len() <= self.tree.contents().len());
            assert(self.tree.contents().len() <= N_LIMIT);
            assert forall|k: int| 0 <= k < neighbors@.len() implies particle_bounded(
                #[trigger] neighbors@[k],
            ) && pred(neighbors@[k]) by {
                assert(self.tree.contents().filter(pred)[k] == neighbors@[k]);
                assert(self.tree.contents().contains(self.tree.contents().filter(pred)[k]));
                let w = choose|w: int|
                    0 <= w < self.tree.contents().len() && self.tree.contents()[w]
                        == neighbors@[k];
                self.tree.contents().lemma_filter_pred(pred, k);
            }
        }
        let mut gx: i64 = 0;
        let mut gy: i64 = 0;
        let mut i: usize = 0;
        while i < neighbors.len()
            invariant
                i <= neighbors@.len(),
                gx == spec_accel_sum(neighbors@.take(i as int), *particle).0,
                gy == spec_accel_sum(neighbors@.take(i as int), *particle).1,
                -0x8000_0000 * (i as int) <= gx <= 0x8000_0000 * (i as int),
                -0x8000_0000 * (i as int) <= gy <= 0x8000_0000 * (i as int),
            decreases neighbors@.len() - i,
        {
            let o = neighbors[i];
            let pv = o.position.sub(&particle.position);
            let d = pv.len();
            proof {
                assert(neighbors@.take(i + 1).drop_last() =~= neighbors@.take(i as int));
                assert(neighbors@.take(i + 1).last() == o);
                lemma_pair_accel_bound(*particle, o);
            }
            if !(d > PARTICLE_RADIUS || d < 1) {
                let dcl = if d < 10 {
                    10
                } else {
                    d
                };
                let k = smoothing_kernel_gradient(dcl);
                let g = div_trunc_i64(-(k * PRESSURE_MULTIPLIER), 1000);
                proof {
                    lemma_div_trunc_bound(
                        -(k as int * PRESSURE_MULTIPLIER as int),
                        1000,
                        1_000_000,
                    );
                    lemma_div_trunc_abs((g as int) * pv.x, d as int);
                    lemma_div_trunc_abs((g as int) * pv.y, d as int);
                    crate::numeric::lemma_square_bound(pv.x as int, 0x4000_0000);
                    crate::numeric::lemma_square_bound(pv.y as int, 0x4000_0000);
                    assert(-0x2000_0000_0000_0000 <= (g as int) * pv.x <= 0x2000_0000_0000_0000)
                        by (nonlinear_arith)
                        requires
                            -1_000_000 <= g <= 1_000_000,
                            -0x4000_0000 <= pv.x <= 0x4000_0000,
                    ;
                    assert(-0x2000_0000_0000_0000 <= (g as int) * pv.y <= 0x2000_0000_0000_0000)
                        by (nonlinear_arith)
                        requires
                            -1_000_000 <= g <= 1_000_000,
                            -0x4000_0000 <= pv.y <= 0x4000_0000,
                    ;
                }
                let tx = div_trunc_i64(g * pv.x, d);
                let ty = div_trunc_i64(g * pv.y, d);
                let fx = div_trunc_i64(-((particle.velocity.x - o.velocity.x) * FRICTION_NUM),
                    FRICTION_DEN);
                let fy = div_trunc_i64(-((particle.velocity.y - o.velocity.y) * FRICTION_NUM),
                    FRICTION_DEN);
                proof {
                    assert(spec_pair_accel(*particle, o) == (tx as int + fx as int, ty as int
                        + fy as int));
                }
                gx = gx + tx + fx;
                gy = gy + ty + fy;
            }
            i = i + 1;
        }
        proof {
            assert(neighbors@.take(neighbors@.len() as int) =~= neighbors@);
        }
        V2 { x: gx, y: gy }
    }

    /// Neighbor acceleration plus the pointer term.
    pub fn calc_particle_acc(&self, particle: &Particle) -> (r: V2)
        requires
            world_wf(self),
            T::query_pre(PARTICLE_RADIUS as int),
            particle_bounded(*particle),
        ensures
            ({
                let ns = self.tree.contents().filter(
                    range_pred(particle.position, PARTICLE_RADIUS as int),
                );
                let a = spec_accel_sum(ns, *particle);
                let m = spec_mouse_accel(
                    *particle,
                    self.mouse_pos,
                    self.is_pressing_mouse,
                );
                r.x == a.0 + m.0 && r.y == a.1 + m.1 && r.abs_le(0x1_0000_0000_0000)
            }),
    {
        let acc = self.calc_force(particle);
        match &self.mouse_pos {
            Some(mouse_pos) => {
                if self.is_pressing_mouse {
                    let mouse_distance = mouse_pos.sub(&particle.position);
                    let l = mouse_distance.len();
                    if l > MOUSE_RANGE {
                        return acc;
                    }
                    proof {
                        lemma_normalized_bound(mouse_distance);
                    }
                    let mouse_acc = mouse_distance.normalized().scalar_mul(-MOUSE_FORCE);
                    return acc.add(&mouse_acc);
                }
            },
            None => {},
        }
        acc
    }

    /// Rebuild the index from the current particle snapshot.
    fn update_tree(&mut self)
        requires
            world_wf(old(self)),
        ensures
            world_wf(final(self)),
            final(self).particles == old(self).particles,
            final(self).dimensions == old(self).dimensions,
            final(self).gravity == old(self).gravity,
            final(self).mouse_pos == old(self).mouse_pos,
            final(self).is_pressing_mouse == old(self).is_pressing_mouse,
            final(self).tree.wf(),
            forall|x: Particle|
                #[trigger] final(self).tree.contents().to_multiset().count(x) <= old(
                    self,
                ).particles@.to_multiset().count(x),
            forall|i: int|
                0 <= i < old(self).particles@.len() && (forall|j: int|
                    0 <= j < i ==> (#[trigger] old(self).particles@[j]).position != old(
                        self,
                    ).particles@[i].position) ==> final(self).tree.contents().contains(
                    #[trigger] old(self).particles@[i],
                ),
    {
        let snapshot = copy_particles(&self.particles);
        let max_dim = if self.dimensions.x > self.dimensions.y {
            self.dimensions.x
        } else {
            self.dimensions.y
        };
        proof {
            assert forall|i: int| 0 <= i < snapshot@.len() implies (
            #[trigger] snapshot@[i].pos()).abs_le(max_dim as int) by {
                assert(particle_ok(self.particles@[i], self.dimensions));
            }
        }
        let tree = T::from_vec(snapshot, max_dim);
        proof {
            broadcast use group_to_multiset_ensures;

            assert forall|k: int| 0 <= k < tree.contents().len() implies particle_bounded(
                #[trigger] tree.contents()[k],
            ) by {
                let x = tree.contents()[k];
                assert(tree.contents().contains(x));
                assert(tree.contents().to_multiset().count(x) > 0);
                assert(self.particles@.to_multiset().count(x) > 0);
                assert(self.particles@.contains(x));
                let w = choose|w: int|
                    0 <= w < self.particles@.len() && self.particles@[w] == x;
                assert(particle_ok(self.particles@[w], self.dimensions));
            }
            assert(tree.contents().to_multiset().subset_of(self.particles@.to_multiset()));
            lemma_ms_le_len(tree.contents().to_multiset(), self.particles@.to_multiset());
        }
        self.tree = tree;
    }

    /// Advance the simulation by `n` sub-steps: the n-fold composition of
    /// the one-sub-step recurrence, each sub-step against the index rebuilt
    /// from the particles it starts from. The contract pins the recurrence
    /// for a single sub-step; a composed form is not expressible here, since
    /// the intermediate index contents are not a function of the particle
    /// snapshot at this trait level. The particle count never changes; an
    /// empty world stays empty, and zero sub-steps change nothing.
    pub fn evolve(&mut self, n: usize)
        requires
            world_wf(old(self)),
            T::query_pre(PARTICLE_RADIUS as int),
        ensures
            world_wf(final(self)),
            final(self).particles@.len() == old(self).particles@.len(),
            final(self).dimensions == old(self).dimensions,
            final(self).gravity == old(self).gravity,
            final(self).mouse_pos == old(self).mouse_pos,
            final(self).is_pressing_mouse == old(self).is_pressing_mouse,
            n == 0 ==> *final(self) == *old(self),
            n == 1 ==> forall|x: Particle|
                #[trigger] final(self).tree.contents().to_multiset().count(x) <= old(
                    self,
                ).particles@.to_multiset().count(x),
            n == 1 ==> forall|i: int|
                0 <= i < old(self).particles@.len() && (forall|j: int|
                    0 <= j < i ==> (#[trigger] old(self).particles@[j]).position != old(
                        self,
                    ).particles@[i].position) ==> final(self).tree.contents().contains(
                    #[trigger] old(self).particles@[i],
                ),
            n == 1 ==> forall|i: int|
                0 <= i < old(self).particles@.len() ==> final(self).particles@[i]
                    == spec_step_particle(
                    #[trigger] old(self).particles@[i],
                    final(self).tree.contents(),
                    old(self).mouse_pos,
                    old(self).is_pressing_mouse,
                    old(self).gravity,
                    old(self).dimensions,
                ),
    {
        let mut k: usize = 0;
        while k < n
            invariant
                k <= n,
                world_wf(self),
                T::query_pre(PARTICLE_RADIUS as int),
                self.particles@.len() == old(self).particles@.len(),
                self.dimensions == old(self).dimensions,
                self.gravity == old(self).gravity,
                self.mouse_pos == old(self).mouse_pos,
                self.is_pressing_mouse == old(self).is_pressing_mouse,
                k == 0 ==> *self == *old(self),
                k == 1 ==> forall|x: Particle|
                    #[trigger] self.tree.contents().to_multiset().count(x) <= old(
                        self,
                    ).particles@.to_multiset().count(x),
                k == 1 ==> forall|i: int|
                    0 <= i < old(self).particles@.len() && (forall|j: int|
                        0 <= j < i ==> (#[trigger] old(self).particles@[j]).position != old(
                            self,
                        ).particles@[i].position) ==> self.tree.contents().contains(
                        #[trigger] old(self).particles@[i],
                    ),
                k == 1 ==> forall|i: int|
                    0 <= i < old(self).particles@.len() ==> self.particles@[i]
                        == spec_step_particle(
                        #[trigger] old(self).particles@[i],
                        self.tree.contents(),
                        old(self).mouse_pos,
                        old(self).is_pressing_mouse,
                        old(self).gravity,
                        old(self).dimensions,
                    ),
            decreases n - k,
        {
            self._evolve();
            k = k + 1;
        }
    }

    /// One sub-step: rebuild the index, then step every particle through the
    /// per-particle recurrence against that one snapshot.
    #[verifier::loop_isolation(false)]
    #[verifier::rlimit(100)]
    #[verifier::spinoff_prover]
    fn _evolve(&mut self)
        requires
            world_wf(old(self)),
            T::query_pre(PARTICLE_RADIUS as int),
        ensures
            world_wf(final(self)),
            final(self).particles@.len() == old(self).particles@.len(),
            final(self).dimensions == old(self).dimensions,
            final(self).gravity == old(self).gravity,
            final(self).mouse_pos == old(self).mouse_pos,
            final(self).is_pressing_mouse == old(self).is_pressing_mouse,
            forall|x: Particle|
                #[trigger] final(self).tree.contents().to_multiset().count(x) <= old(
                    self,
                ).particles@.to_multiset().count(x),
            forall|i: int|
                0 <= i < old(self).particles@.len() && (forall|j: int|
                    0 <= j < i ==> (#[trigger] old(self).particles@[j]).position != old(
                        self,
                    ).particles@[i].position) ==> final(self).tree.contents().contains(
                    #[trigger] old(self).particles@[i],
                ),
            forall|i: int|
                0 <= i < old(self).particles@.len() ==> final(self).particles@[i]
                    == spec_step_particle(
                    #[trigger] old(self).particles@[i],
                    final(self).tree.contents(),
                    old(self).mouse_pos,
                    old(self).is_pressing_mouse,
                    old(self).gravity,
                    old(self).dimensions,
                ),
    {
        self.update_tree();
        let mut new_particles: Vec<Particle> = Vec::new();
        let n = self.particles.len();
        let mut i: usize = 0;
        while i < n
            invariant
                i <= n == self.particles@.len(),
                world_wf(self),
                T::query_pre(PARTICLE_RADIUS as int),
                self.particles == old(self).particles,
                self.dimensions == old(self).dimensions,
                self.gravity == old(self).gravity,
                self.mouse_pos == old(self).mouse_pos,
                self.is_pressing_mouse == old(self).is_pressing_mouse,
                new_particles@.len() == i,
                forall|x: Particle|
                    #[trigger] self.tree.contents().to_multiset().count(x) <= old(
                        self,
                    ).particles@.to_multiset().count(x),
                forall|j: int|
                    0 <= j < old(self).particles@.len() && (forall|j2: int|
                        0 <= j2 < j ==> (#[trigger] old(self).particles@[j2]).position != old(
                            self,
                        ).particles@[j].position) ==> self.tree.contents().contains(
                        #[trigger] old(self).particles@[j],
                    ),
                forall|j: int|
                    0 <= j < i ==> new_particles@[j] == spec_step_particle(
                        #[trigger] self.particles@[j],
                        self.tree.contents(),
                        self.mouse_pos,
                        self.is_pressing_mouse,
                        self.gravity,
                        self.dimensions,
                    ),
                forall|j: int|
                    0 <= j < i ==> particle_ok(#[trigger] new_particles@[j], self.dimensions),
            decreases n - i,
        {
            let p = self.particles[i];
            let acc = self.calc_particle_acc(&p);
            let acc2 = acc.add(&self.gravity);
            let integrated = rk4_integrate(&p, acc2, STEP_NUM, STEP_DEN);
            let clamped = Particle {
                position: integrated.position,
                velocity: V2 {
                    x: clamp_abs_i64(integrated.velocity.x, VEL_LIMIT),
                    y: clamp_abs_i64(integrated.velocity.y, VEL_LIMIT),
                },
            };
            let reflected = reflect_boundary(&clamped, &self.dimensions);
            new_particles.push(reflected);
            i = i + 1;
        }
        self.particles = new_particles;
    }
}

/// A multiset no larger pointwise is no longer overall.
proof fn lemma_ms_le_len<A>(m1: vstd::multiset::Multiset<A>, m2: vstd::multiset::Multiset<A>)
    requires
        m1.subset_of(m2),
    ensures
        m1.len() <= m2.len(),
{
    broadcast use vstd::multiset::group_multiset_axioms;

    assert(m2.sub(m1).len() == m2.len() - m1.len());
}

/// One neighbor's contribution is bounded when both particles are bounded.
proof fn lemma_pair_accel_bound(p: Particle, o: Particle)
    requires
        particle_bounded(p),
        particle_bounded(o),
    ensures
        -0x8000_0000 <= spec_pair_accel(p, o).0 <= 0x8000_0000,
        -0x8000_0000 <= spec_pair_accel(p, o).1 <= 0x8000_0000,
{
    let dx = o.position.x - p.position.x;
    let dy = o.position.y - p.position.y;
    let d = sqrt_floor(dist_sq(o.position, p.position));
    lemma_dist_sq_nonneg(o.position, p.position);
    lemma_sqrt_floor_bounds(dist_sq(o.position, p.position));
    if d > PARTICLE_RADIUS || d < 1 {
    } else {
        let dcl: int = if d < 10 {
            10
        } else {
            d
        };
        let k = spec_kernel(dcl);
        crate::numeric::lemma_square_bound(
            (if PARTICLE_RADIUS - dcl > 0 {
                PARTICLE_RADIUS - dcl
            } else {
                0
            }) as int,
            20_000,
        );
        lemma_div_trunc_bound(
            1_000_000 * ((if PARTICLE_RADIUS - dcl > 0 {
                PARTICLE_RADIUS - dcl
            } else {
                0
            }) * (if PARTICLE_RADIUS - dcl > 0 {
                PARTICLE_RADIUS - dcl
            } else {
                0
            })),
            (PARTICLE_RADIUS as int) * (PARTICLE_RADIUS as int),
            1_000_000,
        );
        let g = div_trunc(-(k * PRESSURE_MULTIPLIER), 1000);
        lemma_div_trunc_bound(-(k * PRESSURE_MULTIPLIER), 1000, 1_000_000);
        // Within the radius the axis gaps are below `PARTICLE_RADIUS + 1`.
        assert(dist_sq(o.position, p.position) == dx * dx + dy * dy);
        assert(dx * dx >= 0 && dy * dy >= 0) by (nonlinear_arith);
        assert(dist_sq(o.position, p.position) < (d + 1) * (d + 1));
        assert(dx * dx < (d + 1) * (d + 1));
        assert(dy * dy < (d + 1) * (d + 1));
        crate::numeric::lemma_abs_lt_of_sq(dx, d + 1);
        crate::numeric::lemma_abs_lt_of_sq(dy, d + 1);
        assert(-(d * 2_000_001) <= g * dx <= d * 2_000_001) by (nonlinear_arith)
            requires
                -1_000_000 <= g <= 1_000_000,
                -(d + 1) < dx < d + 1,
                1 <= d,
            ;
        assert(-(d * 2_000_001) <= g * dy <= d * 2_000_001) by (nonlinear_arith)
            requires
                -1_000_000 <= g <= 1_000_000,
                -(d + 1) < dy < d + 1,
                1 <= d,
            ;
        lemma_div_trunc_bound(g * dx, d, 2_000_001);
        lemma_div_trunc_bound(g * dy, d, 2_000_001);
        assert(-(FRICTION_DEN as int * 0x4000_0000) <= -((p.velocity.x - o.velocity.x)
            * FRICTION_NUM) <= FRICTION_DEN as int * 0x4000_0000) by (nonlinear_arith)
            requires
                -0x2_0000_0000 <= p.velocity.x <= 0x2_0000_0000,
                -0x2_0000_0000 <= o.velocity.x <= 0x2_0000_0000,
            ;
        assert(-(FRICTION_DEN as int * 0x4000_0000) <= -((p.velocity.y - o.velocity.y)
            * FRICTION_NUM) <= FRICTION_DEN as int * 0x4000_0000) by (nonlinear_arith)
            requires
                -0x2_0000_0000 <= p.velocity.y <= 0x2_0000_0000,
                -0x2_0000_0000 <= o.velocity.y <= 0x2_0000_0000,
            ;
        lemma_div_trunc_bound(
            -((p.velocity.x - o.velocity.x) * FRICTION_NUM),
            FRICTION_DEN as int,
            0x4000_0000,
        );
        lemma_div_trunc_bound(
            -((p.velocity.y - o.velocity.y) * FRICTION_NUM),
            FRICTION_DEN as int,
            0x4000_0000,
        );
    }
}

/// Fixed-point unit vectors are crudely bounded by their argument scale.
proof fn lemma_normalized_bound(v: V2)
    requires
        v.abs_le(0x2000_0000),
    ensures
        spec_normalized(v).abs_le(0x8_0000_0000_0000),
        (spec_normalized(v).x as int) * 200 == spec_normalized(v).x * 200,
        -0x1000_0000_0000_0000 <= spec_normalized(v).x * 200 <= 0x1000_0000_0000_0000,
        -0x1000_0000_0000_0000 <= spec_normalized(v).y * 200 <= 0x1000_0000_0000_0000,
{
    let n = sqrt_floor(v.x * v.x + v.y * v.y);
    lemma_dist_sq_nonneg(v, V2 { x: 0, y: 0 });
    assert(v.x * v.x + v.y * v.y >= 0) by (nonlinear_arith);
    lemma_sqrt_floor_bounds(v.x * v.x + v.y * v.y);
    if n != 0 {
        lemma_div_trunc_abs(1000 * v.x, n);
        lemma_div_trunc_abs(1000 * v.y, n);
    }
}

} // verus!
