//! Scenario tests for the simulation step: repulsion along one axis,
//! boundary reflection, and the empty world.

use particle_fluid::curves::ZOrderCurve;
use particle_fluid::hilbert_tree::SpaceFillingTree;
use particle_fluid::particle::{
    reflect_boundary, rk4_integrate, smoothing_kernel_gradient, Particle, World,
};
use particle_fluid::quad_tree::QuadTree;
use particle_fluid::v2::V2;

#[test]
fn two_particles_repel_along_x_only() {
    // Particles at (0, 0) and (10, 0) length units, inside the interaction
    // radius of 20: one sub-step pushes them apart along x, with y-velocities
    // staying exactly zero.
    let mut world: World<QuadTree<Particle>> =
        World::new(V2::new(100_000, 100_000), V2::new(0, 0));
    world.add_random_particles(vec![V2::new(0, 0), V2::new(10_000, 0)]);
    world.evolve(1);
    let p0 = world.particles[0];
    let p1 = world.particles[1];
    assert_eq!(p0.velocity.y, 0);
    assert_eq!(p1.velocity.y, 0);
    assert_eq!(p0.position.y, 0);
    assert_eq!(p1.position.y, 0);
    // The left particle is pushed against the x = 0 wall and reflects; the
    // right particle moves away in +x.
    assert_eq!(p0.position.x, 0);
    assert_eq!(p0.velocity.x, 1500);
    assert_eq!(p1.position.x, 10_004);
    assert_eq!(p1.velocity.x, 1500);
}

#[test]
fn boundary_reflection_clamps_and_reflects() {
    // A particle at (-1, 5) with velocity (-3, 0) in a 100 x 100 domain:
    // after one zero-acceleration integration step the x position clamps to
    // 0 and the x velocity reflects to a positive value.
    let state = Particle::new(V2::new(-1_000, 5_000), V2::new(-3_000, 0));
    let integrated = rk4_integrate(&state, V2::new(0, 0), 6, 1000);
    assert_eq!(integrated.position.x, -1_018);
    assert_eq!(integrated.position.y, 5_000);
    assert_eq!(integrated.velocity.x, -3_000);
    let reflected = reflect_boundary(&integrated, &V2::new(100_000, 100_000));
    assert_eq!(reflected.position.x, 0);
    assert!(reflected.velocity.x > 0);
    assert_eq!(reflected.velocity.x, 3_000);
    assert_eq!(reflected.position.y, 5_000);
}

#[test]
fn empty_world_stays_empty() {
    let mut world: World<SpaceFillingTree<ZOrderCurve<Particle>>> =
        World::new(V2::new(80_000, 60_000), V2::new(0, 30_000));
    world.evolve(4);
    assert_eq!(world.particles.len(), 0);
}

#[test]
fn gravity_accelerates_a_lone_particle() {
    let mut world: World<QuadTree<Particle>> =
        World::new(V2::new(100_000, 100_000), V2::new(0, 30_000));
    world.add_random_particles(vec![V2::new(50_000, 10_000)]);
    world.evolve(1);
    let p = world.particles[0];
    // One step under gravity (0, 30): velocity picks up 30 * 0.006 = 0.18,
    // while the position change still truncates to zero milli-units.
    assert_eq!(p.velocity.y, 180);
    assert_eq!(p.velocity.x, 0);
    assert_eq!(p.position.y, 10_000);
    world.evolve(10);
    let p = world.particles[0];
    assert_eq!(p.velocity.y, 11 * 180);
    assert!(p.position.y > 10_000);
}

#[test]
fn pointer_attracts_within_range() {
    let mut world: World<QuadTree<Particle>> =
        World::new(V2::new(100_000, 100_000), V2::new(0, 0));
    world.add_random_particles(vec![V2::new(50_000, 50_000)]);
    world.update_mouse_pos(Some(V2::new(90_000, 50_000)), true);
    world.evolve(1);
    // The pointer is 40 units away, within the 100-unit range, so the
    // particle accelerates toward it along +x.
    assert!(world.particles[0].velocity.x > 0);
    assert_eq!(world.particles[0].velocity.y, 0);

    let mut far: World<QuadTree<Particle>> = World::new(V2::new(100_000, 100_000), V2::new(0, 0));
    far.add_random_particles(vec![V2::new(50_000, 50_000)]);
    far.update_mouse_pos(Some(V2::new(50_000, 10_000)), false);
    far.evolve(1);
    // Not pressing: no pointer force.
    assert_eq!(far.particles[0].velocity.x, 0);
    assert_eq!(far.particles[0].velocity.y, 0);
}

#[test]
fn kernel_values_match_the_formula() {
    // kernel(d) = max(0, (R - d) / R)^2 in millionths, R = 20 units.
    assert_eq!(smoothing_kernel_gradient(0), 1_000_000);
    assert_eq!(smoothing_kernel_gradient(10_000), 250_000);
    assert_eq!(smoothing_kernel_gradient(20_000), 0);
    assert_eq!(smoothing_kernel_gradient(30_000), 0);
    assert_eq!(smoothing_kernel_gradient(15_000), 62_500);
}

#[test]
fn evolve_preserves_particle_count() {
    let mut world: World<QuadTree<Particle>> =
        World::new(V2::new(100_000, 100_000), V2::new(0, 30_000));
    world.add_random_particles(vec![
        V2::new(10_000, 10_000),
        V2::new(12_000, 10_000),
        V2::new(11_000, 12_000),
        V2::new(90_000, 90_000),
    ]);
    world.evolve(8);
    assert_eq!(world.particles.len(), 4);
    for p in world.particles.iter() {
        assert!(0 <= p.position.x && p.position.x <= 100_000);
        assert!(0 <= p.position.y && p.position.y <= 100_000);
    }
}

#[test]
fn evolve_zero_steps_changes_nothing() {
    let mut world: World<QuadTree<Particle>> =
        World::new(V2::new(100_000, 100_000), V2::new(0, 30_000));
    world.add_random_particles(vec![V2::new(42_000, 24_000)]);
    let before = world.particles.clone();
    world.evolve(0);
    assert_eq!(world.particles, before);
}
