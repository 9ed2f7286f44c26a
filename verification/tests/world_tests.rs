use particle_life::world::World;
use particle_life::interaction_matrix::InteractionMatrix;
use particle_life::particle::{Particle, ParticleType, Vec2};

fn zero_matrix() -> InteractionMatrix {
    InteractionMatrix::new(0, 0, 0, 0, 0, 0, 0, 0, 0, 0, 0, 0, 0, 0, 0, 0)
}

fn red(x: i64, y: i64, vx: i64, vy: i64) -> Particle {
    Particle::new(Vec2::new(x, y), Vec2::new(vx, vy), ParticleType::Red, 1000, 3000)
}

#[test]
fn store_operations() {
    let mut w = World::new(1_000_000, 800_000);
    assert_eq!(w.particle_count(), 0);
    w.add_particle(red(100_000, 100_000, 0, 0));
    w.add_particle(red(200_000, 100_000, 0, 0));
    assert_eq!(w.particle_count(), 2);
    assert_eq!(w.get_particles()[0].position.x, 100_000);
    assert_eq!(w.get_particles()[1].position.x, 200_000);
    w.clear();
    assert_eq!(w.particle_count(), 0);
}

#[test]
fn matrix_operations_through_the_world() {
    let mut w = World::new(1_000_000, 800_000);
    assert_eq!(
        w.get_interaction_matrix().get_force(ParticleType::Red, ParticleType::Red),
        -200
    );
    w.set_interaction(ParticleType::Red, ParticleType::Red, 42);
    assert_eq!(
        w.get_interaction_matrix().get_force(ParticleType::Red, ParticleType::Red),
        42
    );
    w.adjust_interaction(ParticleType::Red, ParticleType::Red, -2);
    assert_eq!(
        w.get_interaction_matrix().get_force(ParticleType::Red, ParticleType::Red),
        40
    );
    w.set_interaction_matrix(zero_matrix());
    assert_eq!(
        w.get_interaction_matrix().get_force(ParticleType::Red, ParticleType::Blue),
        0
    );
    let m = w.get_interaction_matrix_mut();
    m.set(ParticleType::Blue, ParticleType::Green, 7);
    m.adjust(ParticleType::Blue, ParticleType::Green, 3);
    assert_eq!(
        w.get_interaction_matrix().get_force(ParticleType::Blue, ParticleType::Green),
        10
    );
}

/// Two same-type particles of radius 3, 4 units apart (minimum separation
/// 6), moving toward each other at speed 10, collision damping 0.8: after
/// one tick they are at least 6 units apart and their velocities have
/// reversed along the collision normal, scaled by the damping.
#[test]
fn head_on_collision_separates_and_reverses() {
    let mut w = World::new(1_000_000, 1_000_000);
    w.set_interaction_matrix(zero_matrix());
    w.add_particle(red(498_000, 500_000, 10_000, 0));
    w.add_particle(red(502_000, 500_000, -10_000, 0));
    w.update(1000);
    let ps = w.get_particles();
    assert_eq!(ps[0].position.x, 491_000);
    assert_eq!(ps[0].position.y, 500_000);
    assert_eq!(ps[0].velocity.x, -5940);
    assert_eq!(ps[0].velocity.y, 0);
    assert_eq!(ps[1].position.x, 509_000);
    assert_eq!(ps[1].position.y, 500_000);
    assert_eq!(ps[1].velocity.x, 5940);
    assert_eq!(ps[1].velocity.y, 0);
    let dx = ps[1].position.x - ps[0].position.x;
    assert!(dx >= 6000);
}

/// A scene with exactly two overlapping particles and one distant third:
/// exactly one impulse pair is applied, and the distant particle is
/// untouched.
#[test]
fn one_impulse_pair_per_collision() {
    let mut w = World::new(1_000_000, 1_000_000);
    w.set_interaction_matrix(zero_matrix());
    w.add_particle(red(498_000, 500_000, 10_000, 0));
    w.add_particle(red(502_000, 500_000, -10_000, 0));
    w.add_particle(red(100_000, 100_000, 0, 0));
    w.update(1000);
    let ps = w.get_particles();
    // a doubled impulse would give |vx| 9_600 before damping, not 6_000
    assert_eq!(ps[0].velocity.x, -5940);
    assert_eq!(ps[1].velocity.x, 5940);
    assert_eq!(ps[2].position.x, 100_000);
    assert_eq!(ps[2].position.y, 100_000);
    assert_eq!(ps[2].velocity.x, 0);
    assert_eq!(ps[2].velocity.y, 0);
}

/// A particle just inside the right wall moving right is clamped to
/// `width - radius` with its x velocity reversed and damped.
#[test]
fn right_wall_bounce() {
    let mut w = World::new(1_000_000, 800_000);
    w.set_interaction_matrix(zero_matrix());
    w.add_particle(red(999_000, 400_000, 50_000, 0));
    w.update(1000);
    let ps = w.get_particles();
    assert_eq!(ps[0].position.x, 997_000);
    assert!(ps[0].velocity.x < 0);
    assert_eq!(ps[0].velocity.x, -39_600);
    assert_eq!(ps[0].position.y, 400_000);
    assert_eq!(ps[0].velocity.y, 0);
}

/// A particle can bounce off two walls in the same tick (a corner).
#[test]
fn corner_bounce_hits_both_axes() {
    let mut w = World::new(1_000_000, 800_000);
    w.set_interaction_matrix(zero_matrix());
    w.add_particle(red(999_000, 799_000, 50_000, 50_000));
    w.update(1000);
    let ps = w.get_particles();
    assert_eq!(ps[0].position.x, 997_000);
    assert_eq!(ps[0].position.y, 797_000);
    assert_eq!(ps[0].velocity.x, -39_600);
    assert_eq!(ps[0].velocity.y, -39_600);
}

/// A particle added outside the domain is pulled back inside by the
/// boundary constraint on the next tick.
#[test]
fn out_of_bounds_particle_is_clamped_in() {
    let mut w = World::new(1_000_000, 800_000);
    w.set_interaction_matrix(zero_matrix());
    w.add_particle(red(-50_000, 400_000, 0, 0));
    w.update(1000);
    let ps = w.get_particles();
    assert_eq!(ps[0].position.x, 3000);
    assert_eq!(ps[0].position.y, 400_000);
}

/// With all coefficients zero and no contacts, particles move in straight
/// lines scaled only by the global damping.
#[test]
fn zero_coefficients_give_straight_lines() {
    let mut w = World::new(1_000_000, 800_000);
    w.set_interaction_matrix(zero_matrix());
    w.add_particle(red(100_000, 100_000, 5000, 3000));
    w.add_particle(red(900_000, 700_000, -4000, 1000));
    w.update(1000);
    let ps = w.get_particles();
    assert_eq!(ps[0].position.x, 105_000);
    assert_eq!(ps[0].position.y, 103_000);
    assert_eq!(ps[0].velocity.x, 4950);
    assert_eq!(ps[0].velocity.y, 2970);
    assert_eq!(ps[1].position.x, 896_000);
    assert_eq!(ps[1].position.y, 701_000);
    assert_eq!(ps[1].velocity.x, -3960);
    assert_eq!(ps[1].velocity.y, 990);
}

/// Each particle's force comes from its own row of the matrix: with
/// red->blue = 0.5 and blue->red = -0.5, the red particle is attracted
/// toward the blue one and the blue particle is repelled from the red one;
/// nothing is averaged to zero.
#[test]
fn interaction_uses_own_row_not_an_average() {
    let mut w = World::new(1_000_000, 1_000_000);
    let m = InteractionMatrix::new(
        0, 500, 0, 0,
        -500, 0, 0, 0,
        0, 0, 0, 0,
        0, 0, 0, 0,
    );
    w.set_interaction_matrix(m);
    // red on the left, blue 50 units to its right, inside the interaction
    // radius of 100 and overlapping nothing
    w.add_particle(red(450_000, 500_000, 0, 0));
    w.add_particle(Particle::new(
        Vec2::new(500_000, 500_000),
        Vec2::new(0, 0),
        ParticleType::Blue,
        1000,
        3000,
    ));
    w.update(1000);
    let ps = w.get_particles();
    // red: coefficient +0.5, falloff (1 - 50/100) = 0.5, toward blue (+x)
    assert_eq!(ps[0].velocity.x, 247);
    assert_eq!(ps[0].position.x, 450_250);
    assert_eq!(ps[0].velocity.y, 0);
    // blue: its own coefficient -0.5, repelled away from red (+x)
    assert_eq!(ps[1].velocity.x, 247);
    assert_eq!(ps[1].position.x, 500_250);
    assert_eq!(ps[1].velocity.y, 0);
}

/// A force pushing a particle beyond the interaction radius is zero: at
/// exactly 100 units the linear falloff reaches zero.
#[test]
fn no_force_at_the_interaction_radius() {
    let mut w = World::new(1_000_000, 1_000_000);
    let m = InteractionMatrix::new(
        900, 0, 0, 0,
        0, 0, 0, 0,
        0, 0, 0, 0,
        0, 0, 0, 0,
    );
    w.set_interaction_matrix(m);
    w.add_particle(red(400_000, 500_000, 0, 0));
    w.add_particle(red(500_000, 500_000, 0, 0));
    w.update(1000);
    let ps = w.get_particles();
    assert_eq!(ps[0].velocity.x, 0);
    assert_eq!(ps[1].velocity.x, 0);
    assert_eq!(ps[0].position.x, 400_000);
    assert_eq!(ps[1].position.x, 500_000);
}

/// Identical worlds stepped identically stay bit-for-bit identical.
#[test]
fn repeated_runs_are_deterministic() {
    let build = || {
        let mut w = World::new(1_000_000, 800_000);
        w.add_particle(red(498_000, 500_000, 10_000, 0));
        w.add_particle(red(502_000, 500_000, -10_000, 0));
        w.add_particle(Particle::new(
            Vec2::new(300_000, 300_000),
            Vec2::new(7000, -2000),
            ParticleType::Blue,
            1000,
            3000,
        ));
        w.add_particle(Particle::new(
            Vec2::new(320_000, 310_000),
            Vec2::new(-1000, 500),
            ParticleType::Green,
            1000,
            3000,
        ));
        w.add_particle(Particle::new(
            Vec2::new(310_000, 305_000),
            Vec2::new(0, 0),
            ParticleType::NeonPink,
            1000,
            3000,
        ));
        w
    };
    let mut w1 = build();
    let mut w2 = build();
    for _ in 0..5 {
        w1.update(16);
        w2.update(16);
    }
    let p1 = w1.get_particles();
    let p2 = w2.get_particles();
    assert_eq!(p1.len(), p2.len());
    for k in 0..p1.len() {
        assert_eq!(p1[k], p2[k]);
    }
}

/// Boundary containment after an energetic mixed run: every particle ends
/// each tick with its whole radius inside the domain.
#[test]
fn all_particles_stay_inside_the_domain() {
    let mut w = World::new(400_000, 300_000);
    for i in 0..40i64 {
        let t = match i % 4 {
            0 => ParticleType::Red,
            1 => ParticleType::Blue,
            2 => ParticleType::Green,
            _ => ParticleType::NeonPink,
        };
        w.add_particle(Particle::new(
            Vec2::new((i * 9719) % 400_000, (i * 4241) % 300_000),
            Vec2::new((i % 7 - 3) * 20_000, (i % 5 - 2) * 20_000),
            t,
            1000,
            3000,
        ));
    }
    for _ in 0..10 {
        w.update(33);
        for p in w.get_particles() {
            assert!(p.radius <= p.position.x && p.position.x <= 400_000 - p.radius);
            assert!(p.radius <= p.position.y && p.position.y <= 300_000 - p.radius);
        }
    }
}

/// Two overlapping particles end a resolution at least the sum of their
/// radii apart, whatever the approach angle.
#[test]
fn oblique_collision_separates() {
    let mut w = World::new(1_000_000, 1_000_000);
    w.set_interaction_matrix(zero_matrix());
    // 3 units apart diagonally, radii 3 + 3: deeply overlapping
    w.add_particle(red(500_000, 500_000, 2000, 1000));
    w.add_particle(red(502_000, 502_236, -1500, -500));
    // a zero time step: collisions are detected and resolved, nothing moves
    w.update(0);
    let ps = w.get_particles();
    let dx = (ps[0].position.x - ps[1].position.x) as i128;
    let dy = (ps[0].position.y - ps[1].position.y) as i128;
    let m = (ps[0].radius + ps[1].radius) as i128;
    assert!(dx * dx + dy * dy >= m * m);
}

/// A tick on an empty world is a no-op.
#[test]
fn empty_world_update() {
    let mut w = World::new(1_000_000, 800_000);
    w.update(1000);
    assert_eq!(w.particle_count(), 0);
}

/// Exactly coincident centers have no defined collision normal; the engine
/// treats such a pair as non-interacting rather than dividing by zero.
#[test]
fn coincident_centers_are_left_alone() {
    let mut w = World::new(1_000_000, 1_000_000);
    w.set_interaction_matrix(zero_matrix());
    w.add_particle(red(500_000, 500_000, 0, 0));
    w.add_particle(red(500_000, 500_000, 0, 0));
    w.update(1000);
    let ps = w.get_particles();
    assert_eq!(ps[0].position.x, 500_000);
    assert_eq!(ps[1].position.x, 500_000);
    assert_eq!(ps[0].velocity.x, 0);
    assert_eq!(ps[1].velocity.x, 0);
}
