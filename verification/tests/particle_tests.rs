use particle_life::particle::{Particle, ParticleType, Vec2};
use particle_life::fixed::{isqrt, sat_add, sat_sub, mul_div, mul_div_ceil, mid_point};

#[test]
fn red_keeps_base_mass_and_radius() {
    let p = Particle::new(
        Vec2::new(1000, 2000),
        Vec2::new(-3000, 4000),
        ParticleType::Red,
        1000,
        3000,
    );
    assert_eq!(p.position.x, 1000);
    assert_eq!(p.position.y, 2000);
    assert_eq!(p.velocity.x, -3000);
    assert_eq!(p.velocity.y, 4000);
    assert_eq!(p.mass, 1000);
    assert_eq!(p.radius, 3000);
}

#[test]
fn blue_is_heavier_and_larger() {
    let p = Particle::new(
        Vec2::new(0, 0),
        Vec2::new(0, 0),
        ParticleType::Blue,
        1000,
        3000,
    );
    assert_eq!(p.mass, 1200);
    assert_eq!(p.radius, 3300);
}

#[test]
fn green_is_lighter_and_smaller() {
    let p = Particle::new(
        Vec2::new(0, 0),
        Vec2::new(0, 0),
        ParticleType::Green,
        1000,
        3000,
    );
    assert_eq!(p.mass, 800);
    assert_eq!(p.radius, 2700);
}

#[test]
fn neon_pink_keeps_base_values() {
    let p = Particle::new(
        Vec2::new(0, 0),
        Vec2::new(0, 0),
        ParticleType::NeonPink,
        500,
        700,
    );
    assert_eq!(p.mass, 500);
    assert_eq!(p.radius, 700);
}

#[test]
fn type_ordinals_are_distinct() {
    assert_eq!(ParticleType::Red.index(), 0);
    assert_eq!(ParticleType::Blue.index(), 1);
    assert_eq!(ParticleType::Green.index(), 2);
    assert_eq!(ParticleType::NeonPink.index(), 3);
}

#[test]
fn fixed_point_kernels() {
    assert_eq!(isqrt(16_000_000), 4000);
    assert_eq!(isqrt(0), 0);
    assert_eq!(isqrt(3), 1);
    assert_eq!(isqrt(i64::MAX), 3_037_000_499);
    assert_eq!(sat_add(i64::MAX, 1), i64::MAX);
    assert_eq!(sat_sub(i64::MIN, 1), i64::MIN);
    assert_eq!(sat_add(2, 3), 5);
    // truncating scaled product, negative numerator
    assert_eq!(mul_div(-4000, 1000, 4000), -1000);
    assert_eq!(mul_div(7, 1, 2), 3);
    assert_eq!(mul_div(-7, 1, 2), -3);
    // ceiling on the magnitude
    assert_eq!(mul_div_ceil(-4000, 6000, 4000), -6000);
    assert_eq!(mul_div_ceil(7, 1, 2), 4);
    assert_eq!(mul_div_ceil(-7, 1, 2), -4);
    assert_eq!(mid_point(498_000, 502_000), 500_000);
    assert_eq!(mid_point(-3, 0), -1);
}
