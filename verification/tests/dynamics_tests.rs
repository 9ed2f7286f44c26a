use particle_life::dynamics::force_contribution;
use particle_life::interaction_matrix::InteractionMatrix;
use particle_life::particle::{Particle, ParticleType, Vec2};

fn still_red(x: i64, y: i64) -> Particle {
    Particle {
        position: Vec2 { x, y },
        velocity: Vec2 { x: 0, y: 0 },
        particle_type: ParticleType::Red,
        mass: 1000,
        radius: 1,
    }
}

fn red_red_matrix(c: i64) -> InteractionMatrix {
    InteractionMatrix::new(c, 0, 0, 0, 0, 0, 0, 0, 0, 0, 0, 0, 0, 0, 0, 0)
}

/// At one fixed-point unit of separation along one axis the direction is
/// exactly radial and the force approaches the full coefficient without
/// reaching past it.
#[test]
fn radial_force_at_one_unit() {
    let m = red_red_matrix(1000);
    let a = still_red(500_000, 500_000);
    let b = still_red(500_001, 500_000);
    let f = force_contribution(&a, &b, &m);
    // falloff (100000 - 1)/100000 of 1000, truncated; direction (+1, 0)
    assert_eq!(f, (999, 0));
}

/// At the smallest diagonal separation the two components split the
/// magnitude: the norm stays at or below the coefficient instead of
/// overshooting it by sqrt(2).
#[test]
fn diagonal_force_norm_stays_within_the_coefficient() {
    let m = red_red_matrix(1000);
    let a = still_red(500_000, 500_000);
    let b = still_red(500_001, 500_001);
    let f = force_contribution(&a, &b, &m);
    assert_eq!(f, (706, 706));
    let n2 = (f.0 as i128) * (f.0 as i128) + (f.1 as i128) * (f.1 as i128);
    assert!(n2 <= 1_000_000);
}

/// The same bound holds at an awkward oblique separation.
#[test]
fn oblique_force_norm_stays_within_the_coefficient() {
    let m = red_red_matrix(-800);
    let a = still_red(500_000, 500_000);
    let b = still_red(500_003, 500_001);
    let f = force_contribution(&a, &b, &m);
    let n2 = (f.0 as i128) * (f.0 as i128) + (f.1 as i128) * (f.1 as i128);
    assert!(n2 <= 640_000);
    // repulsion points from a away from b on both axes
    assert!(f.0 < 0 && f.1 < 0);
}
