use particle_life::interaction_matrix::InteractionMatrix;
use particle_life::particle::ParticleType;

#[test]
fn default_table_values() {
    let m = InteractionMatrix::default();
    assert_eq!(m.get_force(ParticleType::Red, ParticleType::Red), -200);
    assert_eq!(m.get_force(ParticleType::Red, ParticleType::Blue), 150);
    assert_eq!(m.get_force(ParticleType::Red, ParticleType::Green), -100);
    assert_eq!(m.get_force(ParticleType::Red, ParticleType::NeonPink), 300);
    assert_eq!(m.get_force(ParticleType::Blue, ParticleType::Red), 150);
    assert_eq!(m.get_force(ParticleType::Blue, ParticleType::NeonPink), -250);
    assert_eq!(m.get_force(ParticleType::Green, ParticleType::Green), -300);
    assert_eq!(m.get_force(ParticleType::NeonPink, ParticleType::NeonPink), -400);
}

#[test]
fn new_lays_rows_by_source() {
    let m = InteractionMatrix::new(
        1, 2, 3, 4,
        5, 6, 7, 8,
        9, 10, 11, 12,
        13, 14, 15, 16,
    );
    assert_eq!(m.get_force(ParticleType::Red, ParticleType::Red), 1);
    assert_eq!(m.get_force(ParticleType::Red, ParticleType::NeonPink), 4);
    assert_eq!(m.get_force(ParticleType::Blue, ParticleType::Red), 5);
    assert_eq!(m.get_force(ParticleType::Green, ParticleType::Blue), 10);
    assert_eq!(m.get_force(ParticleType::NeonPink, ParticleType::Green), 15);
}

#[test]
fn set_overwrites_one_entry() {
    let mut m = InteractionMatrix::default();
    m.set(ParticleType::Green, ParticleType::Blue, 777);
    assert_eq!(m.get_force(ParticleType::Green, ParticleType::Blue), 777);
    // the transposed entry is untouched: the table is asymmetric
    assert_eq!(m.get_force(ParticleType::Blue, ParticleType::Green), 50);
}

#[test]
fn adjust_adds_to_one_entry() {
    let mut m = InteractionMatrix::default();
    m.adjust(ParticleType::Red, ParticleType::Red, 50);
    assert_eq!(m.get_force(ParticleType::Red, ParticleType::Red), -150);
    m.adjust(ParticleType::Red, ParticleType::Red, -50);
    assert_eq!(m.get_force(ParticleType::Red, ParticleType::Red), -200);
}

#[test]
fn adjust_saturates_at_the_integer_limits() {
    let mut m = InteractionMatrix::default();
    m.set(ParticleType::Red, ParticleType::Blue, i64::MAX);
    m.adjust(ParticleType::Red, ParticleType::Blue, 1);
    assert_eq!(m.get_force(ParticleType::Red, ParticleType::Blue), i64::MAX);
    m.set(ParticleType::Red, ParticleType::Blue, i64::MIN);
    m.adjust(ParticleType::Red, ParticleType::Blue, -1);
    assert_eq!(m.get_force(ParticleType::Red, ParticleType::Blue), i64::MIN);
}
