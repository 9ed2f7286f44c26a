//! Particles: a 2D fixed-point vector, the enumerated particle types with
//! their per-type mass and radius scaling, and the particle record itself.

use vstd::prelude::*;
use crate::fixed::{s_mul_div, mul_div};

verus! {

/// A 2D vector of fixed-point coordinates.
#[derive(Clone, Copy, PartialEq, Eq, Structural, Debug)]
pub struct Vec2 {
    pub x: i64,
    pub y: i64,
}

impl Vec2 {
    pub fn new(x: i64, y: i64) -> (r: Vec2)
        ensures
            r.x == x,
            r.y == y,
    {
        Vec2 { x, y }
    }
}

/// The fixed enumerated set of particle categories. Each has its own row and
/// column in the interaction matrix and its own mass/radius scaling.
#[derive(Clone, Copy, PartialEq, Eq, Structural, Debug)]
pub enum ParticleType {
    Red,
    Blue,
    Green,
    NeonPink,
}

impl ParticleType {
    /// The ordinal of this type: its row (and column) in the interaction
    /// matrix.
    pub open spec fn ordinal(self) -> int {
        match self {
            ParticleType::Red => 0,
            ParticleType::Blue => 1,
            ParticleType::Green => 2,
            ParticleType::NeonPink => 3,
        }
    }

    /// The ordinal of this type as a value.
    pub fn index(self) -> (r: usize)
        ensures
            r == self.ordinal(),
    {
        match self {
            ParticleType::Red => 0,
            ParticleType::Blue => 1,
            ParticleType::Green => 2,
            ParticleType::NeonPink => 3,
        }
    }
}

/// The mass a particle of type `t` gets when built from base mass `mass`:
/// blue particles are slightly heavier, green ones lighter.
pub open spec fn scaled_mass(t: ParticleType, mass: int) -> int {
    match t {
        ParticleType::Red => mass,
        ParticleType::Blue => s_mul_div(mass, 1200, 1000),
        ParticleType::Green => s_mul_div(mass, 800, 1000),
        ParticleType::NeonPink => mass,
    }
}

/// The radius a particle of type `t` gets when built from base radius
/// `radius`: blue particles are slightly larger, green ones smaller.
pub open spec fn scaled_radius(t: ParticleType, radius: int) -> int {
    match t {
        ParticleType::Red => radius,
        ParticleType::Blue => s_mul_div(radius, 1100, 1000),
        ParticleType::Green => s_mul_div(radius, 900, 1000),
        ParticleType::NeonPink => radius,
    }
}

/// One particle: position and velocity in fixed-point world coordinates,
/// a type, and a positive mass and radius.
#[derive(Clone, Copy, PartialEq, Eq, Structural, Debug)]
pub struct Particle {
    pub position: Vec2,
    pub velocity: Vec2,
    pub particle_type: ParticleType,
    pub mass: i64,
    pub radius: i64,
}

impl Particle {
    /// Build a particle, applying the type's mass and radius scaling to the
    /// given base values. The base values must be at least 2 fixed-point
    /// units so that every scaling still yields a positive mass and radius.
    pub fn new(position: Vec2, velocity: Vec2, particle_type: ParticleType, mass: i64, radius: i64)
        -> (r: Particle)
        requires
            mass >= 2,
            radius >= 2,
        ensures
            r.position == position,
            r.velocity == velocity,
            r.particle_type == particle_type,
            r.mass == scaled_mass(particle_type, mass as int),
            r.radius == scaled_radius(particle_type, radius as int),
            r.mass >= 1,
            r.radius >= 1,
    {
        let m = match particle_type {
            ParticleType::Red => mass,
            ParticleType::Blue => mul_div(mass, 1200, 1000),
            ParticleType::Green => mul_div(mass, 800, 1000),
            ParticleType::NeonPink => mass,
        };
        let rad = match particle_type {
            ParticleType::Red => radius,
            ParticleType::Blue => mul_div(radius, 1100, 1000),
            ParticleType::Green => mul_div(radius, 900, 1000),
            ParticleType::NeonPink => radius,
        };
        proof {
            lemma_scale_up_pos(mass as int, 1200);
            lemma_scale_up_pos(radius as int, 1100);
            lemma_scale_down_pos(mass as int, 800);
            lemma_scale_down_pos(radius as int, 900);
        }
        Particle { position, velocity, particle_type, mass: m, radius: rad }
    }
}

/// Scaling a value of at least 2 by `f / 1000` with `f >= 1000` keeps it
/// at least 1.
proof fn lemma_scale_up_pos(v: int, f: int)
    requires
        v >= 2,
        1000 <= f <= 2000,
    ensures
        s_mul_div(v, f, 1000) >= 1,
{
    assert(v * f >= 2000) by (nonlinear_arith)
        requires
            v >= 2,
            f >= 1000,
    ;
    assert(crate::fixed::div_trunc(v * f, 1000) == (v * f) / 1000);
    assert((v * f) / 1000 >= 1) by (nonlinear_arith)
        requires
            v * f >= 2000,
    ;
}

/// Scaling a value of at least 2 by `f / 1000` with `f >= 500` keeps it
/// at least 1.
proof fn lemma_scale_down_pos(v: int, f: int)
    requires
        v >= 2,
        500 <= f <= 1000,
    ensures
        s_mul_div(v, f, 1000) >= 1,
{
    assert(v * f >= 1000) by (nonlinear_arith)
        requires
            v >= 2,
            f >= 500,
    ;
    assert(crate::fixed::div_trunc(v * f, 1000) == (v * f) / 1000);
    assert((v * f) / 1000 >= 1) by (nonlinear_arith)
        requires
            v * f >= 1000,
    ;
}

} // verus!
