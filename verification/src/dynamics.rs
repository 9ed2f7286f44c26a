//! The mathematical model of one simulation tick, and the per-pair and
//! per-particle executable kernels proved to match it exactly.
//!
//! A tick, in order: accumulate pairwise forces from pre-tick positions,
//! resolve collision candidates sequentially in canonical pair order,
//! integrate velocity and position, reflect at the domain walls, and apply
//! global damping. `step_spec` composes these into a total function from
//! the pre-tick particle sequence to the post-tick one.

use vstd::prelude::*;
use crate::fixed::{
    clip, s_add, s_sub, s_mul, s_mul_div, s_mul_div_ceil, s_mid, sqrt_floor, sqrt_ceil, SCALE,
    SCALE_SQ, sat_add, sat_sub, sat_mul, mul_div, mul_div_ceil, mid_point, isqrt, isqrt_ceil,
};
use crate::particle::{Particle, Vec2};
use crate::interaction_matrix::{InteractionMatrix, mat_coef};

verus! {

/// The interaction radius: beyond this center distance two particles exert
/// no force on each other (100 world units).
pub const INTERACTION_RADIUS: i64 = 100_000;

/// The squared interaction radius, in squared fixed-point units.
pub const INTERACTION_RADIUS_SQ: i64 = 10_000_000_000;

/// Energy kept along the collision normal after a collision or wall bounce,
/// in thousandths.
pub const COLLISION_DAMPING_NUM: i64 = 800;

/// Velocity kept each tick under global drag, in thousandths.
pub const GLOBAL_DAMPING_NUM: i64 = 990;

/// A position inside the world rectangle; exactly these positions are held
/// by the spatial index.
pub open spec fn in_world(p: Particle, width: int, height: int) -> bool {
    &&& 0 <= p.position.x
    &&& p.position.x <= width
    &&& 0 <= p.position.y
    &&& p.position.y <= height
}

/// The force particle `a` receives from particle `b` under coefficient
/// table `m`: zero beyond the interaction radius, for a zero coefficient,
/// and for coincident centers; otherwise the coefficient scaled linearly by
/// `1 - distance/radius`, directed from `a` toward `b`. The direction is
/// normalized at millesimal precision against a ceiling-rounded distance,
/// so the force's norm never exceeds the coefficient's magnitude
/// (`laws::law_force_within_coefficient`).
pub open spec fn contribution(a: Particle, b: Particle, m: Seq<i64>) -> (int, int) {
    let dx = s_sub(b.position.x as int, a.position.x as int);
    let dy = s_sub(b.position.y as int, a.position.y as int);
    let d2 = s_add(s_mul(dx, dx), s_mul(dy, dy));
    if d2 > INTERACTION_RADIUS_SQ as int {
        (0, 0)
    } else {
        let c = mat_coef(m, a.particle_type, b.particle_type);
        if c == 0 || d2 == 0 {
            (0, 0)
        } else {
            let d = sqrt_floor(d2 as nat) as int;
            let fm = s_mul_div(c, INTERACTION_RADIUS - d, INTERACTION_RADIUS as int);
            let df = sqrt_ceil((d2 * SCALE_SQ) as nat) as int;
            (s_mul_div(fm, dx * SCALE as int, df), s_mul_div(fm, dy * SCALE as int, df))
        }
    }
}

/// Sum of the force contributions on particle `i` from particles `0 .. k`,
/// skipping `i` itself and particles outside the world rectangle (which are
/// not in the spatial index). Exact integer sums, not clamped.
pub open spec fn sum_forces(
    ps: Seq<Particle>,
    m: Seq<i64>,
    width: int,
    height: int,
    i: int,
    k: int,
) -> (int, int)
    decreases k,
{
    if k <= 0 {
        (0, 0)
    } else {
        let prev = sum_forces(ps, m, width, height, i, k - 1);
        if k - 1 != i && in_world(ps[k - 1], width, height) {
            let c = contribution(ps[i], ps[k - 1], m);
            (prev.0 + c.0, prev.1 + c.1)
        } else {
            prev
        }
    }
}

/// The total force on particle `i`, clamped into the `i64` range.
pub open spec fn force_on(ps: Seq<Particle>, m: Seq<i64>, width: int, height: int, i: int) -> (
    int,
    int,
) {
    let s = sum_forces(ps, m, width, height, i, ps.len() as int);
    (clip(s.0), clip(s.1))
}

/// The force on every particle.
pub open spec fn forces_all(ps: Seq<Particle>, m: Seq<i64>, width: int, height: int) -> Seq<
    (int, int),
> {
    Seq::new(ps.len(), |i: int| force_on(ps, m, width, height, i))
}

/// Squared center distance of two particles (saturating).
pub open spec fn col_d2(a: Particle, b: Particle) -> int {
    let dx = s_sub(a.position.x as int, b.position.x as int);
    let dy = s_sub(a.position.y as int, b.position.y as int);
    s_add(s_mul(dx, dx), s_mul(dy, dy))
}

/// Squared sum of two particles' radii (saturating).
pub open spec fn col_m2(a: Particle, b: Particle) -> int {
    let m = s_add(a.radius as int, b.radius as int);
    s_mul(m, m)
}

/// The ordered pair `(i, j)`, `i < j`, is a collision candidate: `j` is in
/// the spatial index (inside the world), within the broad-phase box of `i`,
/// and the two overlap.
pub open spec fn cand_pred(ps: Seq<Particle>, width: int, height: int, i: int, j: int) -> bool {
    let a = ps[i];
    let b = ps[j];
    &&& in_world(b, width, height)
    &&& -(INTERACTION_RADIUS as int) <= s_sub(b.position.x as int, a.position.x as int)
        <= INTERACTION_RADIUS as int
    &&& -(INTERACTION_RADIUS as int) <= s_sub(b.position.y as int, a.position.y as int)
        <= INTERACTION_RADIUS as int
    &&& col_d2(a, b) < col_m2(a, b)
}

/// Candidate pairs `(i, j)` for fixed `i`, with `j` ascending over
/// `i+1 .. k`.
pub open spec fn cands_for(ps: Seq<Particle>, width: int, height: int, i: int, k: int) -> Seq<
    (usize, usize),
>
    decreases k,
{
    if k <= i + 1 || k <= 0 {
        Seq::empty()
    } else {
        cands_for(ps, width, height, i, k - 1) + if cand_pred(ps, width, height, i, k - 1) {
            seq![(i as usize, (k - 1) as usize)]
        } else {
            Seq::empty()
        }
    }
}

/// All candidate pairs for `i` ranging over `0 .. k`, in canonical order:
/// `i` ascending, `j` ascending within each `i`.
pub open spec fn all_cands(ps: Seq<Particle>, width: int, height: int, k: int) -> Seq<
    (usize, usize),
>
    decreases k,
{
    if k <= 0 {
        Seq::empty()
    } else {
        all_cands(ps, width, height, k - 1) + cands_for(
            ps,
            width,
            height,
            k - 1,
            ps.len() as int,
        )
    }
}

/// Resolve one collision between particles `a` and `b` (in that order):
/// `None` when they do not overlap, their centers coincide, or their mass
/// sum is not positive; otherwise the two updated particles. Velocities
/// receive opposite damped impulses along the center normal, computed at
/// millesimal precision against a ceiling-rounded distance so the unit
/// vector never exceeds one; positions are pushed apart around their
/// midpoint far enough that the new center distance is at least the sum of
/// the radii.
pub open spec fn resolve_two(a: Particle, b: Particle) -> Option<(Particle, Particle)> {
    let dx = s_sub(a.position.x as int, b.position.x as int);
    let dy = s_sub(a.position.y as int, b.position.y as int);
    let d2 = s_add(s_mul(dx, dx), s_mul(dy, dy));
    let m2 = col_m2(a, b);
    let msum = s_add(a.mass as int, b.mass as int);
    if d2 == 0 || d2 >= m2 || msum <= 0 {
        Option::None
    } else {
        let d = sqrt_floor(d2 as nat) as int;
        let df = sqrt_ceil(s_mul(d2, SCALE_SQ as int) as nat) as int;
        let nx = s_mul_div(dx, SCALE_SQ as int, df);
        let ny = s_mul_div(dy, SCALE_SQ as int, df);
        let dvx = s_sub(a.velocity.x as int, b.velocity.x as int);
        let dvy = s_sub(a.velocity.y as int, b.velocity.y as int);
        let vn = s_add(s_mul_div(dvx, nx, SCALE as int), s_mul_div(dvy, ny, SCALE as int));
        let imp = s_mul_div(vn, 2 * SCALE as int, msum);
        let ja_x = s_mul_div(
            s_mul_div(s_mul_div(imp, b.mass as int, SCALE as int), nx, SCALE as int),
            COLLISION_DAMPING_NUM as int,
            SCALE as int,
        );
        let ja_y = s_mul_div(
            s_mul_div(s_mul_div(imp, b.mass as int, SCALE as int), ny, SCALE as int),
            COLLISION_DAMPING_NUM as int,
            SCALE as int,
        );
        let jb_x = s_mul_div(
            s_mul_div(s_mul_div(imp, a.mass as int, SCALE as int), nx, SCALE as int),
            COLLISION_DAMPING_NUM as int,
            SCALE as int,
        );
        let jb_y = s_mul_div(
            s_mul_div(s_mul_div(imp, a.mass as int, SCALE as int), ny, SCALE as int),
            COLLISION_DAMPING_NUM as int,
            SCALE as int,
        );
        let mr = s_add(a.radius as int, b.radius as int);
        let sx = s_mul_div_ceil(dx, mr, d);
        let sy = s_mul_div_ceil(dy, mr, d);
        let hx = s_mul_div(sx, 1, 2);
        let hy = s_mul_div(sy, 1, 2);
        let mx = s_mid(a.position.x as int, b.position.x as int);
        let my = s_mid(a.position.y as int, b.position.y as int);
        let na = Particle {
            position: Vec2 { x: s_add(mx, s_sub(sx, hx)) as i64, y: s_add(my, s_sub(sy, hy)) as i64 },
            velocity: Vec2 {
                x: s_sub(a.velocity.x as int, ja_x) as i64,
                y: s_sub(a.velocity.y as int, ja_y) as i64,
            },
            particle_type: a.particle_type,
            mass: a.mass,
            radius: a.radius,
        };
        let nb = Particle {
            position: Vec2 { x: s_sub(mx, hx) as i64, y: s_sub(my, hy) as i64 },
            velocity: Vec2 {
                x: s_add(b.velocity.x as int, jb_x) as i64,
                y: s_add(b.velocity.y as int, jb_y) as i64,
            },
            particle_type: b.particle_type,
            mass: b.mass,
            radius: b.radius,
        };
        Option::Some((na, nb))
    }
}

/// Resolve the pair `(i, j)` inside the particle sequence; out-of-range or
/// degenerate pairs leave the sequence unchanged.
pub open spec fn resolve_pair(ps: Seq<Particle>, i: int, j: int) -> Seq<Particle> {
    if !(0 <= i < ps.len() && 0 <= j < ps.len() && i != j) {
        ps
    } else {
        match resolve_two(ps[i], ps[j]) {
            Option::None => ps,
            Option::Some(nab) => ps.update(i, nab.0).update(j, nab.1),
        }
    }
}

/// Fold collision resolution over the first `k` candidate pairs, in order.
pub open spec fn resolve_seq(ps: Seq<Particle>, pairs: Seq<(usize, usize)>, k: int) -> Seq<
    Particle,
>
    decreases k,
{
    if k <= 0 {
        ps
    } else {
        let prev = resolve_seq(ps, pairs, k - 1);
        resolve_pair(prev, pairs[k - 1].0 as int, pairs[k - 1].1 as int)
    }
}

/// Clamp one axis to the wall: if the particle's edge crosses a wall, its
/// center is placed exactly a radius from that wall and the axis velocity
/// is reversed and damped.
pub open spec fn clamp_axis(x: int, v: int, r: int, dim: int) -> (int, int) {
    if s_sub(x, r) < 0 {
        (r, s_mul_div(v, -(COLLISION_DAMPING_NUM as int), SCALE as int))
    } else if s_add(x, r) > dim {
        (s_sub(dim, r), s_mul_div(v, -(COLLISION_DAMPING_NUM as int), SCALE as int))
    } else {
        (x, v)
    }
}

/// Integrate one particle: apply its accumulated force over `dt`, advance
/// the position, reflect at the walls (each axis independently), then apply
/// global damping to the velocity.
pub open spec fn integrate_one(p: Particle, f: (int, int), dt: int, width: int, height: int)
    -> Particle {
    let vx1 = s_add(p.velocity.x as int, s_mul_div(f.0, dt, SCALE as int));
    let vy1 = s_add(p.velocity.y as int, s_mul_div(f.1, dt, SCALE as int));
    let x1 = s_add(p.position.x as int, s_mul_div(vx1, dt, SCALE as int));
    let y1 = s_add(p.position.y as int, s_mul_div(vy1, dt, SCALE as int));
    let cx = clamp_axis(x1, vx1, p.radius as int, width);
    let cy = clamp_axis(y1, vy1, p.radius as int, height);
    Particle {
        position: Vec2 { x: cx.0 as i64, y: cy.0 as i64 },
        velocity: Vec2 {
            x: s_mul_div(cx.1, GLOBAL_DAMPING_NUM as int, SCALE as int) as i64,
            y: s_mul_div(cy.1, GLOBAL_DAMPING_NUM as int, SCALE as int) as i64,
        },
        particle_type: p.particle_type,
        mass: p.mass,
        radius: p.radius,
    }
}

/// One whole tick: forces from pre-tick positions, collision resolution in
/// canonical order, then integration with boundary reflection and damping.
pub open spec fn step_spec(ps: Seq<Particle>, m: Seq<i64>, dt: int, width: int, height: int)
    -> Seq<Particle> {
    let fs = forces_all(ps, m, width, height);
    let cands = all_cands(ps, width, height, ps.len() as int);
    let ps1 = resolve_seq(ps, cands, cands.len() as int);
    Seq::new(ps.len(), |k: int| integrate_one(ps1[k], fs[k], dt, width, height))
}

/// Broad-phase query margin: one fixed-point unit beyond the interaction
/// radius, so that inclusive radius comparisons fall strictly inside the
/// query box.
pub const QUERY_MARGIN: i64 = 100_001;

/// Broad-phase query box side length.
pub const QUERY_SIDE: i64 = 200_002;

/// The broad-phase query box around particle `a`.
pub open spec fn query_box(a: Particle) -> crate::quadtree::Bounds {
    crate::quadtree::Bounds {
        x: s_sub(a.position.x as int, QUERY_MARGIN as int) as i64,
        y: s_sub(a.position.y as int, QUERY_MARGIN as int) as i64,
        width: QUERY_SIDE,
        height: QUERY_SIDE,
    }
}

/// Build the broad-phase query box around `a`.
pub fn make_query_box(a: &Particle) -> (r: crate::quadtree::Bounds)
    ensures
        r == query_box(*a),
{
    crate::quadtree::Bounds {
        x: sat_sub(a.position.x, QUERY_MARGIN),
        y: sat_sub(a.position.y, QUERY_MARGIN),
        width: QUERY_SIDE,
        height: QUERY_SIDE,
    }
}

/// A world-rectangle position within the interaction radius of `a` on both
/// axes lies strictly inside `a`'s query box.
pub proof fn lemma_near_inside_box(a: Particle, p: Vec2)
    requires
        0 <= p.x <= crate::quadtree::MAX_DIM,
        0 <= p.y <= crate::quadtree::MAX_DIM,
        -(INTERACTION_RADIUS as int) <= s_sub(p.x as int, a.position.x as int)
            <= INTERACTION_RADIUS as int,
        -(INTERACTION_RADIUS as int) <= s_sub(p.y as int, a.position.y as int)
            <= INTERACTION_RADIUS as int,
    ensures
        crate::quadtree::strictly_inside(query_box(a), p),
{
}

/// Beyond the interaction radius on either axis there is no force
/// contribution.
pub proof fn lemma_far_contribution_zero(a: Particle, b: Particle, m: Seq<i64>)
    requires
        s_sub(b.position.x as int, a.position.x as int) > INTERACTION_RADIUS as int || s_sub(
            b.position.x as int,
            a.position.x as int,
        ) < -(INTERACTION_RADIUS as int) || s_sub(b.position.y as int, a.position.y as int)
            > INTERACTION_RADIUS as int || s_sub(b.position.y as int, a.position.y as int) < -(
        INTERACTION_RADIUS as int),
    ensures
        contribution(a, b, m) == (0int, 0int),
{
    let dx = s_sub(b.position.x as int, a.position.x as int);
    let dy = s_sub(b.position.y as int, a.position.y as int);
    assert(dx > INTERACTION_RADIUS || dx < -(INTERACTION_RADIUS as int) ==> s_mul(dx, dx)
        > INTERACTION_RADIUS_SQ as int) by (nonlinear_arith);
    assert(dy > INTERACTION_RADIUS || dy < -(INTERACTION_RADIUS as int) ==> s_mul(dy, dy)
        > INTERACTION_RADIUS_SQ as int) by (nonlinear_arith);
    assert(s_mul(dx, dx) >= 0 && s_mul(dy, dy) >= 0) by (nonlinear_arith);
    assert(s_add(s_mul(dx, dx), s_mul(dy, dy)) > INTERACTION_RADIUS_SQ as int);
}

/// Skipping particles that contribute nothing does not change the force
/// sum.
pub proof fn lemma_sum_forces_gap(
    ps: Seq<Particle>,
    m: Seq<i64>,
    width: int,
    height: int,
    i: int,
    t: int,
    k: int,
)
    requires
        0 <= t <= k,
        forall|j: int|
            t <= j < k ==> j == i || !in_world(#[trigger] ps[j], width, height) || contribution(
                ps[i],
                ps[j],
                m,
            ) == (0int, 0int),
    ensures
        sum_forces(ps, m, width, height, i, k) == sum_forces(ps, m, width, height, i, t),
    decreases k - t,
{
    if k > t {
        lemma_sum_forces_gap(ps, m, width, height, i, t, k - 1);
    }
}

/// The force sum over `k` particles is bounded by `k` contributions of
/// maximal magnitude.
pub proof fn lemma_sum_forces_bound(
    ps: Seq<Particle>,
    m: Seq<i64>,
    width: int,
    height: int,
    i: int,
    k: int,
)
    requires
        0 <= k,
    ensures
        -(k * 0x8000_0000_0000_0000) <= sum_forces(ps, m, width, height, i, k).0 <= k
            * 0x8000_0000_0000_0000,
        -(k * 0x8000_0000_0000_0000) <= sum_forces(ps, m, width, height, i, k).1 <= k
            * 0x8000_0000_0000_0000,
    decreases k,
{
    if k > 0 {
        lemma_sum_forces_bound(ps, m, width, height, i, k - 1);
    }
}

/// Skipping indices that are not candidates does not change the candidate
/// pairs for `i`.
pub proof fn lemma_cands_for_gap(
    ps: Seq<Particle>,
    width: int,
    height: int,
    i: int,
    a: int,
    b: int,
)
    requires
        0 <= a <= b,
        forall|j: int| a <= j < b ==> j <= i || !cand_pred(ps, width, height, i, j),
    ensures
        cands_for(ps, width, height, i, b) == cands_for(ps, width, height, i, a),
    decreases b - a,
{
    if b > a {
        lemma_cands_for_gap(ps, width, height, i, a, b - 1);
        if b <= i + 1 {
            lemma_cands_for_empty(ps, width, height, i, a);
            lemma_cands_for_empty(ps, width, height, i, b);
        } else {
            assert(cands_for(ps, width, height, i, b) == cands_for(ps, width, height, i, b - 1)
                + Seq::<(usize, usize)>::empty());
            assert(cands_for(ps, width, height, i, b) =~= cands_for(ps, width, height, i, b - 1));
        }
    }
}

/// Below `i + 1` there are no candidate pairs for `i`.
pub proof fn lemma_cands_for_empty(ps: Seq<Particle>, width: int, height: int, i: int, k: int)
    requires
        k <= i + 1,
    ensures
        cands_for(ps, width, height, i, k) == Seq::<(usize, usize)>::empty(),
{
}

/// Every candidate pair `(i, j)` for fixed `i` has `i < j < k`, and the
/// pairs appear with `j` strictly ascending.
pub proof fn lemma_cands_for_valid(ps: Seq<Particle>, width: int, height: int, i: int, k: int)
    requires
        0 <= i,
        k <= usize::MAX as int,
    ensures
        forall|m: int|
            0 <= m < cands_for(ps, width, height, i, k).len() ==> {
                let pr = #[trigger] cands_for(ps, width, height, i, k)[m];
                pr.0 == i && i < pr.1 < k
            },
    decreases k,
{
    if k <= i + 1 || k <= 0 {
    } else {
        lemma_cands_for_valid(ps, width, height, i, k - 1);
        let whole = cands_for(ps, width, height, i, k);
        let pre = cands_for(ps, width, height, i, k - 1);
        assert forall|m: int| 0 <= m < whole.len() implies {
            let pr = #[trigger] whole[m];
            pr.0 == i && i < pr.1 < k
        } by {
            if m < pre.len() {
                assert(whole[m] == pre[m]);
            } else {
                assert(cand_pred(ps, width, height, i, k - 1));
                assert(whole[m] == (i as usize, (k - 1) as usize));
            }
        }
    }
}

/// Every pair in the full candidate list has `0 <= i < j < len`, with `i`
/// taken from `0 .. k`.
pub proof fn lemma_all_cands_valid(ps: Seq<Particle>, width: int, height: int, k: int)
    requires
        ps.len() <= usize::MAX as int,
        k <= usize::MAX as int,
    ensures
        forall|m: int|
            0 <= m < all_cands(ps, width, height, k).len() ==> {
                let pr = #[trigger] all_cands(ps, width, height, k)[m];
                0 <= pr.0 < k && pr.0 < pr.1 < ps.len()
            },
    decreases k,
{
    if k > 0 {
        lemma_all_cands_valid(ps, width, height, k - 1);
        lemma_cands_for_valid(ps, width, height, k - 1, ps.len() as int);
        let whole = all_cands(ps, width, height, k);
        let pre = all_cands(ps, width, height, k - 1);
        let tail = cands_for(ps, width, height, k - 1, ps.len() as int);
        assert forall|m: int| 0 <= m < whole.len() implies {
            let pr = #[trigger] whole[m];
            0 <= pr.0 < k && pr.0 < pr.1 < ps.len()
        } by {
            if m < pre.len() {
                assert(whole[m] == pre[m]);
            } else {
                assert(whole[m] == tail[m - pre.len()]);
            }
        }
    }
}

/// Collision resolution never changes the length of the sequence, nor any
/// particle's type, mass, or radius.
pub proof fn lemma_resolve_seq_frame(ps: Seq<Particle>, pairs: Seq<(usize, usize)>, k: int)
    ensures
        resolve_seq(ps, pairs, k).len() == ps.len(),
        forall|q: int|
            0 <= q < ps.len() ==> {
                let rp = #[trigger] resolve_seq(ps, pairs, k)[q];
                rp.mass == ps[q].mass && rp.radius == ps[q].radius && rp.particle_type
                    == ps[q].particle_type
            },
    decreases k,
{
    if k > 0 {
        lemma_resolve_seq_frame(ps, pairs, k - 1);
    }
}

/// The force particle `a` receives from particle `b`.
pub fn force_contribution(a: &Particle, b: &Particle, m: &InteractionMatrix) -> (r: (i64, i64))
    requires
        m.wf(),
    ensures
        (r.0 as int, r.1 as int) == contribution(*a, *b, m.view_seq()),
{
    let dx = sat_sub(b.position.x, a.position.x);
    let dy = sat_sub(b.position.y, a.position.y);
    let d2 = sat_add(sat_mul(dx, dx), sat_mul(dy, dy));
    proof {
        assert(s_mul(dx as int, dx as int) >= 0 && s_mul(dy as int, dy as int) >= 0)
            by (nonlinear_arith);
    }
    if d2 > INTERACTION_RADIUS_SQ {
        return (0, 0);
    }
    let c = m.get_force(a.particle_type, b.particle_type);
    if c == 0 || d2 == 0 {
        return (0, 0);
    }
    let d = isqrt(d2);
    proof {
        assert(100_000int * 100_000int <= 10_000_000_000int);
        assert(100_001int * 100_001int > 10_000_000_000int);
        crate::fixed::lemma_sqrt_floor_le(d2 as nat, INTERACTION_RADIUS_SQ as nat);
        crate::fixed::lemma_sqrt_floor_unique(
            INTERACTION_RADIUS_SQ as nat,
            INTERACTION_RADIUS as nat,
        );
        if d == 0 {
            assert((d as int + 1) * (d as int + 1) == 1) by (nonlinear_arith)
                requires
                    d == 0,
            ;
            assert(false);
        }
    }
    let fm = mul_div(c, INTERACTION_RADIUS - d, INTERACTION_RADIUS);
    proof {
        lemma_components_within_radius(dx as int, dy as int, d2 as int);
    }
    let df = isqrt_ceil(d2 * SCALE_SQ);
    proof {
        crate::fixed::lemma_sqrt_ceil_bounds((d2 * SCALE_SQ) as nat);
    }
    (mul_div(fm, dx * SCALE, df), mul_div(fm, dy * SCALE, df))
}

/// Within the interaction radius, the saturating squared distance is exact
/// and bounds each component.
pub proof fn lemma_components_within_radius(dx: int, dy: int, d2: int)
    requires
        i64::MIN as int <= dx <= i64::MAX as int,
        i64::MIN as int <= dy <= i64::MAX as int,
        d2 == s_add(s_mul(dx, dx), s_mul(dy, dy)),
        1 <= d2 <= INTERACTION_RADIUS_SQ as int,
    ensures
        -(INTERACTION_RADIUS as int) <= dx <= INTERACTION_RADIUS as int,
        -(INTERACTION_RADIUS as int) <= dy <= INTERACTION_RADIUS as int,
        d2 == dx * dx + dy * dy,
{
    assert(dx * dx >= 0 && dy * dy >= 0) by (nonlinear_arith);
    let qa = s_mul(dx, dx);
    let qb = s_mul(dy, dy);
    assert(qa >= 0 && qb >= 0);
    assert(qa + qb <= INTERACTION_RADIUS_SQ as int);
    assert(qa == dx * dx && qb == dy * dy);
    assert(dx > INTERACTION_RADIUS || dx < -(INTERACTION_RADIUS as int) ==> dx * dx
        > INTERACTION_RADIUS_SQ as int) by (nonlinear_arith);
    assert(dy > INTERACTION_RADIUS || dy < -(INTERACTION_RADIUS as int) ==> dy * dy
        > INTERACTION_RADIUS_SQ as int) by (nonlinear_arith);
}

/// Resolve one collision between `a` and `b`; `None` when they do not
/// overlap, their centers coincide, or their mass sum is not positive.
pub fn resolve_collision(a: &Particle, b: &Particle) -> (r: Option<(Particle, Particle)>)
    ensures
        r == resolve_two(*a, *b),
{
    let dx = sat_sub(a.position.x, b.position.x);
    let dy = sat_sub(a.position.y, b.position.y);
    let d2 = sat_add(sat_mul(dx, dx), sat_mul(dy, dy));
    let mr = sat_add(a.radius, b.radius);
    let m2 = sat_mul(mr, mr);
    let msum = sat_add(a.mass, b.mass);
    proof {
        assert(s_mul(dx as int, dx as int) >= 0 && s_mul(dy as int, dy as int) >= 0)
            by (nonlinear_arith);
    }
    if d2 == 0 || d2 >= m2 || msum <= 0 {
        return None;
    }
    let d = isqrt(d2);
    proof {
        if d == 0 {
            assert((d as int + 1) * (d as int + 1) == 1) by (nonlinear_arith)
                requires
                    d == 0,
            ;
            assert(false);
        }
    }
    let fine = sat_mul(d2, SCALE_SQ);
    proof {
        assert(fine >= 1);
        crate::fixed::lemma_sqrt_ceil_bounds(fine as nat);
    }
    let df = isqrt_ceil(fine);
    let nx = mul_div(dx, SCALE_SQ, df);
    let ny = mul_div(dy, SCALE_SQ, df);
    let dvx = sat_sub(a.velocity.x, b.velocity.x);
    let dvy = sat_sub(a.velocity.y, b.velocity.y);
    let vn = sat_add(mul_div(dvx, nx, SCALE), mul_div(dvy, ny, SCALE));
    let imp = mul_div(vn, 2 * SCALE, msum);
    let ja_x = mul_div(mul_div(mul_div(imp, b.mass, SCALE), nx, SCALE), COLLISION_DAMPING_NUM, SCALE);
    let ja_y = mul_div(mul_div(mul_div(imp, b.mass, SCALE), ny, SCALE), COLLISION_DAMPING_NUM, SCALE);
    let jb_x = mul_div(mul_div(mul_div(imp, a.mass, SCALE), nx, SCALE), COLLISION_DAMPING_NUM, SCALE);
    let jb_y = mul_div(mul_div(mul_div(imp, a.mass, SCALE), ny, SCALE), COLLISION_DAMPING_NUM, SCALE);
    let sx = mul_div_ceil(dx, mr, d);
    let sy = mul_div_ceil(dy, mr, d);
    let hx = mul_div(sx, 1, 2);
    let hy = mul_div(sy, 1, 2);
    let mx = mid_point(a.position.x, b.position.x);
    let my = mid_point(a.position.y, b.position.y);
    let na = Particle {
        position: Vec2 { x: sat_add(mx, sat_sub(sx, hx)), y: sat_add(my, sat_sub(sy, hy)) },
        velocity: Vec2 { x: sat_sub(a.velocity.x, ja_x), y: sat_sub(a.velocity.y, ja_y) },
        particle_type: a.particle_type,
        mass: a.mass,
        radius: a.radius,
    };
    let nb = Particle {
        position: Vec2 { x: sat_sub(mx, hx), y: sat_sub(my, hy) },
        velocity: Vec2 { x: sat_add(b.velocity.x, jb_x), y: sat_add(b.velocity.y, jb_y) },
        particle_type: b.particle_type,
        mass: b.mass,
        radius: b.radius,
    };
    Some((na, nb))
}

/// Integrate one particle over `dt` under force `(fx, fy)`, reflecting at
/// the walls and applying global damping.
pub fn integrate_particle(p: &Particle, fx: i64, fy: i64, dt: i64, width: i64, height: i64) -> (r:
    Particle)
    ensures
        r == integrate_one(*p, (fx as int, fy as int), dt as int, width as int, height as int),
{
    let vx1 = sat_add(p.velocity.x, mul_div(fx, dt, SCALE));
    let vy1 = sat_add(p.velocity.y, mul_div(fy, dt, SCALE));
    let x1 = sat_add(p.position.x, mul_div(vx1, dt, SCALE));
    let y1 = sat_add(p.position.y, mul_div(vy1, dt, SCALE));
    let (x2, vx2) = clamp_axis_exec(x1, vx1, p.radius, width);
    let (y2, vy2) = clamp_axis_exec(y1, vy1, p.radius, height);
    Particle {
        position: Vec2 { x: x2, y: y2 },
        velocity: Vec2 {
            x: mul_div(vx2, GLOBAL_DAMPING_NUM, SCALE),
            y: mul_div(vy2, GLOBAL_DAMPING_NUM, SCALE),
        },
        particle_type: p.particle_type,
        mass: p.mass,
        radius: p.radius,
    }
}

/// Clamp one axis to the walls at `0` and `dim`.
fn clamp_axis_exec(x: i64, v: i64, r: i64, dim: i64) -> (res: (i64, i64))
    ensures
        (res.0 as int, res.1 as int) == clamp_axis(x as int, v as int, r as int, dim as int),
{
    if sat_sub(x, r) < 0 {
        (r, mul_div(v, -COLLISION_DAMPING_NUM, SCALE))
    } else if sat_add(x, r) > dim {
        (sat_sub(dim, r), mul_div(v, -COLLISION_DAMPING_NUM, SCALE))
    } else {
        (x, v)
    }
}

} // verus!
