//! The engine's guaranteed behaviours, stated and proved as theorems over
//! the tick model `dynamics::step_spec` that `World::update`'s contract
//! establishes.

use vstd::prelude::*;
use crate::fixed::{
    clip, s_add, s_sub, s_mul, s_mul_div, s_mul_div_ceil, s_mid, div_trunc, div_ceil_nn,
    sqrt_floor, sqrt_ceil, lemma_sqrt_floor_bounds, lemma_sqrt_ceil_bounds, lemma_ceil_div_bounds,
    lemma_div_trunc_mag, lemma_div_trunc_scale, SCALE, SCALE_SQ,
};
use crate::particle::Particle;
use crate::interaction_matrix::mat_coef;
use crate::quadtree::MAX_DIM;
use crate::dynamics::{
    in_world, contribution, sum_forces, force_on, forces_all, cand_pred, cands_for, all_cands,
    resolve_two, resolve_seq, clamp_axis, integrate_one, step_spec, col_d2, col_m2,
    lemma_components_within_radius, GLOBAL_DAMPING_NUM, INTERACTION_RADIUS, INTERACTION_RADIUS_SQ,
};

verus! {

/// Determinism: a tick is a pure function of the particle state, the
/// coefficient table, the time step, and the domain; two identical worlds
/// stepped with the same `dt` remain bit-for-bit identical.
pub proof fn law_determinism(
    ps1: Seq<Particle>,
    ps2: Seq<Particle>,
    m1: Seq<i64>,
    m2: Seq<i64>,
    dt: int,
    width: int,
    height: int,
)
    requires
        ps1 == ps2,
        m1 == m2,
    ensures
        step_spec(ps1, m1, dt, width, height) == step_spec(ps2, m2, dt, width, height),
{
}

/// Boundary containment: after a tick, every particle whose diameter fits
/// the domain sits with its whole radius inside the domain on both axes.
pub proof fn law_boundary_containment(
    ps: Seq<Particle>,
    m: Seq<i64>,
    dt: int,
    width: int,
    height: int,
    k: int,
)
    requires
        0 <= k < ps.len(),
        0 < width <= MAX_DIM,
        0 < height <= MAX_DIM,
        1 <= ps[k].radius,
        2 * ps[k].radius <= width,
        2 * ps[k].radius <= height,
    ensures
        ({
            let q = step_spec(ps, m, dt, width, height)[k];
            &&& q.radius == ps[k].radius
            &&& q.radius <= q.position.x <= width - q.radius
            &&& q.radius <= q.position.y <= height - q.radius
        }),
{
    let all = all_cands(ps, width, height, ps.len() as int);
    let ps1 = resolve_seq(ps, all, all.len() as int);
    crate::dynamics::lemma_resolve_seq_frame(ps, all, all.len() as int);
    let fs = forces_all(ps, m, width, height);
    let q = step_spec(ps, m, dt, width, height)[k];
    assert(q == integrate_one(ps1[k], fs[k], dt, width, height));
    let r = ps1[k].radius as int;
    assert(r == ps[k].radius);
    lemma_clamp_axis_contains(width, r);
    lemma_clamp_axis_contains(height, r);
}

/// The wall clamp leaves any coordinate with its radius inside `[0, dim]`,
/// for radii whose diameter fits.
proof fn lemma_clamp_axis_contains(dim: int, r: int)
    requires
        0 < dim <= MAX_DIM,
        1 <= r,
        2 * r <= dim,
    ensures
        forall|x: int, v: int|
            r <= #[trigger] clamp_axis(x, v, r, dim).0 <= dim - r,
{
    assert forall|x: int, v: int| r <= #[trigger] clamp_axis(x, v, r, dim).0 <= dim - r by {
        let out = clamp_axis(x, v, r, dim).0;
        if s_sub(x, r) < 0 {
            assert(out == r);
        } else if s_add(x, r) > dim {
            assert(out == s_sub(dim, r));
            assert(out == dim - r);
        } else {
            assert(s_sub(x, r) >= 0);
            assert(s_add(x, r) <= dim);
            assert(out == x);
            assert(x - r >= i64::MIN ==> x >= r);
            assert(x - r < i64::MIN ==> s_sub(x, r) == i64::MIN && i64::MIN < 0);
            assert(x + r <= i64::MAX ==> x <= dim - r);
            assert(x + r > i64::MAX ==> s_add(x, r) == i64::MAX && i64::MAX > dim);
        }
    }
}

/// Collision separation: resolving a detected collision between two
/// particles with in-domain coordinates leaves their centers at least the
/// sum of their radii apart (measured on squares, so no rounding is
/// hidden). Coordinates far outside the domain, where the saturating
/// arithmetic clamps, are excluded.
pub proof fn law_collision_separation(a: Particle, b: Particle)
    requires
        -MAX_DIM <= a.position.x <= MAX_DIM,
        -MAX_DIM <= a.position.y <= MAX_DIM,
        -MAX_DIM <= b.position.x <= MAX_DIM,
        -MAX_DIM <= b.position.y <= MAX_DIM,
        1 <= a.radius <= MAX_DIM,
        1 <= b.radius <= MAX_DIM,
        resolve_two(a, b).is_some(),
    ensures
        ({
            let nab = resolve_two(a, b)->Some_0;
            let ndx = nab.0.position.x - nab.1.position.x;
            let ndy = nab.0.position.y - nab.1.position.y;
            let nm = nab.0.radius + nab.1.radius;
            ndx * ndx + ndy * ndy >= nm * nm
        }),
{
    let big = MAX_DIM as int;
    let dx = s_sub(a.position.x as int, b.position.x as int);
    let dy = s_sub(a.position.y as int, b.position.y as int);
    assert(dx == a.position.x - b.position.x && dy == a.position.y - b.position.y);
    let mr = s_add(a.radius as int, b.radius as int);
    assert(mr == a.radius + b.radius && 2 <= mr <= 2 * big);
    assert(dx * dx <= 4 * big * big && dy * dy <= 4 * big * big && dx * dx >= 0 && dy * dy >= 0)
        by (nonlinear_arith)
        requires
            -2 * big <= dx <= 2 * big,
            -2 * big <= dy <= 2 * big,
            big == 1_000_000_000,
    ;
    assert(s_mul(dx, dx) == dx * dx && s_mul(dy, dy) == dy * dy);
    let d2 = s_add(s_mul(dx, dx), s_mul(dy, dy));
    assert(d2 == dx * dx + dy * dy);
    assert(mr * mr <= 4 * big * big) by (nonlinear_arith)
        requires
            2 <= mr <= 2 * big,
            big == 1_000_000_000,
    ;
    assert(col_m2(a, b) == mr * mr);
    assert(d2 != 0 && d2 < mr * mr && s_add(a.mass as int, b.mass as int) > 0);
    let d = sqrt_floor(d2 as nat) as int;
    lemma_sqrt_floor_bounds(d2 as nat);
    assert(d >= 1) by {
        if d == 0 {
            assert((d + 1) * (d + 1) == 1) by (nonlinear_arith)
                requires
                    d == 0,
            ;
        }
    }
    assert(d * d <= d2);
    // the separation components, exactly
    let px = if dx >= 0 { dx } else { -dx };
    let py = if dy >= 0 { dy } else { -dy };
    assert(px * px == dx * dx && py * py == dy * dy) by (nonlinear_arith)
        requires
            px == dx || px == -dx,
            py == dy || py == -dy,
    ;
    assert(px <= d && py <= d) by (nonlinear_arith)
        requires
            px * px <= d2,
            py * py <= d2,
            d2 < (d + 1) * (d + 1),
            px >= 0,
            py >= 0,
            d >= 0,
            px * px == dx * dx,
            py * py == dy * dy,
            d2 == dx * dx + dy * dy,
            dy * dy >= 0,
            dx * dx >= 0,
    ;
    let cx = div_ceil_nn(px * mr, d);
    let cy = div_ceil_nn(py * mr, d);
    assert(px * mr >= 0 && py * mr >= 0 && px * mr <= mr * d && py * mr <= mr * d)
        by (nonlinear_arith)
        requires
            0 <= px <= d,
            0 <= py <= d,
            mr >= 2,
    ;
    lemma_ceil_div_bounds(px * mr, d, mr);
    lemma_ceil_div_bounds(py * mr, d, mr);
    assert(cx <= mr && cy <= mr);
    let sx = s_mul_div_ceil(dx, mr, d);
    let sy = s_mul_div_ceil(dy, mr, d);
    assert(dx * mr == px * mr || dx * mr == -(px * mr)) by (nonlinear_arith)
        requires
            px == dx || px == -dx,
    ;
    assert(sx == if dx >= 0 { cx } else { -cx } && sy == if dy >= 0 { cy } else { -cy }) by {
        assert(dx >= 0 ==> dx * mr >= 0 && dx * mr == px * mr) by (nonlinear_arith)
            requires
                mr >= 2,
                px == if dx >= 0 { dx } else { -dx },
        ;
        assert(dx < 0 ==> dx * mr < 0 && -(dx * mr) == px * mr) by (nonlinear_arith)
            requires
                mr >= 2,
                px == if dx >= 0 { dx } else { -dx },
        ;
        assert(dy >= 0 ==> dy * mr >= 0 && dy * mr == py * mr) by (nonlinear_arith)
            requires
                mr >= 2,
                py == if dy >= 0 { dy } else { -dy },
        ;
        assert(dy < 0 ==> dy * mr < 0 && -(dy * mr) == py * mr) by (nonlinear_arith)
            requires
                mr >= 2,
                py == if dy >= 0 { dy } else { -dy },
        ;
    }
    // the squared separation beats the squared radius sum
    assert(cx * cx * (d * d) >= (px * mr) * (px * mr)) by (nonlinear_arith)
        requires
            cx * d >= px * mr,
            cx >= 0,
            px * mr >= 0,
            d >= 1,
    ;
    assert(cy * cy * (d * d) >= (py * mr) * (py * mr)) by (nonlinear_arith)
        requires
            cy * d >= py * mr,
            cy >= 0,
            py * mr >= 0,
            d >= 1,
    ;
    assert((px * mr) * (px * mr) + (py * mr) * (py * mr) == d2 * (mr * mr)) by (nonlinear_arith)
        requires
            px * px == dx * dx,
            py * py == dy * dy,
            d2 == dx * dx + dy * dy,
            px >= 0,
            py >= 0,
    ;
    assert((cx * cx + cy * cy) * (d * d) >= d2 * (mr * mr)) by (nonlinear_arith)
        requires
            cx * cx * (d * d) >= (px * mr) * (px * mr),
            cy * cy * (d * d) >= (py * mr) * (py * mr),
            (px * mr) * (px * mr) + (py * mr) * (py * mr) == d2 * (mr * mr),
    ;
    assert(cx * cx + cy * cy >= mr * mr) by (nonlinear_arith)
        requires
            (cx * cx + cy * cy) * (d * d) >= d2 * (mr * mr),
            d * d <= d2,
            d >= 1,
            mr * mr >= 0,
            cx * cx + cy * cy >= 0,
    ;
    assert(sx * sx == cx * cx && sy * sy == cy * cy) by (nonlinear_arith)
        requires
            sx == cx || sx == -cx,
            sy == cy || sy == -cy,
    ;
    // the new positions differ by exactly the separation vector
    let mx = s_mid(a.position.x as int, b.position.x as int);
    let my = s_mid(a.position.y as int, b.position.y as int);
    assert(mx == div_trunc(a.position.x + b.position.x, 2) && -big <= mx <= big);
    assert(my == div_trunc(a.position.y + b.position.y, 2) && -big <= my <= big);
    let hx = s_mul_div(sx, 1, 2);
    let hy = s_mul_div(sy, 1, 2);
    assert(hx == div_trunc(sx, 2) && hy == div_trunc(sy, 2));
    assert(-mr <= sx <= mr && -mr <= sy <= mr);
    assert(-mr <= hx <= mr && -mr <= hy <= mr) by {
        crate::fixed::lemma_div_trunc_scale(sx, 1, 2);
        crate::fixed::lemma_div_trunc_scale(sy, 1, 2);
    }
    let nab = resolve_two(a, b)->Some_0;
    assert(nab.0.position.x == s_add(mx, s_sub(sx, hx)) && nab.1.position.x == s_sub(mx, hx));
    assert(s_sub(sx, hx) == sx - hx && s_sub(sy, hy) == sy - hy);
    assert(nab.0.position.x == mx + (sx - hx) && nab.1.position.x == mx - hx);
    assert(nab.0.position.y == my + (sy - hy) && nab.1.position.y == my - hy);
    assert(nab.0.position.x - nab.1.position.x == sx);
    assert(nab.0.position.y - nab.1.position.y == sy);
    assert(nab.0.radius == a.radius && nab.1.radius == b.radius);
}

/// The force never exceeds the coefficient: beyond the interaction radius
/// it is zero, and within it the falloff factor lies in [0, 1] and the
/// direction is normalized against a ceiling-rounded millesimal distance,
/// so the force vector's squared norm is at most the squared coefficient.
pub proof fn law_force_within_coefficient(a: Particle, b: Particle, m: Seq<i64>)
    ensures
        ({
            let f = contribution(a, b, m);
            let c = mat_coef(m, a.particle_type, b.particle_type);
            f.0 * f.0 + f.1 * f.1 <= c * c
        }),
{
    let f = contribution(a, b, m);
    let c = mat_coef(m, a.particle_type, b.particle_type);
    assert(c * c >= 0) by (nonlinear_arith);
    let dx = s_sub(b.position.x as int, a.position.x as int);
    let dy = s_sub(b.position.y as int, a.position.y as int);
    let d2 = s_add(s_mul(dx, dx), s_mul(dy, dy));
    assert(s_mul(dx, dx) >= 0 && s_mul(dy, dy) >= 0) by (nonlinear_arith);
    assert(d2 >= 0);
    if d2 > INTERACTION_RADIUS_SQ as int || c == 0 || d2 == 0 {
        assert(f == (0int, 0int));
    } else {
        assert(1 <= d2 <= INTERACTION_RADIUS_SQ as int);
        lemma_components_within_radius(dx, dy, d2);
        let d = sqrt_floor(d2 as nat) as int;
        lemma_sqrt_floor_bounds(d2 as nat);
        assert(d >= 1) by {
            if d == 0 {
                assert((d + 1) * (d + 1) == 1) by (nonlinear_arith)
                    requires
                        d == 0,
                ;
            }
        }
        assert(100_000int * 100_000int <= 10_000_000_000int);
        assert(100_001int * 100_001int > 10_000_000_000int);
        crate::fixed::lemma_sqrt_floor_le(d2 as nat, INTERACTION_RADIUS_SQ as nat);
        crate::fixed::lemma_sqrt_floor_unique(
            INTERACTION_RADIUS_SQ as nat,
            INTERACTION_RADIUS as nat,
        );
        assert(0 <= INTERACTION_RADIUS - d <= INTERACTION_RADIUS);
        let fm = s_mul_div(c, INTERACTION_RADIUS - d, INTERACTION_RADIUS as int);
        lemma_div_trunc_scale(c, INTERACTION_RADIUS - d, INTERACTION_RADIUS as int);
        let cm = if c >= 0 { c } else { -c };
        let fmm = if fm >= 0 { fm } else { -fm };
        assert(0 <= fmm <= cm);
        let df = sqrt_ceil((d2 * SCALE_SQ as int) as nat) as int;
        lemma_sqrt_ceil_bounds((d2 * SCALE_SQ as int) as nat);
        assert(df >= 1);
        assert(df * df >= d2 * SCALE_SQ as int);
        let px = fm * (dx * SCALE as int);
        let py = fm * (dy * SCALE as int);
        let tx = div_trunc(px, df);
        let ty = div_trunc(py, df);
        assert(f.0 == clip(tx) && f.1 == clip(ty));
        lemma_div_trunc_mag(px, df);
        lemma_div_trunc_mag(py, df);
        let txm = if tx >= 0 { tx } else { -tx };
        let tym = if ty >= 0 { ty } else { -ty };
        let pxm = if px >= 0 { px } else { -px };
        let pym = if py >= 0 { py } else { -py };
        assert(txm * df <= pxm && tym * df <= pym);
        // clamping only shrinks a magnitude
        assert(f.0 * f.0 <= tx * tx && f.1 * f.1 <= ty * ty) by (nonlinear_arith)
            requires
                f.0 == clip(tx),
                f.1 == clip(ty),
                tx > i64::MAX ==> clip(tx) == i64::MAX as int,
                tx < i64::MIN ==> clip(tx) == i64::MIN as int,
                i64::MIN <= tx <= i64::MAX ==> clip(tx) == tx,
                ty > i64::MAX ==> clip(ty) == i64::MAX as int,
                ty < i64::MIN ==> clip(ty) == i64::MIN as int,
                i64::MIN <= ty <= i64::MAX ==> clip(ty) == ty,
        ;
        // the squared components against the squared distance
        assert(tx * tx * (df * df) <= px * px) by (nonlinear_arith)
            requires
                txm * df <= pxm,
                txm >= 0,
                pxm >= 0,
                df >= 1,
                tx == txm || tx == -txm,
                px == pxm || px == -pxm,
        ;
        assert(ty * ty * (df * df) <= py * py) by (nonlinear_arith)
            requires
                tym * df <= pym,
                tym >= 0,
                pym >= 0,
                df >= 1,
                ty == tym || ty == -tym,
                py == pym || py == -pym,
        ;
        assert(px * px + py * py == fm * fm * (SCALE_SQ as int) * d2) by (nonlinear_arith)
            requires
                px == fm * (dx * SCALE as int),
                py == fm * (dy * SCALE as int),
                d2 == dx * dx + dy * dy,
                SCALE_SQ as int == SCALE as int * SCALE as int,
        ;
        assert(fm * fm * (SCALE_SQ as int) * d2 <= fm * fm * (df * df)) by (nonlinear_arith)
            requires
                df * df >= d2 * SCALE_SQ as int,
                d2 >= 1,
        ;
        assert(tx * tx + ty * ty <= fm * fm) by (nonlinear_arith)
            requires
                tx * tx * (df * df) <= px * px,
                ty * ty * (df * df) <= py * py,
                px * px + py * py <= fm * fm * (df * df),
                df >= 1,
        ;
        assert(fm * fm <= c * c) by (nonlinear_arith)
            requires
                0 <= fmm <= cm,
                fm == fmm || fm == -fmm,
                c == cm || c == -cm,
        ;
    }
}

/// No double resolution: the canonical candidate list never contains the
/// same unordered pair twice, so each detected collision receives exactly
/// one impulse pair per tick.
pub proof fn law_no_double_resolution(
    ps: Seq<Particle>,
    width: int,
    height: int,
    k1: int,
    k2: int,
)
    requires
        ps.len() <= usize::MAX as int,
        0 <= k1 < k2 < all_cands(ps, width, height, ps.len() as int).len(),
    ensures
        ({
            let p1 = all_cands(ps, width, height, ps.len() as int)[k1];
            let p2 = all_cands(ps, width, height, ps.len() as int)[k2];
            &&& !(p1.0 == p2.0 && p1.1 == p2.1)
            &&& !(p1.0 == p2.1 && p1.1 == p2.0)
        }),
{
    crate::dynamics::lemma_all_cands_valid(ps, width, height, ps.len() as int);
    lemma_all_cands_distinct(ps, width, height, ps.len() as int);
    let p1 = all_cands(ps, width, height, ps.len() as int)[k1];
    let p2 = all_cands(ps, width, height, ps.len() as int)[k2];
    assert(p1.0 < p1.1 && p2.0 < p2.1);
}

/// Within the candidate list, pairs are strictly ordered: `i` ascending,
/// and `j` strictly ascending within equal `i`.
proof fn lemma_cands_for_ascending(ps: Seq<Particle>, width: int, height: int, i: int, k: int)
    requires
        0 <= i,
        k <= usize::MAX as int,
    ensures
        forall|m1: int, m2: int|
            0 <= m1 < m2 < cands_for(ps, width, height, i, k).len() ==> (#[trigger] cands_for(
                ps,
                width,
                height,
                i,
                k,
            )[m1]).1 < (#[trigger] cands_for(ps, width, height, i, k)[m2]).1,
    decreases k,
{
    if k <= i + 1 || k <= 0 {
    } else {
        lemma_cands_for_ascending(ps, width, height, i, k - 1);
        crate::dynamics::lemma_cands_for_valid(ps, width, height, i, k - 1);
        let whole = cands_for(ps, width, height, i, k);
        let pre = cands_for(ps, width, height, i, k - 1);
        assert forall|m1: int, m2: int| 0 <= m1 < m2 < whole.len() implies (
        #[trigger] whole[m1]).1 < (#[trigger] whole[m2]).1 by {
            if m2 < pre.len() {
                assert(whole[m1] == pre[m1] && whole[m2] == pre[m2]);
            } else {
                assert(whole[m1] == pre[m1]);
                assert(cand_pred(ps, width, height, i, k - 1));
                assert(whole[m2] == (i as usize, (k - 1) as usize));
                assert(pre[m1].1 < k - 1);
            }
        }
    }
}

/// No pair occurs twice in the candidate list.
proof fn lemma_all_cands_distinct(ps: Seq<Particle>, width: int, height: int, k: int)
    requires
        ps.len() <= usize::MAX as int,
        k <= usize::MAX as int,
    ensures
        forall|m1: int, m2: int|
            0 <= m1 < m2 < all_cands(ps, width, height, k).len() ==> (#[trigger] all_cands(
                ps,
                width,
                height,
                k,
            )[m1]) != (#[trigger] all_cands(ps, width, height, k)[m2]),
    decreases k,
{
    if k > 0 {
        lemma_all_cands_distinct(ps, width, height, k - 1);
        crate::dynamics::lemma_all_cands_valid(ps, width, height, k - 1);
        if k - 1 >= 0 {
            crate::dynamics::lemma_cands_for_valid(ps, width, height, k - 1, ps.len() as int);
            lemma_cands_for_ascending(ps, width, height, k - 1, ps.len() as int);
        }
        let whole = all_cands(ps, width, height, k);
        let pre = all_cands(ps, width, height, k - 1);
        let tail = cands_for(ps, width, height, k - 1, ps.len() as int);
        assert forall|m1: int, m2: int| 0 <= m1 < m2 < whole.len() implies (#[trigger] whole[m1])
            != (#[trigger] whole[m2]) by {
            if m2 < pre.len() {
                assert(whole[m1] == pre[m1] && whole[m2] == pre[m2]);
            } else if m1 >= pre.len() {
                assert(whole[m1] == tail[m1 - pre.len()] && whole[m2] == tail[m2 - pre.len()]);
            } else {
                assert(whole[m1] == pre[m1] && whole[m2] == tail[m2 - pre.len()]);
                assert(pre[m1].0 < k - 1);
                assert(tail[m2 - pre.len()].0 == k - 1);
            }
        }
    }
}

/// Zero-coefficient skip: under an all-zero interaction matrix and with no
/// two particles overlapping, a particle whose path stays clear of the
/// walls moves in a straight line, scaled only by the global damping.
pub proof fn law_zero_coefficient_straight_line(
    ps: Seq<Particle>,
    m: Seq<i64>,
    dt: int,
    width: int,
    height: int,
    k: int,
)
    requires
        0 <= k < ps.len(),
        forall|idx: int| 0 <= idx < m.len() ==> m[idx] == 0,
        m.len() == 16,
        forall|i: int, j: int|
            0 <= i < ps.len() && 0 <= j < ps.len() && i < j ==> col_d2(#[trigger] ps[i], #[trigger] ps[j])
                >= col_m2(ps[i], ps[j]),
        ({
            let x1 = s_add(ps[k].position.x as int, s_mul_div(ps[k].velocity.x as int, dt, SCALE as int));
            let y1 = s_add(ps[k].position.y as int, s_mul_div(ps[k].velocity.y as int, dt, SCALE as int));
            &&& s_sub(x1, ps[k].radius as int) >= 0
            &&& s_add(x1, ps[k].radius as int) <= width
            &&& s_sub(y1, ps[k].radius as int) >= 0
            &&& s_add(y1, ps[k].radius as int) <= height
        }),
    ensures
        ({
            let q = step_spec(ps, m, dt, width, height)[k];
            let p = ps[k];
            &&& q.position.x == s_add(p.position.x as int, s_mul_div(p.velocity.x as int, dt, SCALE as int))
            &&& q.position.y == s_add(p.position.y as int, s_mul_div(p.velocity.y as int, dt, SCALE as int))
            &&& q.velocity.x == s_mul_div(p.velocity.x as int, GLOBAL_DAMPING_NUM as int, SCALE as int)
            &&& q.velocity.y == s_mul_div(p.velocity.y as int, GLOBAL_DAMPING_NUM as int, SCALE as int)
        }),
{
    lemma_zero_matrix_no_force(ps, m, width, height, k, ps.len() as int);
    lemma_no_overlap_no_cands(ps, width, height, ps.len() as int);
    let all = all_cands(ps, width, height, ps.len() as int);
    assert(all.len() == 0);
    assert(resolve_seq(ps, all, 0) == ps);
    let fs = forces_all(ps, m, width, height);
    assert(fs[k] == (0int, 0int));
    let q = step_spec(ps, m, dt, width, height)[k];
    assert(q == integrate_one(ps[k], (0int, 0int), dt, width, height));
    let p = ps[k];
    assert(s_mul_div(0, dt, SCALE as int) == 0);
    assert(s_add(p.velocity.x as int, 0) == p.velocity.x);
    assert(s_add(p.velocity.y as int, 0) == p.velocity.y);
}

/// An all-zero matrix yields zero total force.
proof fn lemma_zero_matrix_no_force(
    ps: Seq<Particle>,
    m: Seq<i64>,
    width: int,
    height: int,
    i: int,
    k: int,
)
    requires
        forall|idx: int| 0 <= idx < m.len() ==> m[idx] == 0,
        m.len() == 16,
        0 <= i < ps.len(),
        0 <= k <= ps.len(),
    ensures
        sum_forces(ps, m, width, height, i, k) == (0int, 0int),
    decreases k,
{
    if k > 0 {
        lemma_zero_matrix_no_force(ps, m, width, height, i, k - 1);
        if k - 1 != i && in_world(ps[k - 1], width, height) {
            let t1 = ps[i].particle_type;
            let t2 = ps[k - 1].particle_type;
            assert(0 <= t1.ordinal() * 4 + t2.ordinal() < 16);
            assert(mat_coef(m, t1, t2) == 0);
        }
    }
}

/// With no overlapping pair there are no collision candidates.
proof fn lemma_no_overlap_no_cands(ps: Seq<Particle>, width: int, height: int, k: int)
    requires
        forall|i: int, j: int|
            0 <= i < ps.len() && 0 <= j < ps.len() && i < j ==> col_d2(#[trigger] ps[i], #[trigger] ps[j])
                >= col_m2(ps[i], ps[j]),
        k <= ps.len(),
    ensures
        all_cands(ps, width, height, k).len() == 0,
    decreases k,
{
    if k > 0 {
        lemma_no_overlap_no_cands(ps, width, height, k - 1);
        lemma_no_overlap_no_cands_for(ps, width, height, k - 1, ps.len() as int);
    }
}

/// With no overlapping pair, `cands_for` is empty.
proof fn lemma_no_overlap_no_cands_for(
    ps: Seq<Particle>,
    width: int,
    height: int,
    i: int,
    k: int,
)
    requires
        forall|i2: int, j: int|
            0 <= i2 < ps.len() && 0 <= j < ps.len() && i2 < j ==> col_d2(
                #[trigger] ps[i2],
                #[trigger] ps[j],
            ) >= col_m2(ps[i2], ps[j]),
        0 <= i,
        k <= ps.len(),
    ensures
        cands_for(ps, width, height, i, k).len() == 0,
    decreases k,
{
    if !(k <= i + 1 || k <= 0) {
        lemma_no_overlap_no_cands_for(ps, width, height, i, k - 1);
        assert(!cand_pred(ps, width, height, i, k - 1));
    }
}

/// Asymmetric interaction: with exactly two in-world particles, each one's
/// force is a single contribution computed from its own row of the matrix;
/// nothing is symmetrized or averaged.
pub proof fn law_own_row_interaction(
    ps: Seq<Particle>,
    m: Seq<i64>,
    width: int,
    height: int,
)
    requires
        ps.len() == 2,
        in_world(ps[0], width, height),
        in_world(ps[1], width, height),
    ensures
        force_on(ps, m, width, height, 0) == (
            clip(contribution(ps[0], ps[1], m).0),
            clip(contribution(ps[0], ps[1], m).1),
        ),
        force_on(ps, m, width, height, 1) == (
            clip(contribution(ps[1], ps[0], m).0),
            clip(contribution(ps[1], ps[0], m).1),
        ),
{
    assert(sum_forces(ps, m, width, height, 0, 2) == contribution(ps[0], ps[1], m)) by {
        assert(sum_forces(ps, m, width, height, 0, 0) == (0int, 0int));
        assert(sum_forces(ps, m, width, height, 0, 1) == (0int, 0int));
    }
    assert(sum_forces(ps, m, width, height, 1, 2) == contribution(ps[1], ps[0], m)) by {
        assert(sum_forces(ps, m, width, height, 1, 0) == (0int, 0int));
        assert(sum_forces(ps, m, width, height, 1, 1) == contribution(ps[1], ps[0], m));
    }
}

} // verus!
