//! The world: the particle store, the interaction matrix, the domain
//! rectangle, and the spatial index, with the tick operation `update` whose
//! contract pins the whole simulation step down as `dynamics::step_spec`.

use vstd::prelude::*;
use crate::particle::Particle;
use crate::interaction_matrix::{InteractionMatrix, mat_coef};
use crate::particle::ParticleType;
use crate::quadtree::{
    QuadTree, Bounds, ParticleInsert, distinct_indices, contains_index, strictly_inside,
    query_covers, MAX_DIM,
};
use crate::dynamics::{
    in_world, contribution, sum_forces, force_on, forces_all, cand_pred, cands_for, all_cands,
    resolve_seq, resolve_pair, step_spec, query_box, make_query_box, force_contribution,
    resolve_collision, integrate_particle, integrate_one, lemma_near_inside_box,
    lemma_far_contribution_zero, lemma_sum_forces_gap, lemma_sum_forces_bound,
    lemma_cands_for_gap, lemma_cands_for_empty, lemma_all_cands_valid, lemma_resolve_seq_frame,
};
use crate::fixed::{s_add, s_sub, sat_sub, clip128};

verus! {

broadcast use vstd::seq_lib::group_to_multiset_ensures;

/// The largest particle count a world accepts; bounded so that force
/// accumulation stays exact in 128-bit intermediates.
pub const N_MAX: usize = 1_000_000_000;

/// The simulation world.
pub struct World {
    particles: Vec<Particle>,
    width: i64,
    height: i64,
    interaction_matrix: InteractionMatrix,
    quad_tree: QuadTree,
}

/// The entries of the spatial index mirror the store: every entry is some
/// in-world particle of `ps` below `k` at its true position, each such
/// particle is present, and no index twice.
pub open spec fn entries_match(
    es: Seq<ParticleInsert>,
    ps: Seq<Particle>,
    width: int,
    height: int,
    k: int,
) -> bool {
    &&& forall|m: int|
        0 <= m < es.len() ==> {
            let e = #[trigger] es[m];
            &&& e.index < k
            &&& e.index < ps.len()
            &&& in_world(ps[e.index as int], width, height)
            &&& e.position == ps[e.index as int].position
        }
    &&& forall|j: int|
        0 <= j < k && j < ps.len() && in_world(#[trigger] ps[j], width, height)
            ==> contains_index(es, j as usize)
    &&& distinct_indices(es)
}

impl World {
    /// The particle store, in insertion order.
    pub closed spec fn particles_spec(self) -> Seq<Particle> {
        self.particles@
    }

    /// The domain width.
    pub closed spec fn width_spec(self) -> int {
        self.width as int
    }

    /// The domain height.
    pub closed spec fn height_spec(self) -> int {
        self.height as int
    }

    /// The interaction matrix's flattened coefficient table.
    pub closed spec fn matrix_spec(self) -> Seq<i64> {
        self.interaction_matrix.view_seq()
    }

    /// Well-formedness: the domain is a positive rectangle within `MAX_DIM`,
    /// every stored particle has positive mass and radius, the matrix is
    /// fully populated, and the spatial index is a well-formed tree rooted
    /// on the domain rectangle.
    pub closed spec fn wf(self) -> bool {
        &&& self.particles@.len() <= N_MAX
        &&& forall|k: int|
            0 <= k < self.particles@.len() ==> (#[trigger] self.particles@[k]).mass >= 1
                && self.particles@[k].radius >= 1
        &&& 0 < self.width <= MAX_DIM
        &&& 0 < self.height <= MAX_DIM
        &&& self.interaction_matrix.wf()
        &&& self.quad_tree.wf()
        &&& self.quad_tree.bounds_spec() == Bounds {
            x: 0,
            y: 0,
            width: self.width,
            height: self.height,
        }
        &&& self.quad_tree.depth_spec() == 0
    }

    /// Build an empty world over a `width` by `height` domain with the
    /// default interaction matrix.
    pub fn new(width: i64, height: i64) -> (r: World)
        requires
            0 < width <= MAX_DIM,
            0 < height <= MAX_DIM,
        ensures
            r.wf(),
            r.particles_spec() == Seq::<Particle>::empty(),
            r.width_spec() == width,
            r.height_spec() == height,
            r.matrix_spec() == crate::interaction_matrix::default_coefficients(),
    {
        let bounds = Bounds { x: 0, y: 0, width, height };
        World {
            particles: Vec::new(),
            width,
            height,
            interaction_matrix: InteractionMatrix::default(),
            quad_tree: QuadTree::new(bounds, 0),
        }
    }

    /// Replace the interaction matrix.
    pub fn set_interaction_matrix(&mut self, matrix: InteractionMatrix)
        requires
            old(self).wf(),
            matrix.wf(),
        ensures
            final(self).wf(),
            final(self).matrix_spec() == matrix.view_seq(),
            final(self).particles_spec() == old(self).particles_spec(),
            final(self).width_spec() == old(self).width_spec(),
            final(self).height_spec() == old(self).height_spec(),
    {
        self.interaction_matrix = matrix;
    }

    /// Read the interaction matrix.
    pub fn get_interaction_matrix(&self) -> (r: &InteractionMatrix)
        requires
            self.wf(),
        ensures
            r.wf(),
            r.view_seq() == self.matrix_spec(),
    {
        &self.interaction_matrix
    }

    /// Read-write access to the interaction matrix, for live tuning.
    pub fn get_interaction_matrix_mut(&mut self) -> (r: &mut InteractionMatrix)
        requires
            old(self).wf(),
        ensures
            r.wf(),
            r.view_seq() == old(self).matrix_spec(),
            final(self).matrix_spec() == final(r).view_seq(),
            final(self).particles_spec() == old(self).particles_spec(),
            final(self).width_spec() == old(self).width_spec(),
            final(self).height_spec() == old(self).height_spec(),
            final(r).wf() ==> final(self).wf(),
    {
        &mut self.interaction_matrix
    }

    /// Overwrite one coefficient of the interaction matrix.
    pub fn set_interaction(&mut self, source: ParticleType, target: ParticleType, value: i64)
        requires
            old(self).wf(),
        ensures
            final(self).wf(),
            final(self).matrix_spec() == old(self).matrix_spec().update(
                source.ordinal() * 4 + target.ordinal(),
                value,
            ),
            final(self).particles_spec() == old(self).particles_spec(),
            final(self).width_spec() == old(self).width_spec(),
            final(self).height_spec() == old(self).height_spec(),
    {
        self.interaction_matrix.set(source, target, value);
    }

    /// Add `delta` (saturating) to one coefficient of the interaction
    /// matrix; used for live tuning.
    pub fn adjust_interaction(&mut self, source: ParticleType, target: ParticleType, delta: i64)
        requires
            old(self).wf(),
        ensures
            final(self).wf(),
            final(self).matrix_spec() == old(self).matrix_spec().update(
                source.ordinal() * 4 + target.ordinal(),
                s_add(
                    mat_coef(old(self).matrix_spec(), source, target),
                    delta as int,
                ) as i64,
            ),
            final(self).particles_spec() == old(self).particles_spec(),
            final(self).width_spec() == old(self).width_spec(),
            final(self).height_spec() == old(self).height_spec(),
    {
        self.interaction_matrix.adjust(source, target, delta);
    }

    /// Append one particle to the store. Its mass and radius must be
    /// positive; the store must have room.
    pub fn add_particle(&mut self, particle: Particle)
        requires
            old(self).wf(),
            particle.mass >= 1,
            particle.radius >= 1,
            old(self).particles_spec().len() < N_MAX,
        ensures
            final(self).wf(),
            final(self).particles_spec() == old(self).particles_spec().push(particle),
            final(self).matrix_spec() == old(self).matrix_spec(),
            final(self).width_spec() == old(self).width_spec(),
            final(self).height_spec() == old(self).height_spec(),
    {
        self.particles.push(particle);
    }

    /// Remove every particle.
    pub fn clear(&mut self)
        requires
            old(self).wf(),
        ensures
            final(self).wf(),
            final(self).particles_spec() == Seq::<Particle>::empty(),
            final(self).matrix_spec() == old(self).matrix_spec(),
            final(self).width_spec() == old(self).width_spec(),
            final(self).height_spec() == old(self).height_spec(),
    {
        self.particles.clear();
    }

    /// The number of stored particles.
    pub fn particle_count(&self) -> (r: usize)
        requires
            self.wf(),
        ensures
            r == self.particles_spec().len(),
    {
        self.particles.len()
    }

    /// The stored particles, in insertion order (a settled post-tick
    /// snapshot between calls to `update`).
    pub fn get_particles(&self) -> (r: &Vec<Particle>)
        requires
            self.wf(),
        ensures
            r@ == self.particles_spec(),
    {
        &self.particles
    }

    /// Rebuild the spatial index from the current particle positions:
    /// afterwards the index holds exactly the in-world particles.
    fn rebuild_index(&mut self)
        requires
            old(self).wf(),
        ensures
            final(self).wf(),
            final(self).particles@ == old(self).particles@,
            final(self).width == old(self).width,
            final(self).height == old(self).height,
            final(self).interaction_matrix == old(self).interaction_matrix,
            entries_match(
                final(self).quad_tree.entries(),
                old(self).particles@,
                old(self).width as int,
                old(self).height as int,
                old(self).particles@.len() as int,
            ),
    {
        self.quad_tree.clear();
        let n = self.particles.len();
        let mut j: usize = 0;
        while j < n
            invariant
                self.particles@ == old(self).particles@,
                self.width == old(self).width,
                self.height == old(self).height,
                self.interaction_matrix == old(self).interaction_matrix,
                self.wf(),
                n == self.particles@.len(),
                j <= n,
                entries_match(
                    self.quad_tree.entries(),
                    self.particles@,
                    self.width as int,
                    self.height as int,
                    j as int,
                ),
            decreases n - j,
        {
            let p = self.particles[j];
            proof {
                if contains_index(self.quad_tree.entries(), j) {
                    let k = choose|k: int|
                        0 <= k < self.quad_tree.entries().len() && (#[trigger] self.quad_tree
                            .entries()[k]).index == j;
                    assert(self.quad_tree.entries()[k].index < j);
                }
            }
            let ghost es_old = self.quad_tree.entries();
            let inserted = self.quad_tree.insert(j, p.position);
            proof {
                assert(inserted == in_world(
                    self.particles@[j as int],
                    self.width as int,
                    self.height as int,
                ));
                lemma_rebuild_step(
                    es_old,
                    self.quad_tree.entries(),
                    self.particles@,
                    self.width as int,
                    self.height as int,
                    j as int,
                );
            }
            j += 1;
        }
    }

    /// Compute every particle's total force and the collision candidate
    /// list through the spatial index, proved equal to the index-free
    /// model: forces are the clamped sums over all in-world particles, and
    /// the candidates are exactly the overlapping near pairs in canonical
    /// order.
    #[verifier::rlimit(50)]
    fn compute_forces(&self) -> (r: (Vec<(i64, i64)>, Vec<(usize, usize)>))
        requires
            self.wf(),
            entries_match(
                self.quad_tree.entries(),
                self.particles@,
                self.width as int,
                self.height as int,
                self.particles@.len() as int,
            ),
        ensures
            r.0@.len() == self.particles@.len(),
            forall|k: int|
                0 <= k < r.0@.len() ==> ((#[trigger] r.0@[k]).0 as int, r.0@[k].1 as int)
                    == force_on(
                    self.particles@,
                    self.interaction_matrix.view_seq(),
                    self.width as int,
                    self.height as int,
                    k,
                ),
            r.1@ == all_cands(
                self.particles@,
                self.width as int,
                self.height as int,
                self.particles@.len() as int,
            ),
    {
        let ghost ps = self.particles@;
        let ghost mseq = self.interaction_matrix.view_seq();
        let ghost w = self.width as int;
        let ghost h = self.height as int;
        let ghost es = self.quad_tree.entries();
        let n = self.particles.len();
        let mut forces: Vec<(i64, i64)> = Vec::new();
        let mut cands: Vec<(usize, usize)> = Vec::new();
        let mut i: usize = 0;
        while i < n
            invariant
                self.wf(),
                ps == self.particles@,
                mseq == self.interaction_matrix.view_seq(),
                w == self.width as int,
                h == self.height as int,
                es == self.quad_tree.entries(),
                entries_match(es, ps, w, h, ps.len() as int),
                n == ps.len(),
                i <= n,
                forces@.len() == i,
                forall|k: int|
                    0 <= k < i ==> ((#[trigger] forces@[k]).0 as int, forces@[k].1 as int)
                        == force_on(ps, mseq, w, h, k),
                cands@ == all_cands(ps, w, h, i as int),
            decreases n - i,
        {
            let pi = self.particles[i];
            let qb = make_query_box(&pi);
            let mut neighbors: Vec<usize> = Vec::new();
            self.quad_tree.query(&qb, &mut neighbors);
            let ghost app_pre = neighbors@;
            proof {
                assert(app_pre.subrange(0, app_pre.len() as int) =~= app_pre);
                assert(query_covers(es, query_box(ps[i as int]), app_pre));
            }
            sort_indices(&mut neighbors);
            let ghost nb = neighbors@;
            proof {
                // soundness and range of the sorted neighbor list
                assert forall|p: int| 0 <= p < nb.len() implies contains_index(
                    es,
                    #[trigger] nb[p],
                ) && nb[p] < n by {
                    assert(nb.contains(nb[p]));
                    assert(app_pre.contains(nb[p]));
                    let k = choose|k: int| 0 <= k < app_pre.len() && app_pre[k] == nb[p];
                    assert(contains_index(es, app_pre[k]));
                    let k2 = choose|k2: int|
                        0 <= k2 < es.len() && (#[trigger] es[k2]).index == nb[p];
                    assert(es[k2].index < ps.len());
                }
                // completeness carried over the sort
                assert forall|j2: int|
                    0 <= j2 < n && in_world(#[trigger] ps[j2], w, h) && strictly_inside(
                        query_box(ps[i as int]),
                        ps[j2].position,
                    ) implies nb.contains(j2 as usize) by {
                    assert(contains_index(es, j2 as usize));
                    let k = choose|k: int|
                        0 <= k < es.len() && (#[trigger] es[k]).index == j2 as usize;
                    assert(es[k].position == ps[j2].position);
                    assert(strictly_inside(query_box(ps[i as int]), es[k].position));
                    assert(app_pre.contains(es[k].index));
                }
            }
            let mut acc_x: i128 = 0;
            let mut acc_y: i128 = 0;
            let ghost mut t: int = 0;
            let mut m: usize = 0;
            while m < neighbors.len()
                invariant
                    self.wf(),
                    ps == self.particles@,
                    mseq == self.interaction_matrix.view_seq(),
                    w == self.width as int,
                    h == self.height as int,
                    n == ps.len(),
                    i < n,
                    pi == ps[i as int],
                    nb == neighbors@,
                    m <= nb.len(),
                    es == self.quad_tree.entries(),
                    entries_match(es, ps, w, h, ps.len() as int),
                    forall|p: int| 0 <= p < nb.len() ==> contains_index(es, #[trigger] nb[p]),
                    forall|k1: int, k2: int|
                        0 <= k1 < k2 < nb.len() ==> (#[trigger] nb[k1]) <= (#[trigger] nb[k2]),
                    forall|k1: int, k2: int|
                        0 <= k1 < k2 < nb.len() ==> (#[trigger] nb[k1]) != (#[trigger] nb[k2]),
                    forall|p: int| 0 <= p < nb.len() ==> (#[trigger] nb[p]) < n,
                    forall|j2: int|
                        0 <= j2 < n && in_world(#[trigger] ps[j2], w, h) && strictly_inside(
                            query_box(ps[i as int]),
                            ps[j2].position,
                        ) ==> nb.contains(j2 as usize),
                    0 <= t <= n,
                    m == 0 ==> t == 0,
                    m > 0 ==> t == nb[m - 1] + 1,
                    forall|p: int| 0 <= p < m ==> (#[trigger] nb[p]) < t,
                    acc_x as int == sum_forces(ps, mseq, w, h, i as int, t).0,
                    acc_y as int == sum_forces(ps, mseq, w, h, i as int, t).1,
                    cands@ == all_cands(ps, w, h, i as int) + cands_for(ps, w, h, i as int, t),
                decreases nb.len() - m,
            {
                let j = neighbors[m];
                proof {
                    assert(t <= j as int) by {
                        if m > 0 {
                            assert(nb[m - 1] <= nb[m as int] && nb[m - 1] != nb[m as int]);
                        }
                    }
                    // the gap contributes nothing
                    assert forall|j2: int| t <= j2 < j as int implies (j2 == i as int || !in_world(
                        #[trigger] ps[j2],
                        w,
                        h,
                    ) || contribution(ps[i as int], ps[j2], mseq) == (0int, 0int)) && (j2
                        <= i as int || !cand_pred(ps, w, h, i as int, j2)) by {
                        if j2 != i as int && in_world(ps[j2], w, h) {
                            assert(!nb.contains(j2 as usize)) by {
                                if nb.contains(j2 as usize) {
                                    let p = choose|p: int|
                                        0 <= p < nb.len() && nb[p] == j2 as usize;
                                    if p < m {
                                        assert(nb[p] < t);
                                    } else {
                                        assert(nb[m as int] <= nb[p]);
                                    }
                                }
                            }
                            assert(!strictly_inside(query_box(ps[i as int]), ps[j2].position));
                            if -((crate::dynamics::INTERACTION_RADIUS as int)) <= s_sub(
                                ps[j2].position.x as int,
                                ps[i as int].position.x as int,
                            ) <= (crate::dynamics::INTERACTION_RADIUS as int) && -((crate::dynamics::INTERACTION_RADIUS as int)) <= s_sub(
                                ps[j2].position.y as int,
                                ps[i as int].position.y as int,
                            ) <= (crate::dynamics::INTERACTION_RADIUS as int) {
                                lemma_near_inside_box(ps[i as int], ps[j2].position);
                                assert(false);
                            }
                            lemma_far_contribution_zero(ps[i as int], ps[j2], mseq);
                        }
                    }
                    lemma_sum_forces_gap(ps, mseq, w, h, i as int, t, j as int);
                    lemma_cands_for_gap(ps, w, h, i as int, t, j as int);
                    lemma_sum_forces_bound(ps, mseq, w, h, i as int, j as int);
                }
                if j != i {
                    let pj = self.particles[j];
                    proof {
                        assert(contains_index(es, nb[m as int]));
                        let k2 = choose|k2: int|
                            0 <= k2 < es.len() && (#[trigger] es[k2]).index == nb[m as int];
                        assert(in_world(ps[j as int], w, h));
                    }
                    let f = force_contribution(&pi, &pj, &self.interaction_matrix);
                    acc_x = acc_x + (f.0 as i128);
                    acc_y = acc_y + (f.1 as i128);
                    proof {
                        assert(acc_x as int == sum_forces(ps, mseq, w, h, i as int, j + 1).0);
                        assert(acc_y as int == sum_forces(ps, mseq, w, h, i as int, j + 1).1);
                    }
                    if j > i {
                        let cdx = sat_sub(pj.position.x, pi.position.x);
                        let cdy = sat_sub(pj.position.y, pi.position.y);
                        let near = cdx >= (-crate::dynamics::INTERACTION_RADIUS) && cdx <= crate::dynamics::INTERACTION_RADIUS
                            && cdy >= (-crate::dynamics::INTERACTION_RADIUS) && cdy <= crate::dynamics::INTERACTION_RADIUS;
                        let odx = sat_sub(pi.position.x, pj.position.x);
                        let ody = sat_sub(pi.position.y, pj.position.y);
                        let d2 = crate::fixed::sat_add(
                            crate::fixed::sat_mul(odx, odx),
                            crate::fixed::sat_mul(ody, ody),
                        );
                        let mr = crate::fixed::sat_add(pi.radius, pj.radius);
                        let m2 = crate::fixed::sat_mul(mr, mr);
                        if near && d2 < m2 {
                            cands.push((i, j));
                            proof {
                                assert(cand_pred(ps, w, h, i as int, j as int));
                                assert(cands@ =~= all_cands(ps, w, h, i as int) + cands_for(
                                    ps,
                                    w,
                                    h,
                                    i as int,
                                    j + 1,
                                ));
                            }
                        } else {
                            proof {
                                assert(!cand_pred(ps, w, h, i as int, j as int));
                                assert(cands_for(ps, w, h, i as int, j + 1) =~= cands_for(
                                    ps,
                                    w,
                                    h,
                                    i as int,
                                    j as int,
                                ));
                            }
                        }
                    } else {
                        proof {
                            lemma_cands_for_empty(ps, w, h, i as int, t);
                            lemma_cands_for_empty(ps, w, h, i as int, j + 1);
                        }
                    }
                } else {
                    proof {
                        lemma_cands_for_empty(ps, w, h, i as int, t);
                        lemma_cands_for_empty(ps, w, h, i as int, j + 1);
                    }
                }
                proof {
                    t = j + 1;
                }
                m += 1;
            }
            proof {
                // the tail above the last neighbor contributes nothing
                assert forall|j2: int| t <= j2 < n implies (j2 == i as int || !in_world(
                    #[trigger] ps[j2],
                    w,
                    h,
                ) || contribution(ps[i as int], ps[j2], mseq) == (0int, 0int)) && (j2 <= i as int
                    || !cand_pred(ps, w, h, i as int, j2)) by {
                    if j2 != i as int && in_world(ps[j2], w, h) {
                        assert(!nb.contains(j2 as usize)) by {
                            if nb.contains(j2 as usize) {
                                let p = choose|p: int| 0 <= p < nb.len() && nb[p] == j2 as usize;
                                assert(nb[p] < t);
                            }
                        }
                        assert(!strictly_inside(query_box(ps[i as int]), ps[j2].position));
                        if -((crate::dynamics::INTERACTION_RADIUS as int)) <= s_sub(
                            ps[j2].position.x as int,
                            ps[i as int].position.x as int,
                        ) <= (crate::dynamics::INTERACTION_RADIUS as int) && -((crate::dynamics::INTERACTION_RADIUS as int)) <= s_sub(
                            ps[j2].position.y as int,
                            ps[i as int].position.y as int,
                        ) <= (crate::dynamics::INTERACTION_RADIUS as int) {
                            lemma_near_inside_box(ps[i as int], ps[j2].position);
                            assert(false);
                        }
                        lemma_far_contribution_zero(ps[i as int], ps[j2], mseq);
                    }
                }
                lemma_sum_forces_gap(ps, mseq, w, h, i as int, t, n as int);
                lemma_cands_for_gap(ps, w, h, i as int, t, n as int);
            }
            let fx = clip128(acc_x);
            let fy = clip128(acc_y);
            forces.push((fx, fy));
            proof {
                assert(cands@ =~= all_cands(ps, w, h, i + 1));
            }
            i += 1;
        }
        (forces, cands)
    }

    /// Resolve every candidate pair, sequentially and in order.
    fn apply_collisions(&mut self, cands: &Vec<(usize, usize)>)
        requires
            old(self).wf(),
            cands@ == all_cands(
                old(self).particles@,
                old(self).width as int,
                old(self).height as int,
                old(self).particles@.len() as int,
            ),
        ensures
            final(self).wf(),
            final(self).particles@ == resolve_seq(
                old(self).particles@,
                cands@,
                cands@.len() as int,
            ),
            final(self).width == old(self).width,
            final(self).height == old(self).height,
            final(self).interaction_matrix == old(self).interaction_matrix,
            final(self).quad_tree == old(self).quad_tree,
    {
        let ghost ps0 = self.particles@;
        proof {
            lemma_all_cands_valid(
                ps0,
                self.width as int,
                self.height as int,
                ps0.len() as int,
            );
        }
        let n_pairs = cands.len();
        let mut c: usize = 0;
        while c < n_pairs
            invariant
                self.width == old(self).width,
                self.height == old(self).height,
                self.interaction_matrix == old(self).interaction_matrix,
                self.quad_tree == old(self).quad_tree,
                old(self).wf(),
                self.wf(),
                ps0 == old(self).particles@,
                n_pairs == cands@.len(),
                c <= n_pairs,
                forall|m: int|
                    0 <= m < cands@.len() ==> {
                        let pr = #[trigger] cands@[m];
                        0 <= pr.0 < ps0.len() && pr.0 < pr.1 < ps0.len()
                    },
                self.particles@ == resolve_seq(ps0, cands@, c as int),
                self.particles@.len() == ps0.len(),
            decreases n_pairs - c,
        {
            proof {
                lemma_resolve_seq_frame(ps0, cands@, c as int);
            }
            let pr = cands[c];
            let ci = pr.0;
            let cj = pr.1;
            let ghost prev = self.particles@;
            let pa = self.particles[ci];
            let pb = self.particles[cj];
            match resolve_collision(&pa, &pb) {
                Option::Some(nab) => {
                    self.particles[ci] = nab.0;
                    self.particles[cj] = nab.1;
                    proof {
                        assert(self.particles@ =~= prev.update(ci as int, nab.0).update(
                            cj as int,
                            nab.1,
                        ));
                    }
                },
                Option::None => {},
            }
            proof {
                assert(self.particles@ == resolve_pair(prev, ci as int, cj as int));
                assert(self.particles@ == resolve_seq(ps0, cands@, c + 1));
                lemma_resolve_seq_frame(ps0, cands@, c + 1);
            }
            c += 1;
        }
    }

    /// Integrate every particle under its accumulated force, reflect at the
    /// walls, and apply global damping.
    fn integrate_phase(&mut self, forces: &Vec<(i64, i64)>, dt: i64)
        requires
            old(self).wf(),
            forces@.len() == old(self).particles@.len(),
        ensures
            final(self).wf(),
            final(self).particles@.len() == old(self).particles@.len(),
            forall|k: int|
                0 <= k < old(self).particles@.len() ==> final(self).particles@[k] == integrate_one(
                    old(self).particles@[k],
                    ((#[trigger] forces@[k]).0 as int, forces@[k].1 as int),
                    dt as int,
                    old(self).width as int,
                    old(self).height as int,
                ),
            final(self).width == old(self).width,
            final(self).height == old(self).height,
            final(self).interaction_matrix == old(self).interaction_matrix,
            final(self).quad_tree == old(self).quad_tree,
    {
        let ghost ps0 = self.particles@;
        let n = self.particles.len();
        let mut k: usize = 0;
        while k < n
            invariant
                self.width == old(self).width,
                self.height == old(self).height,
                self.interaction_matrix == old(self).interaction_matrix,
                self.quad_tree == old(self).quad_tree,
                old(self).wf(),
                self.wf(),
                ps0 == old(self).particles@,
                n == ps0.len(),
                k <= n,
                forces@.len() == n,
                self.particles@.len() == n,
                forall|q: int|
                    k <= q < n ==> #[trigger] self.particles@[q] == ps0[q],
                forall|q: int|
                    0 <= q < k ==> #[trigger] self.particles@[q] == integrate_one(
                        ps0[q],
                        (forces@[q].0 as int, forces@[q].1 as int),
                        dt as int,
                        old(self).width as int,
                        old(self).height as int,
                    ),
            decreases n - k,
        {
            let p = self.particles[k];
            let f = forces[k];
            let np = integrate_particle(&p, f.0, f.1, dt, self.width, self.height);
            self.particles[k] = np;
            k += 1;
        }
    }

    /// Advance the simulation by one tick of length `dt` (fixed-point
    /// seconds; a zero or negative `dt` is accepted and simply integrates
    /// by that amount, the engine does not reject it). The new particle
    /// state is exactly `step_spec` of the old state: rebuild the spatial
    /// index, accumulate forces, resolve collisions, integrate, reflect at
    /// the walls, and damp.
    #[verifier::rlimit(60)]
    pub fn update(&mut self, dt: i64)
        requires
            old(self).wf(),
        ensures
            final(self).wf(),
            final(self).particles_spec() == step_spec(
                old(self).particles_spec(),
                old(self).matrix_spec(),
                dt as int,
                old(self).width_spec(),
                old(self).height_spec(),
            ),
            final(self).matrix_spec() == old(self).matrix_spec(),
            final(self).width_spec() == old(self).width_spec(),
            final(self).height_spec() == old(self).height_spec(),
    {
        let ghost ps0 = self.particles@;
        let ghost mseq = self.interaction_matrix.view_seq();
        let ghost w = self.width as int;
        let ghost h = self.height as int;
        self.rebuild_index();
        let fc = self.compute_forces();
        let forces = fc.0;
        let cands = fc.1;
        self.apply_collisions(&cands);
        proof {
            crate::dynamics::lemma_resolve_seq_frame(ps0, cands@, cands@.len() as int);
        }
        self.integrate_phase(&forces, dt);
        proof {
            let fs = forces_all(ps0, mseq, w, h);
            let all = all_cands(ps0, w, h, ps0.len() as int);
            let ps1 = resolve_seq(ps0, all, all.len() as int);
            let target = step_spec(ps0, mseq, dt as int, w, h);
            assert(target == Seq::new(
                ps0.len(),
                |k: int| integrate_one(ps1[k], fs[k], dt as int, w, h),
            ));
            assert forall|k: int| 0 <= k < ps0.len() implies self.particles@[k] == target[k] by {
                assert(fs[k] == force_on(ps0, mseq, w, h, k));
                assert((forces@[k].0 as int, forces@[k].1 as int) == force_on(ps0, mseq, w, h, k));
                assert(self.particles@[k] == integrate_one(
                    ps1[k],
                    (forces@[k].0 as int, forces@[k].1 as int),
                    dt as int,
                    w,
                    h,
                ));
                assert(target[k] == integrate_one(ps1[k], fs[k], dt as int, w, h));
            }
            assert(self.particles@ =~= target);
        }
    }
}


/// An element at two positions occurs at least twice in the multiset.
proof fn lemma_two_positions_count(s: Seq<ParticleInsert>, m1: int, m2: int)
    requires
        0 <= m1 < m2 < s.len(),
        s[m1] == s[m2],
    ensures
        s.to_multiset().count(s[m1]) >= 2,
{
    broadcast use vstd::multiset::group_multiset_axioms;

    let s0 = s.subrange(0, m2);
    let s1 = s.subrange(m2, s.len() as int);
    assert(s =~= s0 + s1);
    vstd::seq_lib::lemma_multiset_commutative(s0, s1);
    let x = s[m1];
    assert(s0[m1] == x);
    assert(s0.contains(x));
    assert(s0.to_multiset().count(x) > 0);
    assert(s1[0] == x);
    assert(s1.contains(x));
    assert(s1.to_multiset().count(x) > 0);
}

/// One rebuild step: inserting particle `j` (exactly when it is in-world)
/// extends the index-mirror property from `j` to `j + 1`.
proof fn lemma_rebuild_step(
    es_old: Seq<ParticleInsert>,
    es_new: Seq<ParticleInsert>,
    ps: Seq<Particle>,
    width: int,
    height: int,
    j: int,
)
    requires
        0 <= j < ps.len(),
        j < usize::MAX as int,
        entries_match(es_old, ps, width, height, j),
        in_world(ps[j], width, height) ==> es_new.to_multiset() == es_old.to_multiset().insert(
            ParticleInsert { index: j as usize, position: ps[j].position },
        ),
        !in_world(ps[j], width, height) ==> es_new == es_old,
    ensures
        entries_match(es_new, ps, width, height, j + 1),
{
    broadcast use vstd::multiset::group_multiset_axioms;

    if !in_world(ps[j], width, height) {
        assert forall|j2: int|
            0 <= j2 < j + 1 && j2 < ps.len() && in_world(#[trigger] ps[j2], width, height)
                implies contains_index(es_new, j2 as usize) by {
            assert(j2 != j);
        }
    } else {
        let e = ParticleInsert { index: j as usize, position: ps[j].position };
        // The new index is fresh, so the inserted entry was not there before.
        assert(es_old.to_multiset().count(e) == 0) by {
            if es_old.to_multiset().count(e) > 0 {
                assert(es_old.contains(e));
                let k = choose|k: int| 0 <= k < es_old.len() && es_old[k] == e;
                assert(es_old[k].index < j);
            }
        }
        // Every new entry is an old entry or the inserted one.
        assert forall|m: int| 0 <= m < es_new.len() implies {
            let x = #[trigger] es_new[m];
            &&& x.index < j + 1
            &&& x.index < ps.len()
            &&& in_world(ps[x.index as int], width, height)
            &&& x.position == ps[x.index as int].position
        } by {
            let x = es_new[m];
            assert(es_new.contains(x));
            assert(es_new.to_multiset().count(x) > 0);
            if x != e {
                assert(es_old.to_multiset().count(x) > 0);
                assert(es_old.contains(x));
                let k = choose|k: int| 0 <= k < es_old.len() && es_old[k] == x;
                assert(es_old[k] == x);
            }
        }
        // Every in-world particle below j + 1 is present.
        assert forall|j2: int|
            0 <= j2 < j + 1 && j2 < ps.len() && in_world(#[trigger] ps[j2], width, height)
                implies contains_index(es_new, j2 as usize) by {
            if j2 < j {
                assert(contains_index(es_old, j2 as usize));
                let k = choose|k: int|
                    0 <= k < es_old.len() && (#[trigger] es_old[k]).index == j2 as usize;
                let x = es_old[k];
                assert(es_old.contains(x));
                assert(es_old.to_multiset().count(x) > 0);
                assert(es_new.to_multiset().count(x) > 0);
                assert(es_new.contains(x));
                let m = choose|m: int| 0 <= m < es_new.len() && es_new[m] == x;
                assert(es_new[m].index == j2 as usize);
            } else {
                assert(es_new.to_multiset().count(e) > 0);
                assert(es_new.contains(e));
                let m = choose|m: int| 0 <= m < es_new.len() && es_new[m] == e;
                assert(es_new[m].index == j as usize);
            }
        }
        // No index occurs twice.
        assert forall|k1: int, k2: int| 0 <= k1 < k2 < es_new.len() implies (
        #[trigger] es_new[k1]).index != (#[trigger] es_new[k2]).index by {
            if es_new[k1].index == es_new[k2].index {
                let x1 = es_new[k1];
                let x2 = es_new[k2];
                assert(x1.position == ps[x1.index as int].position);
                assert(x2.position == ps[x2.index as int].position);
                assert(x1 == x2);
                lemma_two_positions_count(es_new, k1, k2);
                assert(es_new.to_multiset().count(x1) >= 2);
                if x1 == e {
                    assert(es_new.to_multiset().count(e) == 1);
                } else {
                    assert(es_old.to_multiset().count(x1) >= 2);
                    assert(es_old.contains(x1));
                    let ka = choose|k: int| 0 <= k < es_old.len() && es_old[k] == x1;
                    let es_rest = es_old.remove(ka);
                    assert(es_rest.to_multiset() == es_old.to_multiset().remove(x1));
                    assert(es_rest.to_multiset().count(x1) >= 1);
                    assert(es_rest.contains(x1));
                    let kb = choose|k: int| 0 <= k < es_rest.len() && es_rest[k] == x1;
                    let kb_orig = if kb < ka {
                        kb
                    } else {
                        kb + 1
                    };
                    assert(es_old[kb_orig] == x1);
                    assert(kb_orig != ka);
                }
            }
        }
    }
}

/// Sort a vector of indices ascending, keeping exactly the same values:
/// membership is unchanged and duplicates are neither created nor lost.
fn sort_indices(v: &mut Vec<usize>)
    ensures
        final(v)@.len() == old(v)@.len(),
        forall|k1: int, k2: int|
            0 <= k1 < k2 < final(v)@.len() ==> (#[trigger] final(v)@[k1]) <= (
            #[trigger] final(v)@[k2]),
        forall|x: usize| final(v)@.contains(x) <==> old(v)@.contains(x),
        (forall|k1: int, k2: int|
            0 <= k1 < k2 < old(v)@.len() ==> (#[trigger] old(v)@[k1]) != (#[trigger] old(v)@[k2]))
            ==> (forall|k1: int, k2: int|
            0 <= k1 < k2 < final(v)@.len() ==> (#[trigger] final(v)@[k1]) != (
            #[trigger] final(v)@[k2])),
{
    let n = v.len();
    let ghost orig = v@;
    let mut a: usize = 1;
    while a < n
        invariant
            n == v@.len(),
            v@.to_multiset() == orig.to_multiset(),
            1 <= a <= n || n == 0,
            forall|k1: int, k2: int|
                0 <= k1 < k2 < a ==> (#[trigger] v@[k1]) <= (#[trigger] v@[k2]),
        decreases n - a,
    {
        let mut b: usize = a;
        while b > 0 && v[b - 1] > v[b]
            invariant
                n == v@.len(),
                0 <= b <= a < n,
                v@.to_multiset() == orig.to_multiset(),
                forall|k1: int, k2: int|
                    0 <= k1 < k2 <= a && k2 != b ==> (#[trigger] v@[k1]) <= (#[trigger] v@[k2]),
                forall|k2: int| b < k2 <= a ==> (#[trigger] v@[b as int]) < v@[k2],
            decreases b,
        {
            let ghost pre = v@;
            let x = v[b - 1];
            let y = v[b];
            v[b - 1] = y;
            v[b] = x;
            proof {
                assert(v@ =~= pre.update(b - 1, pre[b as int]).update(b as int, pre[b - 1]));
                lemma_swap_multiset(pre, b - 1, b as int);
            }
            b = b - 1;
        }
        a = a + 1;
    }
    proof {
        lemma_same_multiset_same_contains(v@, orig);
        if forall|k1: int, k2: int|
            0 <= k1 < k2 < orig.len() ==> (#[trigger] orig[k1]) != (#[trigger] orig[k2]) {
            assert(orig.no_duplicates());
            orig.lemma_multiset_has_no_duplicates();
            v@.lemma_multiset_has_no_duplicates_conv();
            assert(v@.no_duplicates());
        }
    }
}

/// Swapping two positions keeps the multiset of a sequence.
proof fn lemma_swap_multiset(s: Seq<usize>, i: int, j: int)
    requires
        0 <= i < s.len(),
        0 <= j < s.len(),
        i != j,
    ensures
        s.update(i, s[j]).update(j, s[i]).to_multiset() == s.to_multiset(),
{
    broadcast use vstd::multiset::group_multiset_axioms;

    let t = s.update(i, s[j]).update(j, s[i]);
    assert(t.len() == s.len());
    lemma_update_multiset(s, i, s[j]);
    lemma_update_multiset(s.update(i, s[j]), j, s[i]);
    assert(s.update(i, s[j])[j] == s[j]);
    assert(t.to_multiset() =~= s.to_multiset());
}

/// Updating one position exchanges exactly the old and new values in the
/// multiset.
proof fn lemma_update_multiset(s: Seq<usize>, i: int, x: usize)
    requires
        0 <= i < s.len(),
    ensures
        s.update(i, x).to_multiset() == s.to_multiset().remove(s[i]).insert(x),
{
    broadcast use vstd::multiset::group_multiset_axioms;

    assert(s.update(i, x) =~= s.subrange(0, i).push(x) + s.subrange(i + 1, s.len() as int));
    assert(s =~= s.subrange(0, i).push(s[i]) + s.subrange(i + 1, s.len() as int));
    let a = s.subrange(0, i);
    let c = s.subrange(i + 1, s.len() as int);
    vstd::seq_lib::lemma_multiset_commutative(a.push(x), c);
    vstd::seq_lib::lemma_multiset_commutative(a.push(s[i]), c);
    assert(a.push(x).to_multiset() =~= a.to_multiset().insert(x));
    assert(a.push(s[i]).to_multiset() =~= a.to_multiset().insert(s[i]));
    assert(s.update(i, x).to_multiset() =~= s.to_multiset().remove(s[i]).insert(x));
}

/// Equal multisets give equal membership.
proof fn lemma_same_multiset_same_contains(a: Seq<usize>, b: Seq<usize>)
    requires
        a.to_multiset() == b.to_multiset(),
    ensures
        forall|x: usize| a.contains(x) <==> b.contains(x),
{
    broadcast use vstd::seq_lib::group_to_multiset_ensures;

    assert forall|x: usize| a.contains(x) <==> b.contains(x) by {
        if a.contains(x) {
            assert(a.to_multiset().count(x) > 0);
            assert(b.to_multiset().count(x) > 0);
            assert(b.contains(x));
        }
        if b.contains(x) {
            assert(b.to_multiset().count(x) > 0);
            assert(a.to_multiset().count(x) > 0);
            assert(a.contains(x));
        }
    }
}

} // verus!
