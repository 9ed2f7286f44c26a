//! The spatial index: a quadtree over an axis-aligned region, holding
//! (particle index, position) pairs. A node subdivides into four quadrants
//! that tile it exactly once it holds more than `QT_MAX_ITEMS` entries,
//! until `QT_MAX_DEPTH`; beyond that depth leaves simply overflow.
//!
//! The index is a broad-phase filter: `query` returns the indices of every
//! entry stored in a node whose rectangle intersects the query range,
//! without checking individual entry positions against the range. Its
//! contract pins the output down exactly (`query_spec`): a deterministic
//! function of the tree and the range under which every stored entry
//! strictly inside the range is reported, only stored indices are
//! reported, and no index is reported twice; callers must narrow-phase the
//! result against true positions.

use vstd::prelude::*;
use crate::particle::Vec2;
use crate::fixed::{s_add, s_sub, sat_add, sat_sub};

verus! {

broadcast use {vstd::seq_lib::group_to_multiset_ensures, vstd::multiset::group_multiset_axioms};

/// A leaf subdivides when an insert would push it past this many entries.
pub const QT_MAX_ITEMS: usize = 10;

/// Nodes at this depth never subdivide.
pub const QT_MAX_DEPTH: usize = 8;

/// The largest coordinate (and extent) a tree region may reach; domain
/// rectangles stay well inside `i64` so the tree's rectangle arithmetic is
/// exact.
pub const MAX_DIM: i64 = 1_000_000_000;

/// An axis-aligned rectangle: the closed region from `(x, y)` to
/// `(x + width, y + height)`.
#[derive(Clone, Copy, PartialEq, Eq, Structural, Debug)]
pub struct Bounds {
    pub x: i64,
    pub y: i64,
    pub width: i64,
    pub height: i64,
}

impl Bounds {
    /// Closed-rectangle membership, with saturating sums on the far corner.
    pub open spec fn contains_spec(self, p: Vec2) -> bool {
        &&& self.x <= p.x
        &&& p.x <= s_add(self.x as int, self.width as int)
        &&& self.y <= p.y
        &&& p.y <= s_add(self.y as int, self.height as int)
    }

    /// Whether `point` lies in this rectangle (edges included).
    pub fn contains(&self, point: Vec2) -> (r: bool)
        ensures
            r == self.contains_spec(point),
    {
        point.x >= self.x && point.x <= sat_add(self.x, self.width) && point.y >= self.y
            && point.y <= sat_add(self.y, self.height)
    }

    /// Open-overlap test, with saturating sums on the far corners.
    pub open spec fn intersects_spec(self, other: Bounds) -> bool {
        &&& (self.x as int) < s_add(other.x as int, other.width as int)
        &&& s_add(self.x as int, self.width as int) > other.x
        &&& (self.y as int) < s_add(other.y as int, other.height as int)
        &&& s_add(self.y as int, self.height as int) > other.y
    }

    /// Whether this rectangle and `other` overlap in a region of nonzero
    /// extent on both axes.
    pub fn intersects(&self, other: &Bounds) -> (r: bool)
        ensures
            r == self.intersects_spec(*other),
    {
        self.x < sat_add(other.x, other.width) && sat_add(self.x, self.width) > other.x
            && self.y < sat_add(other.y, other.height) && sat_add(self.y, self.height) > other.y
    }
}

/// `p` lies strictly inside `range` on both axes. Entries strictly inside a
/// query range are guaranteed to be reported by `query`.
pub open spec fn strictly_inside(range: Bounds, p: Vec2) -> bool {
    &&& (range.x as int) < p.x
    &&& (p.x as int) < s_add(range.x as int, range.width as int)
    &&& (range.y as int) < p.y
    &&& (p.y as int) < s_add(range.y as int, range.height as int)
}

/// A tree rectangle: non-negative origin and extents, far corner within
/// `MAX_DIM`, so all its arithmetic is exact.
pub open spec fn bounds_ok(b: Bounds) -> bool {
    &&& 0 <= b.x
    &&& 0 <= b.y
    &&& 0 <= b.width
    &&& 0 <= b.height
    &&& b.x + b.width <= MAX_DIM
    &&& b.y + b.height <= MAX_DIM
}

/// One stored entry: a particle index together with the position it was
/// inserted at.
#[derive(Clone, Copy, PartialEq, Eq, Structural, Debug)]
pub struct ParticleInsert {
    pub index: usize,
    pub position: Vec2,
}

/// No two entries carry the same particle index.
pub open spec fn distinct_indices(s: Seq<ParticleInsert>) -> bool {
    forall|k1: int, k2: int|
        0 <= k1 < k2 < s.len() ==> (#[trigger] s[k1]).index != (#[trigger] s[k2]).index
}

/// Some entry of `s` carries index `i`.
pub open spec fn contains_index(s: Seq<ParticleInsert>, i: usize) -> bool {
    exists|k: int| 0 <= k < s.len() && (#[trigger] s[k]).index == i
}

/// The north-west quadrant of `b`.
pub open spec fn nw_bounds(b: Bounds) -> Bounds {
    Bounds { x: b.x, y: b.y, width: (b.width as int / 2) as i64, height: (b.height as int / 2) as i64 }
}

/// The north-east quadrant of `b`.
pub open spec fn ne_bounds(b: Bounds) -> Bounds {
    Bounds {
        x: (b.x + b.width as int / 2) as i64,
        y: b.y,
        width: (b.width - b.width as int / 2) as i64,
        height: (b.height as int / 2) as i64,
    }
}

/// The south-west quadrant of `b`.
pub open spec fn sw_bounds(b: Bounds) -> Bounds {
    Bounds {
        x: b.x,
        y: (b.y + b.height as int / 2) as i64,
        width: (b.width as int / 2) as i64,
        height: (b.height - b.height as int / 2) as i64,
    }
}

/// The south-east quadrant of `b`.
pub open spec fn se_bounds(b: Bounds) -> Bounds {
    Bounds {
        x: (b.x + b.width as int / 2) as i64,
        y: (b.y + b.height as int / 2) as i64,
        width: (b.width - b.width as int / 2) as i64,
        height: (b.height - b.height as int / 2) as i64,
    }
}

/// The four children of a subdivided node.
pub struct Quadrants {
    pub nw: QuadTree,
    pub ne: QuadTree,
    pub sw: QuadTree,
    pub se: QuadTree,
}

/// A quadtree node; see the module documentation.
pub struct QuadTree {
    bounds: Bounds,
    depth: usize,
    items: Vec<ParticleInsert>,
    children: Option<Box<Quadrants>>,
}

impl QuadTree {
    /// The rectangle this node covers.
    pub closed spec fn bounds_spec(self) -> Bounds {
        self.bounds
    }

    /// The depth of this node; the root has depth 0.
    pub closed spec fn depth_spec(self) -> int {
        self.depth as int
    }

    /// Every entry stored in this subtree: this node's own entries followed
    /// by the four children's, north-west to south-east.
    pub closed spec fn entries(self) -> Seq<ParticleInsert>
        decreases self,
    {
        match self.children {
            Option::None => self.items@,
            Option::Some(q) => self.items@ + q.nw.entries() + q.ne.entries() + q.sw.entries()
                + q.se.entries(),
        }
    }

    /// The exact index sequence one range query appends: for every node
    /// whose rectangle overlaps the range, its own entries' indices in
    /// storage order, children visited north-west to south-east. `query`
    /// returns precisely this sequence, so its output is a function of the
    /// tree and the range alone.
    pub closed spec fn query_spec(self, range: Bounds) -> Seq<usize>
        decreases self,
    {
        if !self.bounds.intersects_spec(range) {
            Seq::empty()
        } else {
            Seq::new(self.items@.len(), |k: int| self.items@[k].index) + match self.children {
                Option::None => Seq::empty(),
                Option::Some(q) => q.nw.query_spec(range) + q.ne.query_spec(range)
                    + q.sw.query_spec(range) + q.se.query_spec(range),
            }
        }
    }

    /// Structural well-formedness: rectangles are exact, children tile their
    /// parent at its midpoint, depths increase by one, and every entry sits
    /// inside the rectangle of the node holding it.
    pub closed spec fn wf(self) -> bool
        decreases self,
    {
        &&& bounds_ok(self.bounds)
        &&& self.depth <= QT_MAX_DEPTH
        &&& (forall|k: int|
            0 <= k < self.items@.len() ==> self.bounds.contains_spec(
                (#[trigger] self.items@[k]).position,
            ))
        &&& match self.children {
            Option::None => true,
            Option::Some(q) => {
                &&& self.depth < QT_MAX_DEPTH
                &&& q.nw.depth == self.depth + 1
                &&& q.ne.depth == self.depth + 1
                &&& q.sw.depth == self.depth + 1
                &&& q.se.depth == self.depth + 1
                &&& q.nw.bounds == nw_bounds(self.bounds)
                &&& q.ne.bounds == ne_bounds(self.bounds)
                &&& q.sw.bounds == sw_bounds(self.bounds)
                &&& q.se.bounds == se_bounds(self.bounds)
                &&& q.nw.wf()
                &&& q.ne.wf()
                &&& q.sw.wf()
                &&& q.se.wf()
            },
        }
    }

    /// Build an empty node covering `bounds` at the given depth.
    pub fn new(bounds: Bounds, depth: usize) -> (r: QuadTree)
        requires
            bounds_ok(bounds),
            depth <= QT_MAX_DEPTH,
        ensures
            r.wf(),
            r.bounds_spec() == bounds,
            r.depth_spec() == depth,
            r.entries() == Seq::<ParticleInsert>::empty(),
    {
        let r = QuadTree { bounds, depth, items: Vec::new(), children: None };
        proof {
            assert(r.entries() =~= Seq::<ParticleInsert>::empty());
        }
        r
    }

    /// Empty every node of the subtree, keeping the subdivision structure.
    pub fn clear(&mut self)
        requires
            old(self).wf(),
        ensures
            final(self).wf(),
            final(self).bounds_spec() == old(self).bounds_spec(),
            final(self).depth_spec() == old(self).depth_spec(),
            final(self).entries() == Seq::<ParticleInsert>::empty(),
        decreases QT_MAX_DEPTH - self.depth_spec(),
    {
        self.items.clear();
        match &mut self.children {
            Option::None => {},
            Option::Some(q) => {
                q.nw.clear();
                q.ne.clear();
                q.sw.clear();
                q.se.clear();
            },
        }
        proof {
            assert(self.entries() =~= Seq::<ParticleInsert>::empty());
        }
    }

    /// Split a leaf into four quadrant children and move its entries into
    /// whichever child covers each entry's position.
    fn subdivide(&mut self)
        requires
            old(self).wf(),
            old(self).children.is_none(),
            old(self).depth < QT_MAX_DEPTH,
        ensures
            final(self).wf(),
            final(self).bounds == old(self).bounds,
            final(self).depth == old(self).depth,
            final(self).children.is_some(),
            final(self).entries().to_multiset() == old(self).entries().to_multiset(),
    {
        let b = self.bounds;
        let hw = b.width / 2;
        let hh = b.height / 2;
        let d1 = self.depth + 1;
        proof {
            lemma_quadrants_within(b);
        }
        let nwb = Bounds { x: b.x, y: b.y, width: hw, height: hh };
        let neb = Bounds { x: b.x + hw, y: b.y, width: b.width - hw, height: hh };
        let swb = Bounds { x: b.x, y: b.y + hh, width: hw, height: b.height - hh };
        let seb = Bounds { x: b.x + hw, y: b.y + hh, width: b.width - hw, height: b.height - hh };
        assert(nwb == nw_bounds(b) && neb == ne_bounds(b) && swb == sw_bounds(b) && seb == se_bounds(
            b,
        ));
        let mut q = Box::new(
            Quadrants {
                nw: QuadTree { bounds: nwb, depth: d1, items: Vec::new(), children: None },
                ne: QuadTree { bounds: neb, depth: d1, items: Vec::new(), children: None },
                sw: QuadTree { bounds: swb, depth: d1, items: Vec::new(), children: None },
                se: QuadTree { bounds: seb, depth: d1, items: Vec::new(), children: None },
            },
        );
        let ghost orig = self.items@;
        proof {
            assert(orig.subrange(0, orig.len() as int) == orig);
        }
        while self.items.len() > 0
            invariant
                self.bounds == b,
                self.depth == old(self).depth,
                self.children.is_none(),
                bounds_ok(b),
                d1 == self.depth + 1,
                self.items@.len() <= orig.len(),
                self.items@ == orig.subrange(0, self.items@.len() as int),
                forall|k: int|
                    0 <= k < orig.len() ==> b.contains_spec((#[trigger] orig[k]).position),
                q.nw.children.is_none() && q.ne.children.is_none() && q.sw.children.is_none()
                    && q.se.children.is_none(),
                q.nw.bounds == nw_bounds(b) && q.ne.bounds == ne_bounds(b) && q.sw.bounds
                    == sw_bounds(b) && q.se.bounds == se_bounds(b),
                q.nw.depth == d1 && q.ne.depth == d1 && q.sw.depth == d1 && q.se.depth == d1,
                d1 <= QT_MAX_DEPTH,
                q.nw.wf() && q.ne.wf() && q.sw.wf() && q.se.wf(),
                q.nw.items@.to_multiset().add(q.ne.items@.to_multiset()).add(
                    q.sw.items@.to_multiset(),
                ).add(q.se.items@.to_multiset()).add(self.items@.to_multiset())
                    == orig.to_multiset(),
            decreases self.items.len(),
        {
            let ghost before = self.items@;
            let popped = self.items.pop();
            match popped {
                Option::Some(en) => {
                    proof {
                        assert(self.items@ == before.subrange(0, before.len() - 1));
                        assert(self.items@ =~= orig.subrange(0, self.items@.len() as int));
                        assert(en == orig[before.len() - 1]);
                        assert(b.contains_spec(en.position));
                        assert(before =~= self.items@.push(en));
                    }
                    if q.nw.bounds.contains(en.position) {
                        q.nw.items.push(en);
                    } else if q.ne.bounds.contains(en.position) {
                        q.ne.items.push(en);
                    } else if q.sw.bounds.contains(en.position) {
                        q.sw.items.push(en);
                    } else if q.se.bounds.contains(en.position) {
                        q.se.items.push(en);
                    } else {
                        proof {
                            lemma_quadrants_cover(b, en.position);
                        }
                    }
                    proof {
                        assert(q.nw.items@.to_multiset().add(q.ne.items@.to_multiset()).add(
                            q.sw.items@.to_multiset(),
                        ).add(q.se.items@.to_multiset()).add(self.items@.to_multiset())
                            =~= orig.to_multiset());
                    }
                },
                Option::None => {},
            }
        }
        self.children = Some(q);
        proof {
            assert(self.items@.len() == 0);
            assert(self.items@ =~= Seq::<ParticleInsert>::empty());
            let q2 = self.children->Some_0;
            assert(self.entries() == self.items@ + q2.nw.entries() + q2.ne.entries()
                + q2.sw.entries() + q2.se.entries());
            vstd::seq_lib::lemma_multiset_commutative(self.items@ + q2.nw.entries(), q2.ne.entries());
            vstd::seq_lib::lemma_multiset_commutative(self.items@, q2.nw.entries());
            vstd::seq_lib::lemma_multiset_commutative(
                self.items@ + q2.nw.entries() + q2.ne.entries(),
                q2.sw.entries(),
            );
            vstd::seq_lib::lemma_multiset_commutative(
                self.items@ + q2.nw.entries() + q2.ne.entries() + q2.sw.entries(),
                q2.se.entries(),
            );
            assert(self.entries().to_multiset() =~= orig.to_multiset());
        }
    }

    /// Insert one entry. Returns whether the insert succeeded; it fails
    /// exactly when `position` lies outside this node's rectangle. The
    /// entry's index must not already be stored in this subtree: the
    /// per-tick rebuild inserts each particle once into a cleared tree,
    /// and this freshness is what gives `query` its no-duplicates
    /// guarantee.
    pub fn insert(&mut self, index: usize, position: Vec2) -> (r: bool)
        requires
            old(self).wf(),
            !contains_index(old(self).entries(), index),
        ensures
            final(self).wf(),
            final(self).bounds_spec() == old(self).bounds_spec(),
            final(self).depth_spec() == old(self).depth_spec(),
            r == old(self).bounds_spec().contains_spec(position),
            r ==> final(self).entries().to_multiset() == old(self).entries().to_multiset().insert(
                ParticleInsert { index, position },
            ),
            !r ==> final(self).entries() == old(self).entries(),
        decreases QT_MAX_DEPTH - self.depth_spec(),
    {
        if !self.bounds.contains(position) {
            return false;
        }
        let en = ParticleInsert { index, position };
        if self.children.is_none() && self.items.len() < QT_MAX_ITEMS {
            self.items.push(en);
            proof {
                assert(self.entries() =~= old(self).entries().push(en));
            }
            return true;
        }
        if self.children.is_none() && self.depth >= QT_MAX_DEPTH {
            self.items.push(en);
            proof {
                assert(self.entries() =~= old(self).entries().push(en));
            }
            return true;
        }
        if self.children.is_none() {
            self.subdivide();
        }
        proof {
            assert(self.entries().to_multiset() == old(self).entries().to_multiset());
            lemma_mset_same_contains_index(self.entries(), old(self).entries());
            assert(!contains_index(self.entries(), index));
        }
        let ghost a0 = self.items@;
        let ghost a1 = self.children->Some_0.nw.entries();
        let ghost a2 = self.children->Some_0.ne.entries();
        let ghost a3 = self.children->Some_0.sw.entries();
        let ghost a4 = self.children->Some_0.se.entries();
        proof {
            assert(self.entries() == a0 + a1 + a2 + a3 + a4);
            lemma_concat_contains(a0 + a1 + a2 + a3, a4);
            lemma_concat_contains(a0 + a1 + a2, a3);
            lemma_concat_contains(a0 + a1, a2);
            lemma_concat_contains(a0, a1);
            assert(!contains_index(a0, index) && !contains_index(a1, index) && !contains_index(
                a2,
                index,
            ) && !contains_index(a3, index) && !contains_index(a4, index));
            lemma_mset_5(a0, a1, a2, a3, a4);
        }
        match &mut self.children {
            Option::Some(q) => {
                if q.nw.bounds.contains(position) {
                    let inserted = q.nw.insert(index, position);
                    assert(inserted);
                } else if q.ne.bounds.contains(position) {
                    let inserted = q.ne.insert(index, position);
                    assert(inserted);
                } else if q.sw.bounds.contains(position) {
                    let inserted = q.sw.insert(index, position);
                    assert(inserted);
                } else if q.se.bounds.contains(position) {
                    let inserted = q.se.insert(index, position);
                    assert(inserted);
                } else {
                    self.items.push(en);
                }
            },
            Option::None => {
                proof {
                    assert(false);
                }
            },
        }
        proof {
            let b0 = self.items@;
            let b1 = self.children->Some_0.nw.entries();
            let b2 = self.children->Some_0.ne.entries();
            let b3 = self.children->Some_0.sw.entries();
            let b4 = self.children->Some_0.se.entries();
            assert(self.entries() == b0 + b1 + b2 + b3 + b4);
            lemma_mset_5(b0, b1, b2, b3, b4);
            assert(self.entries().to_multiset() =~= old(self).entries().to_multiset().insert(en));
        }
        true
    }

    /// Broad-phase range query: append to `out` exactly `query_spec(range)`
    /// -- the index of every entry stored in any node whose rectangle
    /// overlaps `range`, in a deterministic traversal order. Over-reports:
    /// callers must re-check returned indices against true positions.
    pub fn query(&self, range: &Bounds, out: &mut Vec<usize>)
        requires
            self.wf(),
            distinct_indices(self.entries()),
        ensures
            final(out)@ == old(out)@ + self.query_spec(*range),
            final(out)@.len() >= old(out)@.len(),
            final(out)@.subrange(0, old(out)@.len() as int) == old(out)@,
            query_covers(
                self.entries(),
                *range,
                final(out)@.subrange(old(out)@.len() as int, final(out)@.len() as int),
            ),
        decreases QT_MAX_DEPTH - self.depth_spec(),
    {
        let ghost l0 = out@.len() as int;
        if !self.bounds.intersects(range) {
            proof {
                lemma_entries_in_bounds(*self);
                assert forall|m: int|
                    0 <= m < self.entries().len() implies !strictly_inside(
                    *range,
                    (#[trigger] self.entries()[m]).position,
                ) by {
                    if strictly_inside(*range, self.entries()[m].position) {
                        lemma_contains_inside_intersects(
                            self.bounds,
                            *range,
                            self.entries()[m].position,
                        );
                    }
                }
                assert(out@.subrange(l0, l0) =~= Seq::<usize>::empty());
                assert(out@.subrange(0, l0) =~= out@);
                assert(out@ =~= old(out)@ + self.query_spec(*range));
            }
            return;
        }
        let ghost pre = out@;
        let mut i: usize = 0;
        while i < self.items.len()
            invariant
                i <= self.items@.len(),
                out@.len() == pre.len() + i,
                out@.subrange(0, pre.len() as int) == pre,
                forall|k: int| 0 <= k < i ==> out@[pre.len() + k] == (#[trigger] self.items@[k]).index,
            decreases self.items@.len() - i,
        {
            let idx = self.items[i].index;
            out.push(idx);
            proof {
                assert(out@.subrange(0, pre.len() as int) =~= pre);
            }
            i += 1;
        }
        let ghost app0 = out@.subrange(l0, out@.len() as int);
        proof {
            assert(app0.len() == self.items@.len());
            assert(forall|k: int| 0 <= k < app0.len() ==> app0[k] == (#[trigger] self.items@[k]).index);
        }
        match &self.children {
            Option::None => {
                proof {
                    assert(self.entries() == self.items@);
                    assert(query_covers(self.items@, *range, app0)) by {
                        lemma_covers_own(self.items@, *range, app0);
                    }
                    assert(app0 =~= Seq::new(self.items@.len(), |k: int| self.items@[k].index));
                    assert(out@ =~= old(out)@ + self.query_spec(*range));
                }
            },
            Option::Some(q) => {
                let ghost a0 = self.items@;
                let ghost a1 = q.nw.entries();
                let ghost a2 = q.ne.entries();
                let ghost a3 = q.sw.entries();
                let ghost a4 = q.se.entries();
                proof {
                    assert(self.entries() == a0 + a1 + a2 + a3 + a4);
                    lemma_concat_distinct(a0 + a1 + a2 + a3, a4);
                    lemma_concat_distinct(a0 + a1 + a2, a3);
                    lemma_concat_distinct(a0 + a1, a2);
                    lemma_concat_distinct(a0, a1);
                    lemma_covers_own(a0, *range, app0);
                }
                let ghost l1 = out@.len() as int;
                q.nw.query(range, out);
                let ghost s1 = out@;
                let ghost l2 = out@.len() as int;
                q.ne.query(range, out);
                let ghost s2 = out@;
                let ghost l3 = out@.len() as int;
                q.sw.query(range, out);
                let ghost s3 = out@;
                let ghost l4 = out@.len() as int;
                q.se.query(range, out);
                let ghost s4 = out@;
                let ghost l5 = out@.len() as int;
                proof {
                    let app1 = s1.subrange(l1, l2);
                    let app2 = s2.subrange(l2, l3);
                    let app3 = s3.subrange(l3, l4);
                    let app4 = s4.subrange(l4, l5);
                    assert(s4.subrange(0, l4) == s3);
                    assert(s3.subrange(0, l3) == s2);
                    assert(s2.subrange(0, l2) == s1);
                    assert(forall|k: int| 0 <= k < l4 ==> s4[k] == s3[k]);
                    assert(forall|k: int| 0 <= k < l3 ==> s3[k] == s2[k]);
                    assert(forall|k: int| 0 <= k < l2 ==> s2[k] == s1[k]);
                    lemma_query_combine(a0, a1, *range, app0, app1);
                    lemma_query_combine(a0 + a1, a2, *range, app0 + app1, app2);
                    lemma_query_combine(a0 + a1 + a2, a3, *range, app0 + app1 + app2, app3);
                    lemma_query_combine(
                        a0 + a1 + a2 + a3,
                        a4,
                        *range,
                        app0 + app1 + app2 + app3,
                        app4,
                    );
                    assert(s4.subrange(l0, l5) =~= app0 + app1 + app2 + app3 + app4);
                    assert(s4.subrange(0, l0) =~= pre);
                    assert(app1 =~= q.nw.query_spec(*range));
                    assert(app2 =~= q.ne.query_spec(*range));
                    assert(app3 =~= q.sw.query_spec(*range));
                    assert(app4 =~= q.se.query_spec(*range));
                    assert(app0 =~= Seq::new(self.items@.len(), |k: int| self.items@[k].index));
                    assert(self.query_spec(*range) == Seq::new(
                        self.items@.len(),
                        |k: int| self.items@[k].index,
                    ) + (q.nw.query_spec(*range) + q.ne.query_spec(*range) + q.sw.query_spec(
                        *range,
                    ) + q.se.query_spec(*range)));
                    assert(out@ =~= old(out)@ + self.query_spec(*range));
                }
            },
        }
    }
}

/// The axis-aligned box circumscribing a circle at `center` of the given
/// radius (saturating, like all rectangle arithmetic here).
pub open spec fn radius_box(center: Vec2, radius: int) -> Bounds {
    Bounds {
        x: s_sub(center.x as int, radius) as i64,
        y: s_sub(center.y as int, radius) as i64,
        width: s_add(radius, radius) as i64,
        height: s_add(radius, radius) as i64,
    }
}

impl QuadTree {
    /// Broad-phase circular query: append every index stored in a node
    /// overlapping the box around `center` of the given radius. Like
    /// `query`, this over-reports; callers must check true distances.
    pub fn query_radius(&self, center: Vec2, radius: i64, found: &mut Vec<usize>)
        requires
            self.wf(),
            distinct_indices(self.entries()),
        ensures
            final(found)@ == old(found)@ + self.query_spec(radius_box(center, radius as int)),
            final(found)@.len() >= old(found)@.len(),
            final(found)@.subrange(0, old(found)@.len() as int) == old(found)@,
            query_covers(
                self.entries(),
                radius_box(center, radius as int),
                final(found)@.subrange(old(found)@.len() as int, final(found)@.len() as int),
            ),
    {
        let side = sat_add(radius, radius);
        let range = Bounds {
            x: sat_sub(center.x, radius),
            y: sat_sub(center.y, radius),
            width: side,
            height: side,
        };
        self.query(&range, found);
    }

    /// Run one broad-phase query per range, returning one result list per
    /// range, in order.
    pub fn batch_query(&self, queries: &Vec<Bounds>) -> (r: Vec<Vec<usize>>)
        requires
            self.wf(),
            distinct_indices(self.entries()),
        ensures
            r@.len() == queries@.len(),
            forall|k: int| 0 <= k < queries@.len() ==> (#[trigger] r@[k])@ == self.query_spec(queries@[k]),
            forall|k: int|
                0 <= k < queries@.len() ==> query_covers(
                    self.entries(),
                    queries@[k],
                    (#[trigger] r@[k])@,
                ),
    {
        let mut results: Vec<Vec<usize>> = Vec::new();
        let mut k: usize = 0;
        while k < queries.len()
            invariant
                self.wf(),
                distinct_indices(self.entries()),
                k <= queries@.len(),
                results@.len() == k,
                forall|q: int|
                    0 <= q < k ==> (#[trigger] results@[q])@ == self.query_spec(queries@[q]),
                forall|q: int|
                    0 <= q < k ==> query_covers(
                        self.entries(),
                        queries@[q],
                        (#[trigger] results@[q])@,
                    ),
            decreases queries@.len() - k,
        {
            let mut found: Vec<usize> = Vec::new();
            self.query(&queries[k], &mut found);
            proof {
                assert(found@.subrange(0, found@.len() as int) =~= found@);
                assert(found@ =~= self.query_spec(queries@[k as int]));
            }
            results.push(found);
            k += 1;
        }
        results
    }
}

/// Five-part concatenations split into sums of multisets.
proof fn lemma_mset_5(
    a0: Seq<ParticleInsert>,
    a1: Seq<ParticleInsert>,
    a2: Seq<ParticleInsert>,
    a3: Seq<ParticleInsert>,
    a4: Seq<ParticleInsert>,
)
    ensures
        (a0 + a1 + a2 + a3 + a4).to_multiset() == a0.to_multiset().add(a1.to_multiset()).add(
            a2.to_multiset(),
        ).add(a3.to_multiset()).add(a4.to_multiset()),
{
    vstd::seq_lib::lemma_multiset_commutative(a0, a1);
    vstd::seq_lib::lemma_multiset_commutative(a0 + a1, a2);
    vstd::seq_lib::lemma_multiset_commutative(a0 + a1 + a2, a3);
    vstd::seq_lib::lemma_multiset_commutative(a0 + a1 + a2 + a3, a4);
}

/// Pushing every index of `items`, in order, is a valid query result for
/// `items` alone.
proof fn lemma_covers_own(items: Seq<ParticleInsert>, range: Bounds, app: Seq<usize>)
    requires
        distinct_indices(items),
        app.len() == items.len(),
        forall|k: int| 0 <= k < app.len() ==> app[k] == (#[trigger] items[k]).index,
    ensures
        query_covers(items, range, app),
{
    assert forall|k: int| 0 <= k < app.len() implies contains_index(items, #[trigger] app[k]) by {
        assert(items[k].index == app[k]);
    }
    assert forall|k1: int, k2: int| 0 <= k1 < k2 < app.len() implies (#[trigger] app[k1]) != (
    #[trigger] app[k2]) by {
        assert(app[k1] == items[k1].index);
        assert(app[k2] == items[k2].index);
    }
    assert forall|m: int|
        0 <= m < items.len() && strictly_inside(range, (#[trigger] items[m]).position) implies app
        .contains(items[m].index) by {
        assert(app[m] == items[m].index);
    }
}

/// In a well-formed subtree, every entry's position lies inside the
/// subtree's rectangle.
pub proof fn lemma_entries_in_bounds(t: QuadTree)
    requires
        t.wf(),
    ensures
        forall|m: int|
            0 <= m < t.entries().len() ==> t.bounds_spec().contains_spec(
                (#[trigger] t.entries()[m]).position,
            ),
    decreases t,
{
    match t.children {
        Option::None => {
            assert(t.entries() == t.items@);
        },
        Option::Some(q) => {
            lemma_entries_in_bounds(q.nw);
            lemma_entries_in_bounds(q.ne);
            lemma_entries_in_bounds(q.sw);
            lemma_entries_in_bounds(q.se);
            lemma_quadrants_within(t.bounds_spec());
            let a0 = t.items@;
            let a1 = q.nw.entries();
            let a2 = q.ne.entries();
            let a3 = q.sw.entries();
            let a4 = q.se.entries();
            let e = t.entries();
            assert(e == a0 + a1 + a2 + a3 + a4);
            assert forall|m: int| 0 <= m < e.len() implies t.bounds_spec().contains_spec(
                (#[trigger] e[m]).position,
            ) by {
                if m < a0.len() {
                    assert(e[m] == a0[m]);
                } else if m < a0.len() + a1.len() {
                    assert(e[m] == a1[m - a0.len()]);
                } else if m < a0.len() + a1.len() + a2.len() {
                    assert(e[m] == a2[m - a0.len() - a1.len()]);
                } else if m < a0.len() + a1.len() + a2.len() + a3.len() {
                    assert(e[m] == a3[m - a0.len() - a1.len() - a2.len()]);
                } else {
                    assert(e[m] == a4[m - a0.len() - a1.len() - a2.len() - a3.len()]);
                }
            }
        },
    }
}

/// Each quadrant rectangle of a well-formed rectangle is itself well formed
/// and contained in its parent.
pub proof fn lemma_quadrants_within(b: Bounds)
    requires
        bounds_ok(b),
    ensures
        bounds_ok(nw_bounds(b)),
        bounds_ok(ne_bounds(b)),
        bounds_ok(sw_bounds(b)),
        bounds_ok(se_bounds(b)),
        forall|p: Vec2| nw_bounds(b).contains_spec(p) ==> b.contains_spec(p),
        forall|p: Vec2| ne_bounds(b).contains_spec(p) ==> b.contains_spec(p),
        forall|p: Vec2| sw_bounds(b).contains_spec(p) ==> b.contains_spec(p),
        forall|p: Vec2| se_bounds(b).contains_spec(p) ==> b.contains_spec(p),
{
}

/// The four quadrants cover their parent: a point in `b` lies in at least
/// one quadrant.
pub proof fn lemma_quadrants_cover(b: Bounds, p: Vec2)
    requires
        bounds_ok(b),
        b.contains_spec(p),
    ensures
        nw_bounds(b).contains_spec(p) || ne_bounds(b).contains_spec(p) || sw_bounds(
            b,
        ).contains_spec(p) || se_bounds(b).contains_spec(p),
{
}

/// A node whose rectangle contains a point strictly inside a query range
/// overlaps that range.
pub proof fn lemma_contains_inside_intersects(b: Bounds, range: Bounds, p: Vec2)
    requires
        bounds_ok(b),
        b.contains_spec(p),
        strictly_inside(range, p),
    ensures
        b.intersects_spec(range),
{
}

/// An index occurs in a concatenation exactly when it occurs in one of the
/// halves.
pub proof fn lemma_concat_contains(a: Seq<ParticleInsert>, b: Seq<ParticleInsert>)
    ensures
        forall|i: usize|
            #[trigger] contains_index(a + b, i) <==> contains_index(a, i) || contains_index(b, i),
{
    assert forall|i: usize| #[trigger]
        contains_index(a + b, i) <==> contains_index(a, i) || contains_index(b, i) by {
        if contains_index(a + b, i) {
            let k = choose|k: int| 0 <= k < (a + b).len() && (#[trigger] (a + b)[k]).index == i;
            if k < a.len() {
                assert((a + b)[k] == a[k]);
                assert(contains_index(a, i));
            } else {
                assert((a + b)[k] == b[k - a.len()]);
                assert(contains_index(b, i));
            }
        }
        if contains_index(a, i) {
            let k = choose|k: int| 0 <= k < a.len() && (#[trigger] a[k]).index == i;
            assert((a + b)[k] == a[k]);
            assert(contains_index(a + b, i));
        }
        if contains_index(b, i) {
            let k = choose|k: int| 0 <= k < b.len() && (#[trigger] b[k]).index == i;
            assert((a + b)[a.len() + k] == b[k]);
            assert(contains_index(a + b, i));
        }
    }
}

/// Distinctness of a concatenation gives distinctness of the halves and
/// disjointness of their index sets.
pub proof fn lemma_concat_distinct(a: Seq<ParticleInsert>, b: Seq<ParticleInsert>)
    requires
        distinct_indices(a + b),
    ensures
        distinct_indices(a),
        distinct_indices(b),
        forall|i: usize| !(#[trigger] contains_index(a, i) && contains_index(b, i)),
{
    assert forall|k1: int, k2: int| 0 <= k1 < k2 < a.len() implies (#[trigger] a[k1]).index != (
    #[trigger] a[k2]).index by {
        assert((a + b)[k1] == a[k1] && (a + b)[k2] == a[k2]);
    }
    assert forall|k1: int, k2: int| 0 <= k1 < k2 < b.len() implies (#[trigger] b[k1]).index != (
    #[trigger] b[k2]).index by {
        assert((a + b)[a.len() + k1] == b[k1] && (a + b)[a.len() + k2] == b[k2]);
    }
    assert forall|i: usize| !(#[trigger] contains_index(a, i) && contains_index(b, i)) by {
        if contains_index(a, i) && contains_index(b, i) {
            let k1 = choose|k: int| 0 <= k < a.len() && (#[trigger] a[k]).index == i;
            let k2 = choose|k: int| 0 <= k < b.len() && (#[trigger] b[k]).index == i;
            assert((a + b)[k1] == a[k1]);
            assert((a + b)[a.len() + k2] == b[k2]);
        }
    }
}

/// Sequences with equal multisets hold the same indices.
pub proof fn lemma_mset_same_contains_index(a: Seq<ParticleInsert>, b: Seq<ParticleInsert>)
    requires
        a.to_multiset() == b.to_multiset(),
    ensures
        forall|i: usize| #[trigger] contains_index(a, i) <==> contains_index(b, i),
{
    broadcast use vstd::seq_lib::group_to_multiset_ensures;

    assert forall|i: usize| #[trigger] contains_index(a, i) <==> contains_index(b, i) by {
        if contains_index(a, i) {
            let k = choose|k: int| 0 <= k < a.len() && (#[trigger] a[k]).index == i;
            let e = a[k];
            assert(a.contains(e));
            assert(a.to_multiset().count(e) > 0);
            assert(b.contains(e));
            let m = choose|m: int| 0 <= m < b.len() && b[m] == e;
            assert(b[m].index == i);
            assert(contains_index(b, i));
        }
        if contains_index(b, i) {
            let k = choose|k: int| 0 <= k < b.len() && (#[trigger] b[k]).index == i;
            let e = b[k];
            assert(b.contains(e));
            assert(b.to_multiset().count(e) > 0);
            assert(a.contains(e));
            let m = choose|m: int| 0 <= m < a.len() && a[m] == e;
            assert(a[m].index == i);
            assert(contains_index(a, i));
        }
    }
}

/// What `query` guarantees of the index sequence it appends for a subtree
/// holding `entries`: only stored indices, no index twice, and every entry
/// strictly inside the range reported.
pub open spec fn query_covers(entries: Seq<ParticleInsert>, range: Bounds, app: Seq<usize>) -> bool {
    &&& forall|k: int| 0 <= k < app.len() ==> contains_index(entries, #[trigger] app[k])
    &&& forall|k1: int, k2: int|
        0 <= k1 < k2 < app.len() ==> (#[trigger] app[k1]) != (#[trigger] app[k2])
    &&& forall|m: int|
        0 <= m < entries.len() && strictly_inside(range, (#[trigger] entries[m]).position)
            ==> app.contains(entries[m].index)
}

/// Query results for two disjoint entry groups combine into a query result
/// for their concatenation.
pub proof fn lemma_query_combine(
    ea: Seq<ParticleInsert>,
    eb: Seq<ParticleInsert>,
    range: Bounds,
    appa: Seq<usize>,
    appb: Seq<usize>,
)
    requires
        query_covers(ea, range, appa),
        query_covers(eb, range, appb),
        distinct_indices(ea + eb),
    ensures
        query_covers(ea + eb, range, appa + appb),
{
    lemma_concat_contains(ea, eb);
    lemma_concat_distinct(ea, eb);
    let e = ea + eb;
    let app = appa + appb;
    assert forall|k: int| 0 <= k < app.len() implies contains_index(e, #[trigger] app[k]) by {
        if k < appa.len() {
            assert(app[k] == appa[k]);
        } else {
            assert(app[k] == appb[k - appa.len()]);
        }
    }
    assert forall|k1: int, k2: int| 0 <= k1 < k2 < app.len() implies (#[trigger] app[k1]) != (
    #[trigger] app[k2]) by {
        if k1 < appa.len() && k2 >= appa.len() {
            assert(app[k1] == appa[k1]);
            assert(app[k2] == appb[k2 - appa.len()]);
            assert(contains_index(ea, appa[k1]));
            assert(contains_index(eb, appb[k2 - appa.len()]));
        } else if k2 < appa.len() {
            assert(app[k1] == appa[k1] && app[k2] == appa[k2]);
        } else {
            assert(app[k1] == appb[k1 - appa.len()] && app[k2] == appb[k2 - appa.len()]);
        }
    }
    assert forall|m: int|
        0 <= m < e.len() && strictly_inside(range, (#[trigger] e[m]).position) implies app.contains(
        e[m].index,
    ) by {
        if m < ea.len() {
            assert(e[m] == ea[m]);
            let k = choose|k: int| 0 <= k < appa.len() && appa[k] == ea[m].index;
            assert(app[k] == appa[k]);
        } else {
            assert(e[m] == eb[m - ea.len()]);
            let k = choose|k: int| 0 <= k < appb.len() && appb[k] == eb[m - ea.len()].index;
            assert(app[appa.len() + k] == appb[k]);
        }
    }
}

} // verus!
