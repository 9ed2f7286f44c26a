//! The interaction matrix: a K x K table of signed fixed-point force
//! coefficients indexed by (source type, target type). Negative means
//! repulsion, positive attraction, zero no interaction. The table is
//! asymmetric: the force felt by a red particle due to a blue one need not
//! equal the force felt by the blue one due to the red.

use vstd::prelude::*;
use crate::particle::ParticleType;
use crate::fixed::{s_add, sat_add};

verus! {

/// The coefficient for (source `s`, target `t`) in a flattened K x K table.
pub open spec fn mat_coef(m: Seq<i64>, s: ParticleType, t: ParticleType) -> int {
    m[s.ordinal() * 4 + t.ordinal()] as int
}

/// A fully populated K x K table of signed force coefficients.
#[derive(Clone, PartialEq, Eq, Debug)]
pub struct InteractionMatrix {
    coefficients: Vec<i64>,
}

impl InteractionMatrix {
    /// The flattened table, row by source type.
    pub closed spec fn view_seq(self) -> Seq<i64> {
        self.coefficients@
    }

    /// A matrix is well formed when every (source, target) pair has an entry.
    pub open spec fn wf(self) -> bool {
        self.view_seq().len() == 16
    }

    /// Build a matrix from the sixteen coefficients, row by source type.
    pub fn new(
        red_red: i64,
        red_blue: i64,
        red_green: i64,
        red_pink: i64,
        blue_red: i64,
        blue_blue: i64,
        blue_green: i64,
        blue_pink: i64,
        green_red: i64,
        green_blue: i64,
        green_green: i64,
        green_pink: i64,
        pink_red: i64,
        pink_blue: i64,
        pink_green: i64,
        pink_pink: i64,
    ) -> (r: InteractionMatrix)
        ensures
            r.wf(),
            r.view_seq() == seq![
                red_red, red_blue, red_green, red_pink,
                blue_red, blue_blue, blue_green, blue_pink,
                green_red, green_blue, green_green, green_pink,
                pink_red, pink_blue, pink_green, pink_pink,
            ],
    {
        let coefficients = vec![
            red_red, red_blue, red_green, red_pink,
            blue_red, blue_blue, blue_green, blue_pink,
            green_red, green_blue, green_green, green_pink,
            pink_red, pink_blue, pink_green, pink_pink,
        ];
        proof {
            assert(coefficients@ =~= seq![
                red_red, red_blue, red_green, red_pink,
                blue_red, blue_blue, blue_green, blue_pink,
                green_red, green_blue, green_green, green_pink,
                pink_red, pink_blue, pink_green, pink_pink,
            ]);
        }
        InteractionMatrix { coefficients }
    }

    /// The hand-authored default table (coefficients in fixed-point
    /// thousandths).
    pub fn default() -> (r: InteractionMatrix)
        ensures
            r.wf(),
            r.view_seq() == default_coefficients(),
    {
        InteractionMatrix::new(
            -200, 150, -100, 300,
            150, 100, 50, -250,
            -100, 50, -300, 200,
            300, -250, 200, -400,
        )
    }

    /// The coefficient for the ordered pair (source, target).
    pub fn get_force(&self, source: ParticleType, target: ParticleType) -> (r: i64)
        requires
            self.wf(),
        ensures
            r as int == mat_coef(self.view_seq(), source, target),
    {
        let idx = source.index() * 4 + target.index();
        self.coefficients[idx]
    }

    /// Overwrite the coefficient for the ordered pair (source, target).
    pub fn set(&mut self, source: ParticleType, target: ParticleType, value: i64)
        requires
            old(self).wf(),
        ensures
            final(self).wf(),
            final(self).view_seq() == old(self).view_seq().update(
                source.ordinal() * 4 + target.ordinal(), value),
    {
        let idx = source.index() * 4 + target.index();
        self.coefficients[idx] = value;
    }

    /// Add `delta` (saturating) to the coefficient for (source, target);
    /// used for live tuning.
    pub fn adjust(&mut self, source: ParticleType, target: ParticleType, delta: i64)
        requires
            old(self).wf(),
        ensures
            final(self).wf(),
            final(self).view_seq() == old(self).view_seq().update(
                source.ordinal() * 4 + target.ordinal(),
                s_add(mat_coef(old(self).view_seq(), source, target), delta as int) as i64),
    {
        let idx = source.index() * 4 + target.index();
        let v = sat_add(self.coefficients[idx], delta);
        self.coefficients[idx] = v;
    }
}

/// The default coefficient table.
pub open spec fn default_coefficients() -> Seq<i64> {
    seq![
        -200i64, 150i64, -100i64, 300i64,
        150i64, 100i64, 50i64, -250i64,
        -100i64, 50i64, -300i64, 200i64,
        300i64, -250i64, 200i64, -400i64,
    ]
}

} // verus!
