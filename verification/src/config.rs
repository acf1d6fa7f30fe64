//! Simulation parameters.
//!
//! Every scalar knob is an exact positive rational. The bound on
//! numerators and denominators keeps every intermediate product of the
//! tick pipeline comfortably inside 128-bit arithmetic.

use vstd::prelude::*;

verus! {

/// A positive rational scalar `n / d`.
#[derive(Clone, Copy, Debug, PartialEq, Eq, Structural)]
pub struct Ratio {
    pub n: i64,
    pub d: i64,
}

impl Ratio {
    /// Positive, with numerator and denominator small enough that every
    /// product formed by the simulation fits in 128-bit intermediates.
    pub open spec fn valid(self) -> bool {
        1 <= self.n <= 1024 && 1 <= self.d <= 1024
    }

    pub fn new(n: i64, d: i64) -> (r: Ratio)
        requires
            1 <= n <= 1024,
            1 <= d <= 1024,
        ensures
            r == (Ratio { n, d }),
            r.valid(),
    {
        Ratio { n, d }
    }
}

/// The configuration read by every component; immutable for a run.
///
/// `cooling_factor` is the inverse of the damping coefficient: a smaller
/// value damps harder and settles the layout faster.
#[derive(Clone, Copy, Debug, PartialEq, Eq, Structural)]
pub struct Config {
    pub ideal_length: Ratio,
    pub cooling_factor: Ratio,
    pub node_mass: Ratio,
    pub compliance: Ratio,
    pub node_total: usize,
    pub collider_radius: Ratio,
}

impl Config {
    pub open spec fn valid(self) -> bool {
        &&& self.ideal_length.valid()
        &&& self.cooling_factor.valid()
        &&& self.node_mass.valid()
        &&& self.compliance.valid()
        &&& self.collider_radius.valid()
        &&& 1 <= self.node_total
    }
}

impl Default for Config {
    /// Ideal length 50, cooling factor 1/5, node mass 5, compliance
    /// 1/1000, 50 nodes, interaction radius 49.
    fn default() -> (c: Config)
        ensures
            c.ideal_length == (Ratio { n: 50, d: 1 }),
            c.cooling_factor == (Ratio { n: 1, d: 5 }),
            c.node_mass == (Ratio { n: 5, d: 1 }),
            c.compliance == (Ratio { n: 1, d: 1000 }),
            c.node_total == 50usize,
            c.collider_radius == (Ratio { n: 49, d: 1 }),
            c.valid(),
    {
        Config {
            ideal_length: Ratio { n: 50, d: 1 },
            cooling_factor: Ratio { n: 1, d: 5 },
            node_mass: Ratio { n: 5, d: 1 },
            compliance: Ratio { n: 1, d: 1000 },
            node_total: 50,
            collider_radius: Ratio { n: 49, d: 1 },
        }
    }
}

} // verus!
