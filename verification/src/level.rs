//! Tournament tiers.

use vstd::prelude::*;

verus! {

/// The tier of a tournament.
#[derive(Debug, Clone, Copy, Hash, PartialEq, Eq, Structural)]
pub enum Level {
    Small,
    Medium,
    Major,
    Championship,
}

impl Level {
    /// The default base value of the tier, in whole points.
    pub open spec fn spec_point_base(&self) -> nat {
        match self {
            Level::Small => 50,
            Level::Medium => 125,
            Level::Major => 200,
            Level::Championship => 250,
        }
    }

    /// The default base value of the tier, in whole points.
    pub fn point_base(&self) -> (r: u64)
        ensures
            r == self.spec_point_base(),
    {
        match self {
            Level::Small => 50,
            Level::Medium => 125,
            Level::Major => 200,
            Level::Championship => 250,
        }
    }

    /// The name of the directory that holds the results of this tier.
    pub fn directory_name(&self) -> (r: &'static str)
        ensures
            r@ == (match self {
                Level::Small => "small"@,
                Level::Medium => "medium"@,
                Level::Major => "major"@,
                Level::Championship => "championship"@,
            }),
    {
        match self {
            Level::Small => "small",
            Level::Medium => "medium",
            Level::Major => "major",
            Level::Championship => "championship",
        }
    }

    /// Every tier, each once, from the smallest to the largest.
    pub fn all() -> (r: Vec<Level>)
        ensures
            r@ == seq![Level::Small, Level::Medium, Level::Major, Level::Championship],
    {
        let mut out: Vec<Level> = Vec::with_capacity(4);
        out.push(Level::Small);
        out.push(Level::Medium);
        out.push(Level::Major);
        out.push(Level::Championship);
        proof {
            assert(out@ =~= seq![Level::Small, Level::Medium, Level::Major, Level::Championship]);
        }
        out
    }
}

} // verus!
