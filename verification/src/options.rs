//! Burn options: the polygon mode and whether adjacent runs are merged.

use vstd::prelude::*;

verus! {

/// How polygon boundary cells are classified.
#[derive(Clone, Copy, Debug, PartialEq, Eq, Structural)]
pub enum BurnMode {
    /// Exact coverage fractions; boundary cells go to `edges`.
    Coverage,
    /// Cell-centre rule; runs only.
    Approx,
}

impl Default for BurnMode {
    fn default() -> (m: Self)
        ensures
            m == BurnMode::Coverage,
    {
        BurnMode::Coverage
    }
}

/// Options for a burn.
#[derive(Clone, Copy, Debug, PartialEq, Eq, Structural)]
pub struct BurnOptions {
    pub mode: BurnMode,
    /// Merge adjacent runs on a row (default `true`).
    pub coalesce_runs: bool,
}

impl Default for BurnOptions {
    fn default() -> (o: Self)
        ensures
            o.mode == BurnMode::Coverage,
            o.coalesce_runs,
    {
        BurnOptions { mode: BurnMode::Coverage, coalesce_runs: true }
    }
}

impl BurnOptions {
    /// Coverage mode with coalescing on.
    pub fn coverage() -> (o: Self)
        ensures
            o == (BurnOptions { mode: BurnMode::Coverage, coalesce_runs: true }),
    {
        BurnOptions { mode: BurnMode::Coverage, coalesce_runs: true }
    }

    /// Approx mode with coalescing on.
    pub fn approx() -> (o: Self)
        ensures
            o == (BurnOptions { mode: BurnMode::Approx, coalesce_runs: true }),
    {
        BurnOptions { mode: BurnMode::Approx, coalesce_runs: true }
    }

    /// Record-for-record tables: coalescing off.
    pub fn parity(mode: BurnMode) -> (o: Self)
        ensures
            o == (BurnOptions { mode, coalesce_runs: false }),
    {
        BurnOptions { mode, coalesce_runs: false }
    }

    pub fn with_mode(self, mode: BurnMode) -> (o: Self)
        ensures
            o == (BurnOptions { mode, coalesce_runs: self.coalesce_runs }),
    {
        let mut s = self;
        s.mode = mode;
        s
    }

    pub fn with_coalesce_runs(self, on: bool) -> (o: Self)
        ensures
            o == (BurnOptions { mode: self.mode, coalesce_runs: on }),
    {
        let mut s = self;
        s.coalesce_runs = on;
        s
    }
}

impl From<BurnMode> for BurnOptions {
    fn from(mode: BurnMode) -> (o: Self) {
        BurnOptions { mode, coalesce_runs: true }
    }
}

impl vstd::std_specs::convert::FromSpecImpl<BurnMode> for BurnOptions {
    open spec fn obeys_from_spec() -> bool {
        true
    }

    /// The default options with the given mode.
    open spec fn from_spec(mode: BurnMode) -> Self {
        BurnOptions { mode, coalesce_runs: true }
    }
}

} // verus!
