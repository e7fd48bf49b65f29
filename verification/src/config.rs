//! [`HnswConfig`]: the tuning knobs of an index and the checks that an index
//! applies to them when it is built.

use vstd::prelude::*;

use crate::error::{ConfigFault, HnswError};

verus! {

/// Default seed for the layer-assignment generator.
pub const DEFAULT_SEED: u64 = 0xDEAD_BEEF_CAFE_F00D;

/// Default maximum number of neighbours per node above layer 0.
pub const DEFAULT_M: usize = 16;

/// Default beam width while inserting.
pub const DEFAULT_EF_CONSTRUCTION: usize = 200;

/// Default beam width while searching.
pub const DEFAULT_EF_SEARCH: usize = 64;

/// Default multiplier on the beam width of a filtered search.
pub const DEFAULT_FILTER_WIDEN: usize = 4;

/// Configuration of an [`crate::HnswIndex`].
///
/// `m` caps the neighbours of a node above layer 0 (`2 * m` at layer 0),
/// `ef_construction` is the beam width while inserting, `ef_search` the beam
/// width while searching (raised to `k` when `k` is larger), `filter_widen`
/// multiplies the beam width of a filtered search, and `seed` seeds the
/// layer-assignment generator.
#[derive(Debug, Clone, Copy, PartialEq, Eq, Structural)]
pub struct HnswConfig {
    /// Maximum neighbours per node above layer 0; layer 0 allows `2 * m`.
    pub m: usize,
    /// Beam width while inserting; must be at least `m`.
    pub ef_construction: usize,
    /// Beam width while searching.
    pub ef_search: usize,
    /// Multiplier on the beam width when a search carries a filter.
    pub filter_widen: usize,
    /// Seed of the layer-assignment generator.
    pub seed: u64,
}

impl HnswConfig {
    /// The documented operating point: `m = 16`, `ef_construction = 200`,
    /// `ef_search = 64`, `filter_widen = 4`, `seed = 0xDEADBEEFCAFEF00D`.
    pub open spec fn spec_default() -> HnswConfig {
        HnswConfig {
            m: DEFAULT_M,
            ef_construction: DEFAULT_EF_CONSTRUCTION,
            ef_search: DEFAULT_EF_SEARCH,
            filter_widen: DEFAULT_FILTER_WIDEN,
            seed: DEFAULT_SEED,
        }
    }

    /// Override `m`; every other field is kept.
    pub fn with_m(self, m: usize) -> (r: Self)
        ensures
            r.m == m,
            r.ef_construction == self.ef_construction,
            r.ef_search == self.ef_search,
            r.filter_widen == self.filter_widen,
            r.seed == self.seed,
    {
        let mut c = self;
        c.m = m;
        c
    }

    /// Override `ef_construction`; every other field is kept.
    pub fn with_ef_construction(self, ef_construction: usize) -> (r: Self)
        ensures
            r.m == self.m,
            r.ef_construction == ef_construction,
            r.ef_search == self.ef_search,
            r.filter_widen == self.filter_widen,
            r.seed == self.seed,
    {
        let mut c = self;
        c.ef_construction = ef_construction;
        c
    }

    /// Override `ef_search`; every other field is kept.
    pub fn with_ef_search(self, ef_search: usize) -> (r: Self)
        ensures
            r.m == self.m,
            r.ef_construction == self.ef_construction,
            r.ef_search == ef_search,
            r.filter_widen == self.filter_widen,
            r.seed == self.seed,
    {
        let mut c = self;
        c.ef_search = ef_search;
        c
    }

    /// Override `filter_widen`; every other field is kept.
    pub fn with_filter_widen(self, filter_widen: usize) -> (r: Self)
        ensures
            r.m == self.m,
            r.ef_construction == self.ef_construction,
            r.ef_search == self.ef_search,
            r.filter_widen == filter_widen,
            r.seed == self.seed,
    {
        let mut c = self;
        c.filter_widen = filter_widen;
        c
    }

    /// Override the seed; every other field is kept.
    pub fn with_seed(self, seed: u64) -> (r: Self)
        ensures
            r.m == self.m,
            r.ef_construction == self.ef_construction,
            r.ef_search == self.ef_search,
            r.filter_widen == self.filter_widen,
            r.seed == seed,
    {
        let mut c = self;
        c.seed = seed;
        c
    }

    /// The first check that `dim` and this configuration fail, in the order
    /// `dim == 0`, `m == 0`, `ef_construction < m`, `ef_search == 0`,
    /// `filter_widen == 0`; `None` when all pass.
    pub open spec fn spec_fault(dim: usize, cfg: HnswConfig) -> Option<ConfigFault> {
        if dim == 0 {
            Some(ConfigFault::ZeroDim)
        } else if cfg.m == 0 {
            Some(ConfigFault::ZeroM)
        } else if cfg.ef_construction < cfg.m {
            Some(ConfigFault::EfConstructionBelowM)
        } else if cfg.ef_search == 0 {
            Some(ConfigFault::ZeroEfSearch)
        } else if cfg.filter_widen == 0 {
            Some(ConfigFault::ZeroFilterWiden)
        } else {
            None
        }
    }

    /// Check `dim` and this configuration before an index is built: `Ok`
    /// exactly when every check passes, else the first failed check.
    pub fn validate(&self, dim: usize) -> (r: Result<(), HnswError>)
        ensures
            match Self::spec_fault(dim, *self) {
                None => r == Ok::<(), HnswError>(()),
                Some(f) => r == Err::<(), HnswError>(HnswError::InvalidConfig(f)),
            },
    {
        if dim == 0 {
            return Err(HnswError::InvalidConfig(ConfigFault::ZeroDim));
        }
        if self.m == 0 {
            return Err(HnswError::InvalidConfig(ConfigFault::ZeroM));
        }
        if self.ef_construction < self.m {
            return Err(HnswError::InvalidConfig(ConfigFault::EfConstructionBelowM));
        }
        if self.ef_search == 0 {
            return Err(HnswError::InvalidConfig(ConfigFault::ZeroEfSearch));
        }
        if self.filter_widen == 0 {
            return Err(HnswError::InvalidConfig(ConfigFault::ZeroFilterWiden));
        }
        Ok(())
    }
}

impl Default for HnswConfig {
    /// The documented operating point (see [`HnswConfig::spec_default`]).
    fn default() -> (r: Self)
        ensures
            r == Self::spec_default(),
    {
        HnswConfig {
            m: DEFAULT_M,
            ef_construction: DEFAULT_EF_CONSTRUCTION,
            ef_search: DEFAULT_EF_SEARCH,
            filter_widen: DEFAULT_FILTER_WIDEN,
            seed: DEFAULT_SEED,
        }
    }
}

} // verus!
