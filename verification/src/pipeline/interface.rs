//! The settings of a compression pipeline.
use vstd::prelude::*;

verus! {

/// How rows are compressed.
#[derive(Debug, Clone, Copy, PartialEq, Eq, Structural)]
pub struct CompressionParams {
    /// The number of bases at which no more bits are taken for the condensed rows.
    pub condensed_sample_max_bases: usize,
    /// How many bits in a row may bring nothing.
    pub base_optimization_patience: usize,
    pub enable_condensed_samples: bool,
}

impl CompressionParams {
    /// The given settings.
    pub fn new(
        condensed_sample_max_bases: usize,
        base_optimization_patience: usize,
        enable_condensed_samples: bool,
    ) -> (params: CompressionParams)
        ensures
            params.condensed_sample_max_bases == condensed_sample_max_bases,
            params.base_optimization_patience == base_optimization_patience,
            params.enable_condensed_samples == enable_condensed_samples,
    {
        CompressionParams {
            condensed_sample_max_bases,
            base_optimization_patience,
            enable_condensed_samples,
        }
    }

    /// Whether condensed rows are made: where they are asked for and may have any base.
    pub fn makes_condensed_samples(&self) -> (makes: bool)
        ensures
            makes == (self.enable_condensed_samples && self.condensed_sample_max_bases > 0),
    {
        self.enable_condensed_samples && self.condensed_sample_max_bases > 0
    }

    /// The weights that are kept with compressed rows: those of the condensed rows where they are
    /// asked for, though there may be none.
    pub fn kept_weights(&self, weights: Vec<usize>) -> (kept: Option<Vec<usize>>)
        ensures
            kept == (if self.enable_condensed_samples {
                Some(weights)
            } else {
                None
            }),
    {
        if self.enable_condensed_samples {
            Some(weights)
        } else {
            None
        }
    }
}

} // verus!
