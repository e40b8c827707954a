//! Candidate filtering for the home timeline mixer, with its contracts proved by Verus.

pub mod candidate_pipeline;
pub mod filters;
