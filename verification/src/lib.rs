//! Deduplication of media collections: the verified core of dublette.
pub mod audio;
pub mod cli;
pub mod paths;
pub mod report;
pub mod run;
pub mod components;
pub mod dedupe;
pub mod gif;
pub mod hash;
pub mod json;
pub mod scan;
pub mod skip;
