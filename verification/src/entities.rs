//! The entities of the system: keyed assets and the jobs that group them.

pub mod asset;
pub mod jobs;
