//! Reports the dependency set a project will actually use once version
//! requirements and feature flags are resolved: one chosen version per
//! package identity, and the fully propagated feature set of each
//! resolved package.

pub mod semver;
pub mod model;
pub mod engine;
pub mod graph;
pub mod resolve;
pub mod rules;
pub mod report;
pub mod laws;
