//! Collection engine that enriches catalog entries with facts pulled from
//! GitLab instances: URL routing, credential resolution, per-instance client
//! pools, the per-repository fetch protocol and the cache-aware run.

pub mod api;
pub mod collector;
pub mod credentials;
pub mod fetcher;
pub mod guarantees;
pub mod model;
pub mod pool;
pub mod router;
pub mod runs;
pub mod text;
