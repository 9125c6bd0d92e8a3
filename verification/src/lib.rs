//! Queries over a package-registry index: the dependency graph implied by the
//! published version records, reverse-dependency lookups (direct and
//! transitive), and the earliest version of each package that reached 1.0.
pub mod bytes;
pub mod graph;
pub mod home;
pub mod index;
pub mod milestone;
pub mod present;
pub mod record;
pub mod verparse;
pub mod version;
