//! Skeleton-workspace materializer.
//!
//! Given a read-only description of a build workspace (root, lockfile,
//! member packages with their manifests and build targets), this library
//! computes a "skeleton": the exact set of files a lightweight copy of the
//! workspace must contain — the lockfile and every member manifest byte for
//! byte, and a zero-length placeholder for every build target's source
//! entry point. The caller performs the actual reads and writes; everything
//! decided here (path rebasing, membership filtering, fail-fast validation,
//! file contents) is verified.

pub mod laws;
pub mod metadata;
pub mod paths;
pub mod skeleton;
