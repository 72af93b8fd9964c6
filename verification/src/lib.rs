//! A minimal package manager library.
//!
//! The catalog maps package names to their declared metadata, the resolver
//! computes an install order for a package's transitive dependencies, the
//! installer turns that order into a schedule of fetch-and-extract actions,
//! and the state store renders and parses the durable record of installed
//! packages. Network and filesystem work is left to the caller: this crate
//! only decides what to do and in which order.

pub mod model;
pub mod resolve;
pub mod manager;
pub mod codec;

pub use model::Package;
pub use model::PkgError;
pub use manager::PackageManager;
pub use manager::InstallAction;
