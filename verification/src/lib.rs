//! Dependency solving for the elm ecosystem.
//!
//! Starting from the dependency constraints of a project, such as those
//! of the `elm.json` of a package,
//!
//! ```json
//! {
//!   "dependencies": {
//!     "elm/core": "1.0.2 <= v < 2.0.0",
//!     "elm/http": "2.0.0 <= v < 3.0.0"
//!   }
//! }
//! ```
//!
//! solving finds one version of each package needed such that all the
//! constraints hold, and tells the direct dependencies from the indirect
//! ones. The search itself is that of the `pubgrub` crate. This crate
//! holds what surrounds it:
//!
//! - [`version`] and [`versions`]: semantic versions and ordered sets of them;
//! - [`constraint`]: sets of versions, held as pubgrub ranges, and their
//!   text form;
//! - [`project_config`]: package identifiers and project configurations;
//! - [`pkg_version`]: package versions, the places of their configuration,
//!   and the cache of the versions that the package server lists;
//! - [`dependency_provider`]: how the next package and version are chosen,
//!   and the adapter that makes a project the root of the search;
//! - [`solver`]: what is asked of the search for a project, what is made of
//!   its answer, and the solvers for installed packages and for the
//!   package server.
//!
//! Nothing here reads a file or talks to a server: a caller hands in what
//! it has read, or a function that fetches.

pub mod constraint;
pub mod dependency_provider;
pub mod pkg_version;
pub mod project_config;
pub mod solver;
pub mod text;
pub mod version;
pub mod versions;
