//! Freshness checks for a package manager.
//!
//! Two mechanisms live here. [`cache_info`] captures a staleness snapshot of
//! a build input: the newest change time among the watched files, paired with
//! the commit of the enclosing repository. [`installed_packages`] indexes the
//! distributions that a [`scan`] finds installed; on that index, [`satisfies`]
//! decides whether what is installed already satisfies a set of requirements,
//! and [`diagnostics`] audits it for what is wrong.
//!
//! The library performs no input or output, evaluates no marker and compares
//! no version. Whatever must be learned from the file system is handed in as
//! plain values; whatever must be asked of a marker environment is asked of
//! the caller as a [`query::Question`]. What a walk or an audit comes to,
//! whatever the answers, is proved in [`satisfies_proofs`] and
//! [`diagnostics_proofs`].
pub mod cache_info;
pub mod diagnostics;
pub mod diagnostics_proofs;
pub mod distribution;
pub mod index;
pub mod installed_packages;
pub mod query;
pub mod requirement;
pub mod satisfies;
pub mod satisfies_proofs;
pub mod scan;
pub mod text;
