//! A file-integrity guard: the decisions behind watching directory trees and
//! reverting every change that was not authorised.
//!
//! The crate holds the protection engine as pure, verified functions. A caller
//! walks directories, receives file-system notifications and copies or deletes
//! files; the engine says which baseline a walk yields, whether an event is
//! exempt, and which actions answer it.

pub mod action;
pub mod allowlist;
pub mod fingerprint;
pub mod guard;
pub mod laws;
pub mod path;
pub mod path_facts;
pub mod reactor;
pub mod snapshot;
