//! Reconciles a target directory against a desired set of downloads and
//! local overrides, and tracks the progress of the downloads that remain.

pub mod order;
pub mod clean;
pub mod progress;

pub mod install;
pub mod cli;
pub mod clean_laws;
