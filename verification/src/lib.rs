//! A directory-backed declarative-object synchronizer: it keeps an
//! authoritative index of the last successfully decoded object per file key
//! and turns debounced filesystem events into a clean stream of `created`,
//! `updated` and `deleted` notifications for a pluggable sink.

pub mod document;
pub mod object;
pub mod pathname;
pub mod combine;
pub mod reconcile;
pub mod laws;
