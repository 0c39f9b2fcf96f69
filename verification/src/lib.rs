//! Reorders the scaffolds of a FASTA assembly.
//!
//! A run reads the records of a FASTA text into a scaffold index, classifies each
//! scaffold as a sex-chromosome scaffold or not from the suffix of its identifier,
//! orders the index by length under one of several strategies, and renders the
//! reordered FASTA text together with a change log.
//!
//! - [`cli`]: the parameters of a run and their validation.
//! - [`generics`]: the scaffold record, its classification, the reader and the log.
//! - [`processors`]: the sort engine, the FASTA writer, and what holds of both.
//! - [`error`]: the failures that a run reports.
//!
//! The library works on text in memory; reading and writing files is left to the
//! program around it.

pub mod cli;
pub mod error;
pub mod generics;
pub mod processors;
