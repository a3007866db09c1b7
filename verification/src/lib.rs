//! Reorganizes submitted coursework files into per-user directories.
//!
//! Submission exports name each file with a group label, an eight
//! character user id, a timestamp, and the original filename.  This crate
//! holds the logic of the tool: the filename grammar and its matcher
//! ([`pattern`]), the directory scanner that collects matches from a
//! listing ([`scan`]), the organizer that turns a batch of matches into
//! the ordered move steps of a run ([`plan`]), and the archive scanner
//! that plans the extraction of matching zip entries ([`archive`]).
//! Listing directories, reading archives, and performing the planned
//! steps is left to the caller; what performing them in order does to
//! the filesystem — and where a run stops when a step fails — is stated
//! and proved over a model of those effects ([`run`]).

pub mod archive;
pub mod pattern;
pub mod plan;
pub mod run;
pub mod scan;
