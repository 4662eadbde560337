//! Dependency-ordered build planning for source packages.
//!
//! Given the atoms of the packages that a user asks for, the crate finds the
//! order in which they and everything they depend on are to be built. It
//! reads no file itself: the caller lists and reads the repository and hands
//! the crate what it found.
//!
//! - [`ebuild_utils`] turns texts into records: an atom into its parts, a
//!   dependency expression into package references, a metadata file into its
//!   fields, the metadata files of a package into its versions.
//! - [`atom`], [`lexer`] and [`metadata`] hold the three grammars, each as
//!   functions on sequences of characters, and [`text`] what they share.
//! - [`depgraph`] is the graph of named nodes, over the graph of
//!   identifiers in [`graphmap`]; [`builder`] grows it from the requested
//!   atoms, one looked-up package at a time.
//! - [`data`] and [`error`] hold the records and the failures.
//!
//! Every function is verified against its contract, with one exception: the
//! operations of the graph of identifiers in [`graphmap`] are `petgraph`'s,
//! and their contracts are taken on trust.

pub mod atom;
pub mod builder;
pub mod data;
pub mod depgraph;
pub mod ebuild_utils;
pub mod error;
pub mod graphmap;
pub mod lexer;
pub mod metadata;
pub mod text;
