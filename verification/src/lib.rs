//! Finds the references from the tests and scripts of a Solidity project to the bytecode of its
//! sources, and replaces them by calls of cheatcodes.
//!
//! A test that holds `new Counter(1)` or `type(Counter).creationCode` is compiled anew whenever the
//! body of `Counter` changes. A test that asks a cheatcode for the artifact of `Counter` is not.
//! [`deps::PreprocessorDependencies`] finds the references that can be replaced without changing
//! what the test does, and the files that stay natively linked;
//! [`rewrite::remove_bytecode_dependencies`] gives the updates to the files.
//!
//! Both work on [`hir::Hir`], which holds what they need of the resolved syntax. What becomes of a
//! reference is said in [`collector`], as a function of the syntax around it; [`references`],
//! [`layout`] and [`laws`] state what holds of the whole.
pub mod collector;
pub mod dependency;
pub mod deps;
pub mod generated;
pub mod hir;
pub mod imports;
pub mod laws;
pub mod layout;
pub mod path;
pub mod path_laws;
pub mod path_set;
pub mod project;
pub mod reading;
pub mod references;
pub mod remapping;
pub mod rewrite;
pub mod selection;
pub mod text;
pub mod updates;
