//! Build-time resource bundling: a flat list of discovered filesystem entries is
//! folded into a tree of namespaces that mirrors the directory nesting, and the
//! tree is turned into declarations that bind each file to a named byte constant.
//!
//! The library neither walks the file system nor reads a file. It is handed
//! what a walker found ([`entry`]), builds the tree ([`tree`]), says which
//! paths have to be resolved, and, given their canonical forms, makes the
//! declarations ([`emit`]). Names of namespaces and constants are sanitized
//! path segments ([`sanitize`]); [`ident`] makes identifier tokens of them.
//! [`invocation`] picks the pattern out of the arguments of an invocation.
//!
//! Every contract is stated over the mathematical model in [`model`]. What
//! holds of that model is proved in [`node_laws`] (one node), [`laws`] (whole
//! trees), [`walk_laws`] (whole walks) and [`emit_laws`] (the emission).

pub mod emit;
pub mod emit_laws;
pub mod entry;
pub mod ident;
pub mod invocation;
pub mod laws;
pub mod model;
pub mod node_laws;
pub mod sanitize;
pub mod tree;
pub mod walk_laws;
