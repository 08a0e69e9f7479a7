//! Bundles a library that is spread over many files into one source text.
//!
//! A bundle is made in three steps. A [`traverse::Traverse`] follows the
//! imports of the entry file through the crate and lists the modules that
//! are needed, in the order of their paths. [`compile::compile`] puts the
//! texts of these modules together, each inside the module blocks of its
//! path, and [`compile::compile_entry`] rewrites the entry file.
//! [`compile::join_bundle`] makes one text of the two.
//!
//! The library does not read files and does not parse: it is handed the
//! texts and, for each text, the declarations that its rules look at, as
//! [`syntax`] describes them.
//!
//! - [`text`]: characters, lines, and the text between two places
//! - [`path`]: module paths and their order
//! - [`table`]: a map from module paths to values
//! - [`syntax`]: what a parsed source file looks like to the bundler
//! - [`edit`]: the edits of one file's text
//! - [`index`]: which file holds each module
//! - [`resolve`]: what an import names
//! - [`reach`]: which modules are reached by following imports
//! - [`traverse`]: the traversal
//! - [`compile`]: the bundle's text
//! - [`error`]: why a run was given up

pub mod compile;
pub mod edit;
pub mod error;
pub mod index;
pub mod path;
pub mod reach;
pub mod resolve;
pub mod syntax;
pub mod table;
pub mod text;
pub mod traverse;
