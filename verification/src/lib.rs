//! Selection, closure and tree shaping for generated Windows Runtime bindings.
//!
//! A build declares the packages whose metadata it depends on and the types
//! it wants. This library resolves the packages to a set of metadata files,
//! parses the selection into selectors, expands the selectors over a type
//! universe into the closed set of required types, optionally prunes the
//! foundation namespaces, and fixes the order and the steps of emission.
//! Reading metadata, rendering a type and running the formatter are left to
//! the caller.

pub mod closure;
pub mod declarations;
pub mod dependencies;
pub mod emit;
pub mod grammar;
pub mod import;
pub mod names;
pub mod selector;
pub mod syntax;
pub mod text;
pub mod tree;
pub mod universe;
