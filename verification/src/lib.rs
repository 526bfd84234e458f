//! Compile-time dependency-injection wiring.
//!
//! Given a set of provider declarations (each naming the type it produces,
//! the types it requires, and any additional abstract types it binds) and a
//! requested target type, this crate normalizes type expressions into
//! comparable keys, builds a dependency graph, resolves a minimal ordered
//! construction plan from the target, and synthesizes the source text that
//! constructs the target by calling the providers in dependency order.

use vstd::prelude::*;

pub mod codegen;
pub mod errors;
pub mod generator;
pub mod graph;
pub mod import;
pub mod keys;
pub mod locator;
pub mod models;
pub mod resolve;
pub mod scanner;
pub mod signature;
pub mod solve;
pub mod strutil;
pub mod table;
