//! RUNE core: authorization and configuration engine with a Datalog core.
//!
//! Every module of this crate is verified with Verus: the data structures,
//! the Datalog machinery (terms, unification, relation backends, lattices,
//! provenance, magic sets, leapfrog joins), the rule parser and the
//! diagnostics carry contracts over mathematical models.
pub mod text;
pub mod types;
pub mod debug_text;
pub mod facts;
pub mod datalog;
pub mod engine;
pub mod error;
pub mod request;
pub mod parser;
pub mod toml_data;
pub mod watcher;
pub mod monitoring;
pub mod cedar;
pub mod policy;
pub mod reload;

use vstd::prelude::*;

verus! {

/// Version of the library.
pub const VERSION: &'static str = "0.2.0";

} // verus!
