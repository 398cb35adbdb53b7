//! Static introspection of a parsed template tree.
//!
//! Given the node sequence that a template parser produced, this crate
//! computes which other templates the template extends or includes, which
//! macros it imports, and the set of distinct data paths it reads, with
//! template-local aliases (loop variables) resolved back to the underlying
//! data paths they denote.

pub mod ast;
pub mod introspection;
pub mod paths;
pub mod strset;
pub mod table;

pub use ast::Expr;
pub use ast::Node;
pub use introspection::add_ident;
pub use introspection::TeraIntrospection;
pub use paths::split_ident;
pub use strset::StrSet;
pub use table::add_mapping;
pub use table::expand_names;
pub use table::AliasTable;
