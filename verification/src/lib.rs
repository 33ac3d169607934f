//! Loads a configuration structure from three sources with fixed precedence:
//! a value given on the command line wins; otherwise a value from a TOML
//! document wins; otherwise the field's declared default applies.
//!
//! A structure is described at runtime by a [`model::ConfigStruct`]: an
//! ordered list of named fields, each holding a default value, an optional
//! merge-key override, and possibly a nested structure that is merged
//! recursively. One generic merge algorithm serves every structure shape.

pub mod model;
pub mod merge;
pub mod errors;
pub mod doc;
pub mod args;
pub mod entry;

pub use model::{ConfigStruct, Field, FieldValue, ExplicitSet};
pub use errors::Error;
pub use merge::merge;
pub use doc::{DocEntry, DocTree};
pub use args::{ArgDecl, ArgInput};
pub use entry::{from_clap_with_toml, from_iter_with_toml};
