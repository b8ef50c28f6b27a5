//! Metro-map manifests: the compact canonical YAML style of manifest files,
//! the schematic and topology value types, and the structural rules that a
//! schematic path must obey.

pub mod text;
pub mod manifest_format;
pub mod schematic;
pub mod topology;
pub mod manifest_laws;
