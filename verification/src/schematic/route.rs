//! Metro lines and the semantic paths that they take through stations and
//! layout corners.

use vstd::prelude::*;
use crate::schematic::station::SchematicStationPort;

verus! {

/// The names of one locale (such as `de` or `zh-TW`), in order.
#[derive(Debug, Clone, PartialEq, Eq)]
pub struct LocaleNames {
    pub locale: String,
    pub names: Vec<String>,
}

/// Localized names, one entry per locale.
#[derive(Debug, Clone, PartialEq, Eq)]
pub struct LocalizedNames {
    pub locales: Vec<LocaleNames>,
}

/// A semantic metro line and its schematic paths.
#[derive(Debug, Clone, PartialEq, Eq)]
pub struct SchematicLine {
    pub id: String,
    pub names: LocalizedNames,
    pub color: String,
    pub paths: Vec<SchematicPath>,
}

/// An ordered semantic traversal of stations and layout corners.
#[derive(Debug, Clone, PartialEq, Eq)]
pub struct SchematicPath {
    pub visits: Vec<SchematicRouteVisit>,
    pub closed: bool,
}

/// A station or corner visited by a semantic schematic path.
#[derive(Debug, Clone, PartialEq, Eq)]
pub enum SchematicRouteVisit {
    Station { station_id: String, port: SchematicStationPort },
    Corner { corner_id: String },
}

} // verus!
