//! Global visual options of a topology map that hold no lengths: label
//! visibility, station colours, stroke alignment and the background.

use vstd::prelude::*;

verus! {

/// Global display options for station-name labels.
#[derive(Debug, Clone, Copy, PartialEq, Eq, Structural)]
pub struct TopologyLabelOptions {
    pub hidden: bool,
}

/// How a common-station colour is selected.
#[derive(Debug, Clone, PartialEq, Eq)]
pub enum TopologyStationColor {
    Unified { value: String },
    FollowLine {},
}

/// Placement of a station stroke relative to its fill boundary.
#[derive(Debug, Clone, Copy, PartialEq, Eq, Hash, Structural)]
pub enum TopologyStrokeAlignment {
    Inside,
    Center,
    Outside,
}

/// An opaque colour or a transparent map background.
#[derive(Debug, Clone, PartialEq, Eq)]
pub enum TopologyBackgroundOptions {
    Color { color: String },
    Transparent,
}

/// Why the fields of a background mapping describe no background.
#[derive(Debug, Clone, Copy, PartialEq, Eq, Structural)]
pub enum BackgroundFieldsError {
    /// `transparent: false` without a colour.
    TransparentFalse,
    /// A colour together with `transparent: true`.
    ColorConflictsWithTransparent,
    /// Neither a colour nor `transparent: true`.
    Missing,
}

impl BackgroundFieldsError {
    /// The message that reports the error.
    pub fn message(&self) -> (r: &'static str)
        ensures
            r@ == match self {
                BackgroundFieldsError::TransparentFalse => "transparent must be true"@,
                BackgroundFieldsError::ColorConflictsWithTransparent =>
                    "background color conflicts with transparent: true"@,
                BackgroundFieldsError::Missing =>
                    "background must contain color or transparent: true"@,
            },
    {
        match self {
            BackgroundFieldsError::TransparentFalse => "transparent must be true",
            BackgroundFieldsError::ColorConflictsWithTransparent =>
                "background color conflicts with transparent: true",
            BackgroundFieldsError::Missing => "background must contain color or transparent: true",
        }
    }
}

/// The background that a mapping with the optional fields `color` (also
/// spelled `colour`) and `transparent` describes: a colour where there is one
/// and `transparent` is absent or false, transparency where there is no
/// colour and `transparent` is true, and an error otherwise.
pub open spec fn background_from_fields(
    color: Option<String>,
    transparent: Option<bool>,
) -> Result<TopologyBackgroundOptions, BackgroundFieldsError> {
    match (color, transparent) {
        (Some(c), None) => Ok(TopologyBackgroundOptions::Color { color: c }),
        (Some(c), Some(false)) => Ok(TopologyBackgroundOptions::Color { color: c }),
        (None, Some(true)) => Ok(TopologyBackgroundOptions::Transparent),
        (None, Some(false)) => Err(BackgroundFieldsError::TransparentFalse),
        (Some(_), Some(true)) => Err(BackgroundFieldsError::ColorConflictsWithTransparent),
        (None, None) => Err(BackgroundFieldsError::Missing),
    }
}

/// The single field that a background is written as: its colour, or
/// `transparent: true`.
pub open spec fn background_fields(b: TopologyBackgroundOptions) -> (Option<String>, Option<bool>) {
    match b {
        TopologyBackgroundOptions::Color { color } => (Some(color), None),
        TopologyBackgroundOptions::Transparent => (None, Some(true)),
    }
}

impl TopologyBackgroundOptions {
    /// Builds the background from the fields of its mapping.
    pub fn from_fields(color: Option<String>, transparent: Option<bool>) -> (r: Result<
        TopologyBackgroundOptions,
        BackgroundFieldsError,
    >)
        ensures
            r == background_from_fields(color, transparent),
    {
        match (color, transparent) {
            (Some(color), None) => Ok(TopologyBackgroundOptions::Color { color }),
            (Some(color), Some(false)) => Ok(TopologyBackgroundOptions::Color { color }),
            (None, Some(true)) => Ok(TopologyBackgroundOptions::Transparent),
            (None, Some(false)) => Err(BackgroundFieldsError::TransparentFalse),
            (Some(_), Some(true)) => Err(BackgroundFieldsError::ColorConflictsWithTransparent),
            (None, None) => Err(BackgroundFieldsError::Missing),
        }
    }

    /// The fields that the background is written as.
    pub fn to_fields(&self) -> (r: (Option<String>, Option<bool>))
        ensures
            r == background_fields(*self),
    {
        match self {
            TopologyBackgroundOptions::Color { color } => (Some(color.clone()), None),
            TopologyBackgroundOptions::Transparent => (None, Some(true)),
        }
    }
}

/// A background read back from the fields it is written as is the same
/// background.
pub proof fn lemma_background_fields_roundtrip(b: TopologyBackgroundOptions)
    ensures
        background_from_fields(background_fields(b).0, background_fields(b).1) == Ok::<
            TopologyBackgroundOptions,
            BackgroundFieldsError,
        >(b),
{
}

/// Fields that describe a background are written back with the same colour,
/// and with `transparent` only where it was true.
pub proof fn lemma_background_fields_canonical(color: Option<String>, transparent: Option<bool>)
    requires
        background_from_fields(color, transparent) is Ok,
    ensures
        background_fields(background_from_fields(color, transparent)->Ok_0) == (
            color,
            if color is Some {
                None::<bool>
            } else {
                transparent
            },
        ),
{
}

/// Any colour, whether `transparent` is absent or false beside it, reads as
/// that colour; `transparent: true` alone reads as a transparent background.
/// `transparent: false` alone, a colour beside `transparent: true`, and a
/// mapping with neither field are each refused with their own error.
pub proof fn lemma_background_fields_read(color: String)
    ensures
        background_from_fields(Some(color), None) == Ok::<
            TopologyBackgroundOptions,
            BackgroundFieldsError,
        >(TopologyBackgroundOptions::Color { color }),
        background_from_fields(Some(color), Some(false)) == Ok::<
            TopologyBackgroundOptions,
            BackgroundFieldsError,
        >(TopologyBackgroundOptions::Color { color }),
        background_from_fields(None, Some(true)) == Ok::<
            TopologyBackgroundOptions,
            BackgroundFieldsError,
        >(TopologyBackgroundOptions::Transparent),
        background_from_fields(None, Some(false)) == Err::<
            TopologyBackgroundOptions,
            BackgroundFieldsError,
        >(BackgroundFieldsError::TransparentFalse),
        background_from_fields(Some(color), Some(true)) == Err::<
            TopologyBackgroundOptions,
            BackgroundFieldsError,
        >(BackgroundFieldsError::ColorConflictsWithTransparent),
        background_from_fields(None, None) == Err::<
            TopologyBackgroundOptions,
            BackgroundFieldsError,
        >(BackgroundFieldsError::Missing),
{
}

} // verus!
