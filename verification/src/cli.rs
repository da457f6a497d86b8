//! The choices the command line offers, and what each selects.
use vstd::prelude::*;

use crate::renderer::{CpuSortMode, Footprint, RadiusAlpha, ToneMap};

verus! {

/// Which spherical-harmonics degree to evaluate.
#[derive(Clone, Copy, Debug, PartialEq, Eq, Structural)]
pub enum ShDegree {
    Auto,
    D0,
    D1,
    D2,
    D3,
}

impl ShDegree {
    /// The degree to evaluate for a scene whose file carries
    /// `detected_degree`: `Auto` takes the file's degree, capped at 3.
    pub fn resolve(self, detected_degree: u32) -> (r: u32)
        ensures
            r == match self {
                ShDegree::Auto => if detected_degree < 3 {
                    detected_degree
                } else {
                    3u32
                },
                ShDegree::D0 => 0u32,
                ShDegree::D1 => 1u32,
                ShDegree::D2 => 2u32,
                ShDegree::D3 => 3u32,
            },
            r <= 3,
    {
        match self {
            ShDegree::Auto => if detected_degree < 3 {
                detected_degree
            } else {
                3
            },
            ShDegree::D0 => 0,
            ShDegree::D1 => 1,
            ShDegree::D2 => 2,
            ShDegree::D3 => 3,
        }
    }
}

/// Which renderer draws offscreen frames.
#[derive(Clone, Copy, Debug, PartialEq, Eq, Structural)]
pub enum RenderBackend {
    GpuQuad,
    CpuTile,
}

/// Where the CPU renderer sorts splats.
#[derive(Clone, Copy, Debug, PartialEq, Eq, Structural)]
pub enum CpuSortArg {
    Global,
    TileLocal,
}

impl CpuSortArg {
    /// The renderer setting this choice selects.
    pub fn as_renderer(self) -> (r: CpuSortMode)
        ensures
            r == match self {
                CpuSortArg::Global => CpuSortMode::Global,
                CpuSortArg::TileLocal => CpuSortMode::TileLocal,
            },
    {
        match self {
            CpuSortArg::Global => CpuSortMode::Global,
            CpuSortArg::TileLocal => CpuSortMode::TileLocal,
        }
    }
}

/// The background color presets.
#[derive(Clone, Copy, Debug, PartialEq, Eq, Structural)]
pub enum Background {
    Dark,
    Gray,
    White,
    Sky,
}

/// The display curve to apply (`Off` leaves exposed colors as they are).
#[derive(Clone, Copy, Debug, PartialEq, Eq, Structural)]
pub enum ToneMapArg {
    Off,
    Reinhard,
    Aces,
}

impl ToneMapArg {
    /// The renderer setting this choice selects.
    pub fn as_renderer(self) -> (r: ToneMap)
        ensures
            r == match self {
                ToneMapArg::Off => ToneMap::Off,
                ToneMapArg::Reinhard => ToneMap::Reinhard,
                ToneMapArg::Aces => ToneMap::Aces,
            },
    {
        match self {
            ToneMapArg::Off => ToneMap::Off,
            ToneMapArg::Reinhard => ToneMap::Reinhard,
            ToneMapArg::Aces => ToneMap::Aces,
        }
    }
}

/// How splat footprints are projected.
#[derive(Clone, Copy, Debug, PartialEq, Eq, Structural)]
pub enum FootprintArg {
    Axes,
    Covariance,
}

impl FootprintArg {
    /// The renderer setting this choice selects.
    pub fn as_renderer(self) -> (r: Footprint)
        ensures
            r == match self {
                FootprintArg::Axes => Footprint::Axes,
                FootprintArg::Covariance => Footprint::Covariance,
            },
    {
        match self {
            FootprintArg::Axes => Footprint::Axes,
            FootprintArg::Covariance => Footprint::Covariance,
        }
    }
}

/// The opacity policy for radius-clamped footprints.
#[derive(Clone, Copy, Debug, PartialEq, Eq, Structural)]
pub enum RadiusAlphaArg {
    Area,
    Linear,
    Preserve,
}

impl RadiusAlphaArg {
    /// The renderer setting this choice selects.
    pub fn as_renderer(self) -> (r: RadiusAlpha)
        ensures
            r == match self {
                RadiusAlphaArg::Area => RadiusAlpha::Area,
                RadiusAlphaArg::Linear => RadiusAlpha::Linear,
                RadiusAlphaArg::Preserve => RadiusAlpha::Preserve,
            },
    {
        match self {
            RadiusAlphaArg::Area => RadiusAlpha::Area,
            RadiusAlphaArg::Linear => RadiusAlpha::Linear,
            RadiusAlphaArg::Preserve => RadiusAlpha::Preserve,
        }
    }
}

} // verus!
