//! Display options that the splat renderers share.
use vstd::prelude::*;

verus! {

/// How a splat's screen-space footprint is derived.
#[derive(Clone, Copy, Debug, PartialEq, Eq, Structural)]
pub enum Footprint {
    Axes,
    Covariance,
}

/// How opacity is adjusted once a very large footprint is radius-clamped.
#[derive(Clone, Copy, Debug, PartialEq, Eq, Structural)]
pub enum RadiusAlpha {
    Area,
    Linear,
    Preserve,
}

/// Where the CPU renderer sorts splats.
#[derive(Clone, Copy, Debug, PartialEq, Eq, Structural)]
pub enum CpuSortMode {
    Global,
    TileLocal,
}

/// The display curve applied to exposed colors (`Off` applies none).
#[derive(Clone, Copy, Debug, PartialEq, Eq, Structural)]
pub enum ToneMap {
    Off,
    Reinhard,
    Aces,
}

impl Default for Footprint {
    fn default() -> (r: Self)
        ensures
            r == Footprint::Axes,
    {
        Footprint::Axes
    }
}

impl Default for RadiusAlpha {
    fn default() -> (r: Self)
        ensures
            r == RadiusAlpha::Area,
    {
        RadiusAlpha::Area
    }
}

impl Default for CpuSortMode {
    fn default() -> (r: Self)
        ensures
            r == CpuSortMode::TileLocal,
    {
        CpuSortMode::TileLocal
    }
}

impl Default for ToneMap {
    fn default() -> (r: Self)
        ensures
            r == ToneMap::Off,
    {
        ToneMap::Off
    }
}

} // verus!
