use splatrs::cli::{CpuSortArg, FootprintArg, RadiusAlphaArg, ShDegree, ToneMapArg};
use splatrs::renderer::{CpuSortMode, Footprint, RadiusAlpha, ToneMap};

#[test]
fn auto_sh_degree_takes_the_file_degree_capped_at_three() {
    assert_eq!(ShDegree::Auto.resolve(0), 0);
    assert_eq!(ShDegree::Auto.resolve(2), 2);
    assert_eq!(ShDegree::Auto.resolve(7), 3);
}

#[test]
fn fixed_sh_degrees_ignore_the_file() {
    assert_eq!(ShDegree::D0.resolve(3), 0);
    assert_eq!(ShDegree::D1.resolve(0), 1);
    assert_eq!(ShDegree::D2.resolve(3), 2);
    assert_eq!(ShDegree::D3.resolve(0), 3);
}

#[test]
fn arguments_select_renderer_options() {
    assert_eq!(CpuSortArg::Global.as_renderer(), CpuSortMode::Global);
    assert_eq!(CpuSortArg::TileLocal.as_renderer(), CpuSortMode::TileLocal);
    assert_eq!(ToneMapArg::Off.as_renderer(), ToneMap::Off);
    assert_eq!(ToneMapArg::Reinhard.as_renderer(), ToneMap::Reinhard);
    assert_eq!(ToneMapArg::Aces.as_renderer(), ToneMap::Aces);
    assert_eq!(FootprintArg::Axes.as_renderer(), Footprint::Axes);
    assert_eq!(FootprintArg::Covariance.as_renderer(), Footprint::Covariance);
    assert_eq!(RadiusAlphaArg::Area.as_renderer(), RadiusAlpha::Area);
    assert_eq!(RadiusAlphaArg::Linear.as_renderer(), RadiusAlpha::Linear);
    assert_eq!(RadiusAlphaArg::Preserve.as_renderer(), RadiusAlpha::Preserve);
}

#[test]
fn renderer_defaults() {
    assert_eq!(Footprint::default(), Footprint::Axes);
    assert_eq!(RadiusAlpha::default(), RadiusAlpha::Area);
    assert_eq!(CpuSortMode::default(), CpuSortMode::TileLocal);
    assert_eq!(ToneMap::default(), ToneMap::Off);
}
