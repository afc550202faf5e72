//! Order statistics over integer lanes: selection, interpolation and quantiles.

pub mod array;
pub mod interpolate;
pub mod ordered_map;
pub mod quantile;
pub mod sort;
