use vstd::prelude::*;

pub mod binarize;
pub mod counting;
pub mod estimate;
pub mod raster;
pub mod regression;
