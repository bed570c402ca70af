use vstd::prelude::*;

pub mod text;
pub mod page_range;
pub mod raster;
pub mod history;
pub mod reader;
pub mod shortcuts;
pub mod latex;
pub mod ocr;
pub mod config;
pub mod annotations;
pub mod export;

verus! {

} // verus!
