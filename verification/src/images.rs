//! Images: what they hold, how they are decoded, changed and encoded.
pub mod bitonal;
pub mod classify;
pub mod decode;
pub mod encode;
pub mod function;
pub mod jp2;
pub mod postscript;
pub mod raster;
pub mod rewrite;
pub mod transform;

use vstd::prelude::*;

use crate::config::Config;
use crate::report::Report;

verus! {

/// The image stage.
pub struct RecompressImages;

impl RecompressImages {
    pub fn name(&self) -> (r: &'static str)
        ensures
            r@ == "images"@,
    {
        "images"
    }

    /// Whether any class of images has a codec.
    pub fn enabled(&self, config: &Config) -> (r: bool)
        ensures
            r == !(config.bitonal.0 == 0 && config.continuous.0 == 0 && config.indexed.0 == 0),
    {
        !(config.bitonal.is_empty() && config.continuous.is_empty() && config.indexed.is_empty())
    }

    /// Leaves every image as it is and says so.
    pub fn run(&self, report: &mut Report)
        ensures
            final(report).said() == old(report).said().push("image recompression not implemented"@),
            final(report).stages == old(report).stages,
            final(report).input_bytes == old(report).input_bytes,
            final(report).output_bytes == old(report).output_bytes,
            final(report).images == old(report).images,
            final(report).fonts == old(report).fonts,
    {
        report.note("image recompression not implemented");
    }
}

} // verus!
