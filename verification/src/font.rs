//! Font programs: their formats, and which of their glyphs a document uses.
pub mod cipher;
pub mod cmap;
pub mod codes;
pub mod convert;
pub mod glyphs;
pub mod outline;
pub mod programs;
pub mod sfnt;
pub mod std14;
pub mod subset;
pub mod decimal;
pub mod encodings;
pub mod cff;
pub mod charstring;
pub mod type1;

use vstd::prelude::*;

use crate::config::Config;
use crate::report::Report;

verus! {

/// The font stage.
pub struct OptimizeFonts;

impl OptimizeFonts {
    pub fn name(&self) -> (r: &'static str)
        ensures
            r@ == "fonts"@,
    {
        "fonts"
    }

    pub fn enabled(&self, config: &Config) -> (r: bool)
        ensures
            r == (config.subset_fonts || config.merge_fonts || config.remove_standard_fonts),
    {
        config.subset_fonts || config.merge_fonts || config.remove_standard_fonts
    }

    /// Leaves every font as it is and says so.
    pub fn run(&self, report: &mut Report)
        ensures
            final(report).said() == old(report).said().push("font optimization not implemented"@),
            final(report).stages == old(report).stages,
            final(report).input_bytes == old(report).input_bytes,
            final(report).output_bytes == old(report).output_bytes,
            final(report).images == old(report).images,
            final(report).fonts == old(report).fonts,
    {
        report.note("font optimization not implemented");
    }
}

} // verus!
