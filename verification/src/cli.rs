//! What the command line's choices mean. Everything here is turned into a
//! [`Config`] before any PDF work happens, so the pipeline never sees flags.
use vstd::prelude::*;
use vstd::string::StringExecFns;

use crate::compress::Verify;
use crate::config;
use crate::config::{ColorConversion, Config, Overrides, Preset};

verus! {

/// How thoroughly the output is checked.
#[derive(Debug, Clone, Copy, PartialEq, Eq, Structural)]
pub enum VerifyArg {
    /// Re-parse the output with an independent reader (always on).
    Structure,
    /// Structural, plus rendering and SSIM comparison of every page.
    Render,
}

/// What happens to color images.
#[derive(Debug, Clone, Copy, PartialEq, Eq, Structural)]
pub enum ColorArg {
    /// Leave color spaces alone.
    Keep,
    /// Convert color images to RGB through ICC profiles.
    Rgb,
}

/// The preset to start from.
#[derive(Debug, Clone, Copy, PartialEq, Eq, Structural)]
pub enum PresetArg {
    /// Mild: keep resolution up to 400 dpi, JPEG q75, no stripping.
    Less,
    /// Balanced: 150 dpi, JPEG q60, strip non-visual data. The default.
    Standard,
    /// Aggressive: 72 dpi, JPEG q60, force RGB, strip structure tree too.
    More,
}

impl ColorArg {
    /// The conversion that the choice stands for.
    pub open spec fn meaning(self) -> ColorConversion {
        match self {
            ColorArg::Keep => ColorConversion::Keep,
            ColorArg::Rgb => ColorConversion::Rgb,
        }
    }
}

impl PresetArg {
    /// The preset that the choice stands for.
    pub open spec fn meaning(self) -> Preset {
        match self {
            PresetArg::Less => Preset::Less,
            PresetArg::Standard => Preset::Standard,
            PresetArg::More => Preset::More,
        }
    }
}

impl From<ColorArg> for ColorConversion {
    fn from(c: ColorArg) -> (r: ColorConversion) {
        match c {
            ColorArg::Keep => ColorConversion::Keep,
            ColorArg::Rgb => ColorConversion::Rgb,
        }
    }
}

impl vstd::std_specs::convert::FromSpecImpl<ColorArg> for ColorConversion {
    open spec fn obeys_from_spec() -> bool {
        true
    }

    open spec fn from_spec(c: ColorArg) -> ColorConversion {
        c.meaning()
    }
}

impl From<PresetArg> for Preset {
    fn from(p: PresetArg) -> (r: Preset) {
        match p {
            PresetArg::Less => Preset::Less,
            PresetArg::Standard => Preset::Standard,
            PresetArg::More => Preset::More,
        }
    }
}

impl vstd::std_specs::convert::FromSpecImpl<PresetArg> for Preset {
    open spec fn obeys_from_spec() -> bool {
        true
    }

    open spec fn from_spec(p: PresetArg) -> Preset {
        p.meaning()
    }
}

impl VerifyArg {
    /// The check that the choice stands for.
    pub fn level(self, preset: PresetArg, strict: bool) -> (r: Verify)
        ensures
            r == (match self {
                VerifyArg::Structure => Verify::Structure,
                VerifyArg::Render => Verify::Render { preset: preset.meaning(), strict },
            }),
    {
        match self {
            VerifyArg::Structure => Verify::Structure,
            VerifyArg::Render => Verify::Render { preset: Preset::from(preset), strict },
        }
    }
}

/// Preset plus overrides.
pub fn config(preset: PresetArg, flags: &Overrides) -> (r: Config)
    ensures
        exists|base: Config| r == #[trigger] flags.on(base) && base.is_preset(preset.meaning()),
{
    flags.apply(Config::preset(Preset::from(preset)))
}

// ------------------------------------------------------------- paths

/// Where an output goes.
#[derive(Debug, PartialEq, Eq)]
pub enum OutputPlace {
    /// Under this name in the directory that was named.
    Inside(String),
    /// The file that was named.
    Named,
    /// Under this name next to the input.
    Beside(String),
}

/// The name of an output that was not named.
pub open spec fn default_name(stem: Option<Seq<char>>) -> Seq<char> {
    match stem {
        Some(s) => s + "-compressed.pdf"@,
        None => "output"@ + "-compressed.pdf"@,
    }
}

fn make_name(stem: &Option<String>) -> (r: String)
    ensures
        r@ == default_name(match *stem {
            Some(s) => Some(s@),
            None => None,
        }),
{
    let mut name = match stem {
        Some(s) => s.clone(),
        None => "output".to_owned(),
    };
    name.append("-compressed.pdf");
    name
}

/// Where an input's output goes: the named file, or inside the named
/// directory, or next to the input with `-compressed` added. `stem` is the
/// input's file name without its extension, `named` whether an output was
/// named, `is_dir` whether that is a directory, and `inputs` how many inputs
/// there are.
pub fn output_place(stem: &Option<String>, named: bool, is_dir: bool, inputs: usize) -> (r:
    OutputPlace)
    ensures
        ({
            let name = default_name(match *stem {
                Some(s) => Some(s@),
                None => None,
            });
            match r {
                OutputPlace::Inside(n) => named && (is_dir || inputs > 1) && n@ == name,
                OutputPlace::Named => named && !is_dir && inputs <= 1,
                OutputPlace::Beside(n) => !named && n@ == name,
            }
        }),
{
    if named {
        if is_dir || inputs > 1 {
            OutputPlace::Inside(make_name(stem))
        } else {
            OutputPlace::Named
        }
    } else {
        OutputPlace::Beside(make_name(stem))
    }
}

// ------------------------------------------------------------- logging

/// The levels at which to log: this program's, and the PDF parser's. The
/// parser logs one warning per item it cannot handle, which on some files
/// means hundreds of thousands of lines; what matters reaches the report as a
/// note, so its warnings are shown one verbosity level later.
pub fn log_levels(verbosity: u8) -> (r: (&'static str, &'static str))
    ensures
        (r.0@, r.1@) == (match verbosity {
            0 => ("warn"@, "error"@),
            1 => ("info"@, "warn"@),
            2 => ("debug"@, "info"@),
            _ => ("trace"@, "trace"@),
        }),
{
    match verbosity {
        0 => ("warn", "error"),
        1 => ("info", "warn"),
        2 => ("debug", "info"),
        _ => ("trace", "trace"),
    }
}

} // verus!
