//! Preset barcode header formats and their regular expressions.

use vstd::prelude::*;
use vstd::string::*;

verus! {

/// The built-in barcode header formats.
#[derive(PartialEq, Eq, Structural, Clone, Copy, Debug)]
pub enum PresetBarcodeFormats {
    /// `BARCODE_UMI` at the start of the header.
    BcUmi,
    /// `_UMI` at the end of the header.
    UmiTools,
    /// `:UMI` at the end of the header.
    Illumina,
}

/// The regular expression text that extracts the barcode parts for a preset.
pub fn get_barcode_regex(preset: &PresetBarcodeFormats) -> (r: String)
    ensures
        preset is BcUmi ==> r@ == ("^([ATCG]{16})_([ATCG]{12})")@,
        preset is UmiTools ==> r@ == ("_([ATCG]+)$")@,
        preset is Illumina ==> r@ == (":([ATCG]+)$")@,
{
    match preset {
        PresetBarcodeFormats::BcUmi => String::from_str("^([ATCG]{16})_([ATCG]{12})"),
        PresetBarcodeFormats::UmiTools => String::from_str("_([ATCG]+)$"),
        PresetBarcodeFormats::Illumina => String::from_str(":([ATCG]+)$"),
    }
}

} // verus!
