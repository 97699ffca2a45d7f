//! The raw-read reader's configuration and identifier types.

use vstd::prelude::*;
use crate::sequence::DnaSeq;

verus! {

/// Lengths of the barcode and UMI prefixes of a read header.
#[derive(PartialEq, Eq, Structural, Clone, Copy, Debug)]
pub struct Options {
    pub bc: usize,
    pub umi: usize,
}

/// A packed barcode/UMI identifier.
#[derive(Debug)]
pub struct Identifier {
    pub bc: DnaSeq,
    pub umi: DnaSeq,
}

/// The non-identifier payload of one raw read: its free-text metadata, its
/// packed bases and its quality bytes.
#[derive(Debug)]
pub struct RecordData {
    pub metadata: Vec<u8>,
    pub seq: DnaSeq,
    pub qual: Vec<u8>,
}

/// A reader of raw reads from a named file; holds the file name and the
/// header layout, while the surrounding application performs the reading.
pub struct FastQReader {
    pub filename: String,
    pub options: Options,
}

impl FastQReader {
    /// A reader over the named file with the default header layout: a
    /// 16-base barcode and a 12-base UMI.
    pub fn new(filename: String) -> (r: FastQReader)
        ensures
            r.filename@ == filename@,
            r.options.bc == 16,
            r.options.umi == 12,
    {
        FastQReader { filename, options: Options { bc: 16, umi: 12 } }
    }
}

} // verus!
