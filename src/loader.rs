use vstd::prelude::*;

use crate::pack::all_wf;
use crate::raster::Raster;

verus! {

/// The ASCII bytes of `.png`.
pub const DOT: u8 = 0x2e;
pub const LOWER_P: u8 = 0x70;
pub const LOWER_N: u8 = 0x6e;
pub const LOWER_G: u8 = 0x67;

/// The file name has the extension `png`: it ends in `.png` after a
/// non-empty stem.
pub open spec fn is_png_name(name: Seq<u8>) -> bool {
    name.len() > 4 && name.subrange(name.len() - 4, name.len() as int) == seq![DOT, LOWER_P, LOWER_N, LOWER_G]
}

/// Whether a directory entry, given by its file name, is a candidate
/// image.
pub fn has_png_extension(file_name: &[u8]) -> (r: bool)
    ensures
        r == is_png_name(file_name@),
{
    let n = file_name.len();
    if n <= 4 {
        return false;
    }
    let r = file_name[n - 4] == DOT && file_name[n - 3] == LOWER_P && file_name[n - 2]
        == LOWER_N && file_name[n - 1] == LOWER_G;
    assert(r == (file_name@.subrange(n - 4, n as int) =~= seq![DOT, LOWER_P, LOWER_N, LOWER_G]));
    r
}

/// What decoding one file gave.
#[derive(Debug)]
pub enum Decoded {
    /// An image of four 8-bit channels.
    Rgba8(Raster),
    /// An image in another pixel format, named by `color`.
    OtherFormat { color: String },
    /// The file could not be decoded.
    Undecodable { message: String },
}

/// Why a file was left out of the collection.
#[derive(Debug, PartialEq, Eq)]
pub enum SkipReason {
    UnsupportedPixelFormat { color: String },
    UndecodableImage { message: String },
}

/// A file left out of the collection, with the reason.
#[derive(Debug, PartialEq, Eq)]
pub struct Skipped {
    pub path: String,
    pub reason: SkipReason,
}

/// The rasters loaded so far, in the order of their files, and the files
/// that were left out.
#[derive(Debug)]
pub struct LoadReport {
    pub rasters: Vec<Raster>,
    pub skipped: Vec<Skipped>,
}

impl LoadReport {
    pub open spec fn wf(&self) -> bool {
        all_wf(self.rasters@)
    }

    pub fn new() -> (r: LoadReport)
        ensures
            r.rasters@.len() == 0,
            r.skipped@.len() == 0,
            r.wf(),
    {
        LoadReport { rasters: Vec::new(), skipped: Vec::new() }
    }

    /// Takes in the outcome of decoding the file at `path`: an RGBA raster
    /// joins the collection, anything else is recorded as skipped.
    pub fn record(&mut self, path: String, outcome: Decoded)
        requires
            old(self).wf(),
            outcome matches Decoded::Rgba8(r) ==> r.wf(),
        ensures
            final(self).wf(),
            match outcome {
                Decoded::Rgba8(r) => {
                    &&& final(self).rasters@ == old(self).rasters@.push(r)
                    &&& final(self).skipped@ == old(self).skipped@
                },
                Decoded::OtherFormat { color } => {
                    &&& final(self).rasters@ == old(self).rasters@
                    &&& final(self).skipped@ == old(self).skipped@.push(
                        Skipped { path, reason: SkipReason::UnsupportedPixelFormat { color } },
                    )
                },
                Decoded::Undecodable { message } => {
                    &&& final(self).rasters@ == old(self).rasters@
                    &&& final(self).skipped@ == old(self).skipped@.push(
                        Skipped { path, reason: SkipReason::UndecodableImage { message } },
                    )
                },
            },
    {
        match outcome {
            Decoded::Rgba8(r) => {
                self.rasters.push(r);
            },
            Decoded::OtherFormat { color } => {
                self.skipped.push(
                    Skipped { path, reason: SkipReason::UnsupportedPixelFormat { color } },
                );
            },
            Decoded::Undecodable { message } => {
                self.skipped.push(Skipped { path, reason: SkipReason::UndecodableImage { message } });
            },
        }
    }
}

} // verus!
