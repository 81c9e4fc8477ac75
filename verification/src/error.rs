//! Why a file cannot be packaged.

use vstd::prelude::*;

verus! {

/// A defect of the source file that stops it from being packaged.
#[derive(Clone, Copy, PartialEq, Eq, Structural, Debug)]
pub enum Invalid {
    MoovTooLarge,
    NoMoov,
    NoMvhd,
    NoTrack,
    NoTkhd,
    NoMdia,
    NoMdhd,
    NoHdlr,
    NoStbl,
    NoStsd,
    NoStsc,
    MalformedStsc,
    InconsistentSampleTable,
    NoStts,
    NoStsz,
    TruncatedStz2,
    UnsupportedStz2,
    NoStco,
    TruncatedBox,
    SegmentTooLarge,
}

impl Invalid {
    /// The sentence that describes the defect to a client.
    pub open spec fn text(self) -> &'static str {
        match self {
            Invalid::MoovTooLarge => "moov box is too large to parse",
            Invalid::NoMoov => "no moov box found",
            Invalid::NoMvhd => "no mvhd box found",
            Invalid::NoTrack => "no playable track found",
            Invalid::NoTkhd => "no tkhd box found",
            Invalid::NoMdia => "no mdia box found",
            Invalid::NoMdhd => "no mdhd box found",
            Invalid::NoHdlr => "no hdlr box found",
            Invalid::NoStbl => "no stbl box found",
            Invalid::NoStsd => "no stsd box found",
            Invalid::NoStsc => "no stsc box found",
            Invalid::MalformedStsc => "malformed stsc box",
            Invalid::InconsistentSampleTable => "sample table is inconsistent",
            Invalid::NoStts => "no stts box found",
            Invalid::NoStsz => "no stsz box found",
            Invalid::TruncatedStz2 => "truncated stz2 box",
            Invalid::UnsupportedStz2 => "unsupported stz2 field size",
            Invalid::NoStco => "no stco box found",
            Invalid::TruncatedBox => "truncated box",
            Invalid::SegmentTooLarge => "segment is too large to remux",
        }
    }

    /// Returns the sentence that describes the defect.
    pub fn message(self) -> (r: &'static str)
        ensures
            r@ == self.text()@,
    {
        match self {
            Invalid::MoovTooLarge => "moov box is too large to parse",
            Invalid::NoMoov => "no moov box found",
            Invalid::NoMvhd => "no mvhd box found",
            Invalid::NoTrack => "no playable track found",
            Invalid::NoTkhd => "no tkhd box found",
            Invalid::NoMdia => "no mdia box found",
            Invalid::NoMdhd => "no mdhd box found",
            Invalid::NoHdlr => "no hdlr box found",
            Invalid::NoStbl => "no stbl box found",
            Invalid::NoStsd => "no stsd box found",
            Invalid::NoStsc => "no stsc box found",
            Invalid::MalformedStsc => "malformed stsc box",
            Invalid::InconsistentSampleTable => "sample table is inconsistent",
            Invalid::NoStts => "no stts box found",
            Invalid::NoStsz => "no stsz box found",
            Invalid::TruncatedStz2 => "truncated stz2 box",
            Invalid::UnsupportedStz2 => "unsupported stz2 field size",
            Invalid::NoStco => "no stco box found",
            Invalid::TruncatedBox => "truncated box",
            Invalid::SegmentTooLarge => "segment is too large to remux",
        }
    }
}

} // verus!
