//! The ways in which an operation on a sketch can fail.

use vstd::prelude::*;

verus! {

/// Why a byte sequence is not the encoding of a sketch.
#[derive(Clone, Copy, Debug, PartialEq, Eq, Structural)]
pub enum DecodeFault {
    /// The bytes end before the header does.
    Truncated,
    /// The first byte is not the format version this library writes.
    UnknownVersion,
    /// The precision byte is outside the supported range.
    PrecisionOutOfRange,
    /// The level byte is above the highest level.
    LevelOutOfRange,
    /// The declared number of fingerprints exceeds the capacity.
    SampleTooLarge,
    /// The number of bytes does not match the declared number of fingerprints.
    LengthMismatch,
    /// A fingerprint is not retained at the declared level.
    NotRetained,
    /// The fingerprints do not rise strictly from each to the next.
    NotAscending,
}

/// An operation's failure.
#[derive(Clone, Debug, PartialEq, Eq)]
pub enum SketchError {
    /// The precision given at construction is outside the supported range.
    InvalidPrecision(u8),
    /// The value is of none of the supported shapes; holds its type's name.
    UnsupportedType(String),
    /// The bytes are not the encoding of a sketch.
    Decode(DecodeFault),
    /// The two sketches differ in precision or in hash key.
    Incompatible,
}

/// The description of each fault.
pub open spec fn fault_text(fault: DecodeFault) -> Seq<char> {
    match fault {
        DecodeFault::Truncated => "input ends inside the header"@,
        DecodeFault::UnknownVersion => "unknown format version"@,
        DecodeFault::PrecisionOutOfRange => "precision out of range"@,
        DecodeFault::LevelOutOfRange => "level out of range"@,
        DecodeFault::SampleTooLarge => "more fingerprints than the capacity allows"@,
        DecodeFault::LengthMismatch => "length does not match the declared sample size"@,
        DecodeFault::NotRetained => "fingerprint not retained at the declared level"@,
        DecodeFault::NotAscending => "fingerprints not in rising order"@,
    }
}

impl DecodeFault {
    /// A short description for diagnostics.
    pub fn message(&self) -> (text: &'static str)
        ensures
            text@ == fault_text(*self),
    {
        match self {
            DecodeFault::Truncated => "input ends inside the header",
            DecodeFault::UnknownVersion => "unknown format version",
            DecodeFault::PrecisionOutOfRange => "precision out of range",
            DecodeFault::LevelOutOfRange => "level out of range",
            DecodeFault::SampleTooLarge => "more fingerprints than the capacity allows",
            DecodeFault::LengthMismatch => "length does not match the declared sample size",
            DecodeFault::NotRetained => "fingerprint not retained at the declared level",
            DecodeFault::NotAscending => "fingerprints not in rising order",
        }
    }
}

} // verus!
