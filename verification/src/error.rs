//! The error type shared by every decoding function.

use crate::section3::Descriptor;
use vstd::prelude::*;

verus! {

/// What went wrong while decoding a message.
#[derive(Clone, Copy, Debug, PartialEq, Eq)]
pub enum ErrorKind {
    /// Section 0 does not begin with `BUFR`, or Section 5 is not `7777`.
    MagicMismatch,
    /// The edition, or the master table version, is outside the supported range.
    UnsupportedVersion,
    /// Compressed data, several subsets, an operator descriptor, a master table
    /// other than 0 and 10, or a field width that the decoder does not handle.
    UnsupportedFeature,
    /// A reserved octet or bit is set, a required field holds the missing
    /// value, or the input ends in the middle of a section.
    InvalidLayout,
    /// A descriptor that is absent from Table B or Table D.
    UnknownDescriptor,
    /// An element descriptor of class 0 or 9.
    TableBClass,
    /// A read of more bits than the data section still holds.
    BitBufferOverrun,
    /// The input ended before a `BUFR` header was found.
    EndOfStream,
}

/// An error, with the section and the descriptor at which it arose where
/// they are known.
#[derive(Clone, Copy, Debug, PartialEq, Eq)]
pub struct BufrError {
    pub kind: ErrorKind,
    pub section: Option<u8>,
    pub descriptor: Option<Descriptor>,
}

impl BufrError {
    /// An error of the given kind with no context yet.
    pub open spec fn bare(kind: ErrorKind) -> BufrError {
        BufrError { kind, section: None, descriptor: None }
    }

    /// The same error, placed in `section` unless an inner function has
    /// already placed it.
    pub open spec fn spec_in_section(self, section: u8) -> BufrError {
        match self.section {
            Some(_) => self,
            None => BufrError { section: Some(section), ..self },
        }
    }

    /// The same error, attached to `descriptor` unless an inner function has
    /// already attached one.
    pub open spec fn spec_at(self, descriptor: Descriptor) -> BufrError {
        match self.descriptor {
            Some(_) => self,
            None => BufrError { descriptor: Some(descriptor), ..self },
        }
    }

    pub fn new(kind: ErrorKind) -> (e: BufrError)
        ensures
            e == BufrError::bare(kind),
    {
        BufrError { kind, section: None, descriptor: None }
    }

    #[verifier::when_used_as_spec(spec_in_section)]
    pub fn in_section(self, section: u8) -> (e: BufrError)
        ensures
            e == self.spec_in_section(section),
    {
        match self.section {
            Some(_) => self,
            None => BufrError {
                kind: self.kind,
                section: Some(section),
                descriptor: self.descriptor,
            },
        }
    }

    #[verifier::when_used_as_spec(spec_at)]
    pub fn at(self, descriptor: Descriptor) -> (e: BufrError)
        ensures
            e == self.spec_at(descriptor),
    {
        match self.descriptor {
            Some(_) => self,
            None => BufrError {
                kind: self.kind,
                section: self.section,
                descriptor: Some(descriptor),
            },
        }
    }

    /// A short description of the error.
    pub fn message(&self) -> (s: &'static str)
        ensures
            s@ == describe(self.kind),
    {
        match self.kind {
            ErrorKind::MagicMismatch => "magic value mismatch",
            ErrorKind::UnsupportedVersion => "unsupported version",
            ErrorKind::UnsupportedFeature => "unsupported feature",
            ErrorKind::InvalidLayout => "invalid layout",
            ErrorKind::UnknownDescriptor => "unknown descriptor",
            ErrorKind::TableBClass => "invalid Table B class",
            ErrorKind::BitBufferOverrun => "read past the end of the data section",
            ErrorKind::EndOfStream => "not a BUFR file",
        }
    }
}

/// The text that `BufrError::message` gives for each kind.
pub open spec fn describe(kind: ErrorKind) -> Seq<char> {
    match kind {
        ErrorKind::MagicMismatch => "magic value mismatch"@,
        ErrorKind::UnsupportedVersion => "unsupported version"@,
        ErrorKind::UnsupportedFeature => "unsupported feature"@,
        ErrorKind::InvalidLayout => "invalid layout"@,
        ErrorKind::UnknownDescriptor => "unknown descriptor"@,
        ErrorKind::TableBClass => "invalid Table B class"@,
        ErrorKind::BitBufferOverrun => "read past the end of the data section"@,
        ErrorKind::EndOfStream => "not a BUFR file"@,
    }
}

} // verus!
