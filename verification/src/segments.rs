//! Cutting a package into its four sections: lead, signature header, header
//! and payload.

use vstd::prelude::*;

verus! {

/// Where each section of a package begins, counted in bytes from the start
/// of the package. The payload runs to the end of the package.
#[derive(Clone, Copy, Debug, PartialEq, Eq, Structural)]
pub struct PackageSegmentOffsets {
    pub lead: u64,
    pub signature_header: u64,
    pub header: u64,
    pub payload: u64,
}

/// Why a package cannot be cut at the offsets given.
#[derive(Clone, Copy, Debug, PartialEq, Eq, Structural)]
pub enum FormatError {
    /// The offsets do not rise from the lead to the payload.
    UnorderedOffsets,
    /// The offsets rise, but the payload begins past the end of the package.
    OffsetPastEnd,
}

/// The four sections of a package, each a part of the package's bytes.
#[derive(Clone, Copy, Debug)]
pub struct PackageSegments<'a> {
    pub lead: &'a [u8],
    pub sig_header: &'a [u8],
    pub header: &'a [u8],
    pub payload: &'a [u8],
}

impl FormatError {
    /// What `message` says of each error.
    pub open spec fn message_text(self) -> Seq<char> {
        match self {
            FormatError::UnorderedOffsets => "the section offsets of the package are out of order"@,
            FormatError::OffsetPastEnd => "a section of the package begins past its end"@,
        }
    }

    /// A description of the error for the user.
    pub fn message(&self) -> (text: &'static str)
        ensures
            text@ == self.message_text(),
    {
        match self {
            FormatError::UnorderedOffsets => "the section offsets of the package are out of order",
            FormatError::OffsetPastEnd => "a section of the package begins past its end",
        }
    }
}

impl PackageSegmentOffsets {
    /// No section begins before the one that precedes it.
    pub open spec fn ordered(self) -> bool {
        self.lead <= self.signature_header <= self.header <= self.payload
    }

    /// The offsets are ordered and lie within a package of `len` bytes.
    pub open spec fn fits(self, len: nat) -> bool {
        self.ordered() && self.payload <= len
    }

    /// What `check` answers for a package of `len` bytes.
    pub open spec fn verdict(self, len: nat) -> Result<(), FormatError> {
        if !self.ordered() {
            Err(FormatError::UnorderedOffsets)
        } else if self.payload > len {
            Err(FormatError::OffsetPastEnd)
        } else {
            Ok(())
        }
    }

    /// Tests the offsets against a package of `len` bytes.
    pub fn check(&self, len: usize) -> (checked: Result<(), FormatError>)
        ensures
            checked == self.verdict(len as nat),
            checked is Ok <==> self.fits(len as nat),
    {
        if self.lead > self.signature_header || self.signature_header > self.header || self.header
            > self.payload {
            Err(FormatError::UnorderedOffsets)
        } else if self.payload > len as u64 {
            Err(FormatError::OffsetPastEnd)
        } else {
            Ok(())
        }
    }
}

impl<'a> PackageSegments<'a> {
    /// The sections are the parts of `bytes` between the offsets.
    pub open spec fn cut_from(self, bytes: Seq<u8>, offsets: PackageSegmentOffsets) -> bool {
        &&& self.lead@ == bytes.subrange(offsets.lead as int, offsets.signature_header as int)
        &&& self.sig_header@ == bytes.subrange(
            offsets.signature_header as int,
            offsets.header as int,
        )
        &&& self.header@ == bytes.subrange(offsets.header as int, offsets.payload as int)
        &&& self.payload@ == bytes.subrange(offsets.payload as int, bytes.len() as int)
    }

    /// The sections one after the other.
    pub open spec fn joined(self) -> Seq<u8> {
        self.lead@ + self.sig_header@ + self.header@ + self.payload@
    }
}

/// Sections cut at offsets that fit are, joined, the package from its lead
/// on.
pub proof fn lemma_joined_from_lead(
    segments: PackageSegments<'_>,
    bytes: Seq<u8>,
    offsets: PackageSegmentOffsets,
)
    requires
        offsets.fits(bytes.len()),
        segments.cut_from(bytes, offsets),
    ensures
        segments.joined() == bytes.skip(offsets.lead as int),
{
    assert(segments.joined() =~= bytes.skip(offsets.lead as int));
}

/// Sections cut at offsets that fit and begin at the start of the package
/// are, joined, the package.
pub proof fn lemma_round_trip(
    segments: PackageSegments<'_>,
    bytes: Seq<u8>,
    offsets: PackageSegmentOffsets,
)
    requires
        offsets.fits(bytes.len()),
        offsets.lead == 0,
        segments.cut_from(bytes, offsets),
    ensures
        segments.joined() == bytes,
{
    assert(segments.joined() =~= bytes);
}

/// Cuts a package into its four sections, after testing the offsets.
pub fn split_segments<'a>(bytes: &'a [u8], offsets: &PackageSegmentOffsets) -> (cut: Result<
    PackageSegments<'a>,
    FormatError,
>)
    ensures
        cut is Ok <==> offsets.fits(bytes@.len()),
        cut matches Ok(segments) ==> segments.cut_from(bytes@, *offsets),
        cut matches Ok(segments) ==> segments.joined() == bytes@.skip(offsets.lead as int),
        cut matches Err(error) ==> offsets.verdict(bytes@.len()) == Err::<(), FormatError>(error),
{
    match offsets.check(bytes.len()) {
        Err(error) => Err(error),
        Ok(()) => {
            let lead: usize = offsets.lead as usize;
            let signature_header: usize = offsets.signature_header as usize;
            let header: usize = offsets.header as usize;
            let payload: usize = offsets.payload as usize;
            let segments = PackageSegments {
                lead: &bytes[lead..signature_header],
                sig_header: &bytes[signature_header..header],
                header: &bytes[header..payload],
                payload: &bytes[payload..bytes.len()],
            };
            proof {
                lemma_joined_from_lead(segments, bytes@, *offsets);
            }
            Ok(segments)
        },
    }
}

} // verus!
