//! What errors say to a person.

use vstd::prelude::*;

use crate::bytes::{be32_bytes, push_be32};
use crate::heif::{Error, FourCc, Malformed, Unsupported};
use crate::iso21496::{Field, ParseError};
use crate::text::{around, decode_lossy, join_text, put_around, text_of};

verus! {

impl FourCc {
    /// The four characters of a code.
    pub open spec fn characters(self) -> Seq<char> {
        text_of(be32_bytes(self.code))
    }

    /// The four characters of a code.
    pub fn text(&self) -> (s: String)
        ensures
            s@ == self.characters(),
    {
        let mut v: Vec<u8> = Vec::new();
        push_be32(&mut v, self.code);
        assert(v@ =~= be32_bytes(self.code));
        decode_lossy(v.as_slice())
    }
}

impl Malformed {
    pub open spec fn says(self) -> Seq<char> {
        match self {
            Malformed::NoLocation(id) => around("no iloc entry for item "@, id as nat, ""@),
            Malformed::NoExtents(id) => around("item "@, id as nat, " has no iloc extents"@),
            Malformed::OffsetOverflow => "iloc offset overflow"@,
            Malformed::IdatOffsetOverflow => "idat offset overflow"@,
            Malformed::PastIdatEnd(id) => around(
                "item "@,
                id as nat,
                " idat offset past idat end"@,
            ),
            Malformed::LengthOverflow => "iloc length overflow"@,
            Malformed::EndOverflow => "iloc offset+length overflow"@,
            Malformed::BaseOffsetOverflow => "iloc base offset overflow"@,
            Malformed::NoSuchItem(id) => around("no such item "@, id as nat, ""@),
        }
    }

    pub fn message(&self) -> (s: String)
        ensures
            s@ == self.says(),
    {
        match *self {
            Malformed::NoLocation(id) => put_around("no iloc entry for item ", id as u128, ""),
            Malformed::NoExtents(id) => put_around("item ", id as u128, " has no iloc extents"),
            Malformed::OffsetOverflow => "iloc offset overflow".to_owned(),
            Malformed::IdatOffsetOverflow => "idat offset overflow".to_owned(),
            Malformed::PastIdatEnd(id) => put_around(
                "item ",
                id as u128,
                " idat offset past idat end",
            ),
            Malformed::LengthOverflow => "iloc length overflow".to_owned(),
            Malformed::EndOverflow => "iloc offset+length overflow".to_owned(),
            Malformed::BaseOffsetOverflow => "iloc base offset overflow".to_owned(),
            Malformed::NoSuchItem(id) => put_around("no such item ", id as u128, ""),
        }
    }
}

impl Unsupported {
    pub open spec fn says(self) -> Seq<char> {
        match self {
            Unsupported::InfeVersion(v) => around("infe version "@, v as nat, ""@),
            Unsupported::ConstructionMethod(m) => around(
                "iloc construction_method "@,
                m as nat,
                ""@,
            ),
            Unsupported::ScatteredExtents =>
                "non-contiguous iloc extents (would require an owned copy)"@,
            Unsupported::Grid => "grid item: tile reassembly is a re-encode, not a remux"@,
            Unsupported::TooLarge => "a file too large for 32-bit sizes"@,
            Unsupported::NoHeadroom => "an Apple flavor without the text of its headroom"@,
        }
    }

    pub fn message(&self) -> (s: String)
        ensures
            s@ == self.says(),
    {
        match *self {
            Unsupported::InfeVersion(v) => put_around("infe version ", v as u128, ""),
            Unsupported::ConstructionMethod(m) => put_around(
                "iloc construction_method ",
                m as u128,
                "",
            ),
            Unsupported::ScatteredExtents =>
                "non-contiguous iloc extents (would require an owned copy)".to_owned(),
            Unsupported::Grid =>
                "grid item: tile reassembly is a re-encode, not a remux".to_owned(),
            Unsupported::TooLarge => "a file too large for 32-bit sizes".to_owned(),
            Unsupported::NoHeadroom => {
                "an Apple flavor without the text of its headroom".to_owned()
            },
        }
    }
}

impl Field {
    pub open spec fn label(self) -> Seq<char> {
        match self {
            Field::BaseHdrHeadroom => "base_hdr_headroom"@,
            Field::AlternateHdrHeadroom => "alternate_hdr_headroom"@,
            Field::GainMapMin => "gain_map_min"@,
            Field::GainMapMax => "gain_map_max"@,
            Field::Gamma => "gamma"@,
            Field::BaseOffset => "base_offset"@,
            Field::AlternateOffset => "alternate_offset"@,
        }
    }

    /// The field's name in ISO 21496-1.
    pub fn name(&self) -> (s: &'static str)
        ensures
            s@ == self.label(),
    {
        match *self {
            Field::BaseHdrHeadroom => "base_hdr_headroom",
            Field::AlternateHdrHeadroom => "alternate_hdr_headroom",
            Field::GainMapMin => "gain_map_min",
            Field::GainMapMax => "gain_map_max",
            Field::Gamma => "gamma",
            Field::BaseOffset => "base_offset",
            Field::AlternateOffset => "alternate_offset",
        }
    }
}

impl ParseError {
    pub open spec fn says(self) -> Seq<char> {
        match self {
            ParseError::Truncated => "truncated ISO 21496-1 gain map metadata"@,
            ParseError::UnsupportedVersion(v) => around(
                "unsupported minimum_version "@,
                v as nat,
                ""@,
            ),
            ParseError::ZeroDenominator => "zero denominator in gain map fraction"@,
            ParseError::OutOfRange { field, value } => field.label() + " out of range"@,
        }
    }

    /// What went wrong. The value that is out of range is left for the caller to show.
    pub fn message(&self) -> (s: String)
        ensures
            s@ == self.says(),
    {
        match *self {
            ParseError::Truncated => "truncated ISO 21496-1 gain map metadata".to_owned(),
            ParseError::UnsupportedVersion(v) => put_around(
                "unsupported minimum_version ",
                v as u128,
                "",
            ),
            ParseError::ZeroDenominator => "zero denominator in gain map fraction".to_owned(),
            ParseError::OutOfRange { field, .. } => join_text(field.name(), " out of range"),
        }
    }
}

impl Error {
    pub open spec fn says(self) -> Seq<char> {
        match self {
            Error::Truncated { at, need } => around(
                around("truncated at byte "@, at as nat, ", needed "@),
                need as nat,
                " more"@,
            ),
            Error::MissingBox(b) => "missing required box: "@ + b.characters(),
            Error::Malformed(m) => "malformed: "@ + m.says(),
            Error::Unsupported(m) => "unsupported: "@ + m.says(),
            Error::Metadata(e) => "gain-map metadata: "@ + e.says(),
        }
    }

    /// What went wrong.
    pub fn message(&self) -> (s: String)
        ensures
            s@ == self.says(),
    {
        match *self {
            Error::Truncated { at, need } => {
                let head = put_around("truncated at byte ", at as u128, ", needed ");
                put_around(head.as_str(), need as u128, " more")
            },
            Error::MissingBox(b) => {
                let t = b.text();
                join_text("missing required box: ", t.as_str())
            },
            Error::Malformed(m) => {
                let t = m.message();
                join_text("malformed: ", t.as_str())
            },
            Error::Unsupported(m) => {
                let t = m.message();
                join_text("unsupported: ", t.as_str())
            },
            Error::Metadata(e) => {
                let t = e.message();
                join_text("gain-map metadata: ", t.as_str())
            },
        }
    }
}

} // verus!
