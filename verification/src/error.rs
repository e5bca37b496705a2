//! The failures the library reports, and their wording.

use vstd::prelude::*;
use vstd::string::StringExecFns;

use crate::text::{decimal_text, push_decimal, string_of};

verus! {

/// Everything that can go wrong while decoding attributes, parsing text or
/// reducing paths. No variant holds a value of another crate, so errors can
/// be compared and cloned.
#[derive(Debug, Clone, PartialEq, Eq)]
pub enum Error {
    /// An input file could not be used; `io_error` says why.
    Io { io_error: String, path: String },
    /// The address part of a prefix is neither IPv4 nor IPv6 text.
    AddrParse { bad_addr: String },
    /// A prefix was written without the `/` between address and mask.
    NoSlash { bad_prefix: String },
    /// A path line was written without the `|` between prefix and ASNs.
    NoPipe { bad_quagga: String },
    /// A mask or an AS number is not a decimal number of its width.
    ParseInt { bad_num: String },
    /// The attribute block holds nothing that could be looked at.
    MissingPathAttribute { missing_attribute: String },
    /// An AS_PATH segment is neither an AS_SET nor an AS_SEQUENCE.
    UnknownAsValue { unknown_as_value: u8 },
    /// An attribute's type code is outside the known range, and the decoder
    /// was asked to reject such attributes.
    UnknownTypeCode { unknown_type_code: u8 },
    /// A read ran off the end of the bytes it was allowed to look at.
    UnexpectedEndOfBuffer,
    /// More than one attribute carried an AS_SEQUENCE.
    MultipleAsPaths,
    /// No attribute carried a non-empty AS_SEQUENCE.
    NoAsPathInAttributePath,
    /// A length taken from the input does not fit the machine.
    AttributeOverflow,
}

/// What an [`Error`] is in contracts: the same variants, text as sequences
/// of characters.
pub enum ErrorSpec {
    Io { io_error: Seq<char>, path: Seq<char> },
    AddrParse { bad_addr: Seq<char> },
    NoSlash { bad_prefix: Seq<char> },
    NoPipe { bad_quagga: Seq<char> },
    ParseInt { bad_num: Seq<char> },
    MissingPathAttribute { missing_attribute: Seq<char> },
    UnknownAsValue { unknown_as_value: u8 },
    UnknownTypeCode { unknown_type_code: u8 },
    UnexpectedEndOfBuffer,
    MultipleAsPaths,
    NoAsPathInAttributePath,
    AttributeOverflow,
}

impl View for Error {
    type V = ErrorSpec;

    open spec fn view(&self) -> ErrorSpec {
        match *self {
            Error::Io { io_error, path } => ErrorSpec::Io { io_error: io_error@, path: path@ },
            Error::AddrParse { bad_addr } => ErrorSpec::AddrParse { bad_addr: bad_addr@ },
            Error::NoSlash { bad_prefix } => ErrorSpec::NoSlash { bad_prefix: bad_prefix@ },
            Error::NoPipe { bad_quagga } => ErrorSpec::NoPipe { bad_quagga: bad_quagga@ },
            Error::ParseInt { bad_num } => ErrorSpec::ParseInt { bad_num: bad_num@ },
            Error::MissingPathAttribute { missing_attribute } => ErrorSpec::MissingPathAttribute {
                missing_attribute: missing_attribute@,
            },
            Error::UnknownAsValue { unknown_as_value } => ErrorSpec::UnknownAsValue {
                unknown_as_value,
            },
            Error::UnknownTypeCode { unknown_type_code } => ErrorSpec::UnknownTypeCode {
                unknown_type_code,
            },
            Error::UnexpectedEndOfBuffer => ErrorSpec::UnexpectedEndOfBuffer,
            Error::MultipleAsPaths => ErrorSpec::MultipleAsPaths,
            Error::NoAsPathInAttributePath => ErrorSpec::NoAsPathInAttributePath,
            Error::AttributeOverflow => ErrorSpec::AttributeOverflow,
        }
    }
}

impl ErrorSpec {
    /// The sentence that tells a person what went wrong.
    pub open spec fn message(self) -> Seq<char> {
        match self {
            ErrorSpec::Io { io_error, path } => "I/O error at `"@ + path + "`: "@ + io_error,
            ErrorSpec::AddrParse { bad_addr } => "Invalid address, invalid IP address syntax: "@
                + bad_addr,
            ErrorSpec::NoSlash { bad_prefix } => "Invalid IP and mask: "@ + bad_prefix
                + ". Missing `/`, expected format `IP/mask`"@,
            ErrorSpec::NoPipe { bad_quagga } => "Invalid path line: "@ + bad_quagga
                + ". Missing `|`, expected format `IP/mask|asn asn`"@,
            ErrorSpec::ParseInt { bad_num } => "Invalid number: "@ + bad_num,
            ErrorSpec::MissingPathAttribute { missing_attribute } => "Invalid mrt entry. Missing "@
                + missing_attribute + "."@,
            ErrorSpec::UnknownAsValue { unknown_as_value } => "Did not recognize as path value `"@
                + decimal_text(unknown_as_value as nat)
                + "`, expected AS_SET (1) or AS_SEQUENCE (2)."@,
            ErrorSpec::UnknownTypeCode { unknown_type_code } =>
                "Did not recognize attribute type code `"@ + decimal_text(
                    unknown_type_code as nat,
                ) + "`."@,
            ErrorSpec::UnexpectedEndOfBuffer => "Expected another byte but buffer is exhausted."@,
            ErrorSpec::MultipleAsPaths =>
                "Expected one AS_PATH attribute in BGP Attribute Path, found multiple."@,
            ErrorSpec::NoAsPathInAttributePath =>
                "Expected an AS_PATH attribute in BGP Attribute Path."@,
            ErrorSpec::AttributeOverflow =>
                "Overflow encountered during AS parsing. Ignoring invalid attribute."@,
        }
    }
}

fn number_text(n: u8) -> (text: String)
    ensures
        text@ == decimal_text(n as nat),
{
    let mut chars: Vec<char> = Vec::new();
    push_decimal(&mut chars, n as u32);
    assert(chars@ =~= decimal_text(n as nat));
    string_of(chars.as_slice())
}

impl Error {
    /// The sentence that tells a person what went wrong.
    pub fn to_string(&self) -> (text: String)
        ensures
            text@ == self@.message(),
    {
        match self {
            Error::Io { io_error, path } => {
                let mut text = String::from_str("I/O error at `");
                text.append(path.as_str());
                text.append("`: ");
                text.append(io_error.as_str());
                text
            },
            Error::AddrParse { bad_addr } => {
                let mut text = String::from_str("Invalid address, invalid IP address syntax: ");
                text.append(bad_addr.as_str());
                text
            },
            Error::NoSlash { bad_prefix } => {
                let mut text = String::from_str("Invalid IP and mask: ");
                text.append(bad_prefix.as_str());
                text.append(". Missing `/`, expected format `IP/mask`");
                text
            },
            Error::NoPipe { bad_quagga } => {
                let mut text = String::from_str("Invalid path line: ");
                text.append(bad_quagga.as_str());
                text.append(". Missing `|`, expected format `IP/mask|asn asn`");
                text
            },
            Error::ParseInt { bad_num } => {
                let mut text = String::from_str("Invalid number: ");
                text.append(bad_num.as_str());
                text
            },
            Error::MissingPathAttribute { missing_attribute } => {
                let mut text = String::from_str("Invalid mrt entry. Missing ");
                text.append(missing_attribute.as_str());
                text.append(".");
                text
            },
            Error::UnknownAsValue { unknown_as_value } => {
                let mut text = String::from_str("Did not recognize as path value `");
                let number = number_text(*unknown_as_value);
                text.append(number.as_str());
                text.append("`, expected AS_SET (1) or AS_SEQUENCE (2).");
                text
            },
            Error::UnknownTypeCode { unknown_type_code } => {
                let mut text = String::from_str("Did not recognize attribute type code `");
                let number = number_text(*unknown_type_code);
                text.append(number.as_str());
                text.append("`.");
                text
            },
            Error::UnexpectedEndOfBuffer => String::from_str(
                "Expected another byte but buffer is exhausted.",
            ),
            Error::MultipleAsPaths => String::from_str(
                "Expected one AS_PATH attribute in BGP Attribute Path, found multiple.",
            ),
            Error::NoAsPathInAttributePath => String::from_str(
                "Expected an AS_PATH attribute in BGP Attribute Path.",
            ),
            Error::AttributeOverflow => String::from_str(
                "Overflow encountered during AS parsing. Ignoring invalid attribute.",
            ),
        }
    }
}

} // verus!
