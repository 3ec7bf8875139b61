use vstd::prelude::*;

verus! {

/// `core::str::Utf8Error` is carried inside `Error` variants; Verus treats
/// it as an opaque value.
#[verifier::external_type_specification]
#[verifier::external_body]
pub struct ExUtf8Error(core::str::Utf8Error);

/// `core::num::ParseIntError` is carried inside `Error` variants; Verus
/// treats it as an opaque value.
#[verifier::external_type_specification]
#[verifier::external_body]
pub struct ExParseIntError(core::num::ParseIntError);

/// `std::io::Error` is carried inside `Error::Io`; Verus treats it as an
/// opaque value.  The crate itself never performs I/O; the variant exists so
/// that unverified file-handling wrappers around this crate can surface
/// their I/O failures through the same error type.
#[verifier::external_type_specification]
#[verifier::external_body]
pub struct ExIoError(std::io::Error);

/// Describes all errors that may occur.
#[derive(Debug)]
pub enum Error {
    /// Invalid APE version. It works with APEv2 tags only.
    InvalidApeVersion,
    /// Item keys can have a length of 2 (including) up to 255 (including) characters.
    InvalidItemKeyLen,
    /// Item key contains non-ascii characters.
    InvalidItemKeyValue,
    /// Unexpected item type given while parsing a tag.
    InvalidItemType(u32),
    /// APE header contains invalid tag size.
    InvalidTagSize,
    /// An IO error occured.
    Io(std::io::Error),
    /// Not allowed are the following keys: ID3, TAG, OggS and MP+.
    ItemKeyDenied,
    /// Failed to parse an item key.
    ParseItemKey(core::str::Utf8Error),
    /// Can not convert a value of an item with binary type to an UTF-8 string.
    ParseItemBinary,
    /// Failed to parse an item value.
    ParseItemValue(core::str::Utf8Error),
    /// Failed to parse Lyrics3V2 size.
    ParseLyrics3V2SizeStr(core::str::Utf8Error),
    /// Failed to parse Lyrics3V2 size.
    ParseLyrics3V2SizeInt(core::num::ParseIntError),
    /// There is no APE tag in a file.
    TagNotFound,
}

/// The description `Error::to_string` returns.  Errors that wrap a value
/// of another error type get a short fixed description.
pub open spec fn error_message(e: Error) -> Seq<char> {
    match e {
        Error::InvalidApeVersion => "invalid APE version"@,
        Error::InvalidItemKeyLen => "item keys can have a length of 2 up to 255 characters"@,
        Error::InvalidItemKeyValue => "item key contains non-ascii characters"@,
        Error::InvalidItemType(v) => "invalid item type: "@ + crate::text::dec_chars(v as nat),
        Error::InvalidTagSize => "APE header contains invalid tag size"@,
        Error::Io(_) => "IO error"@,
        Error::ItemKeyDenied => "not allowed are the following keys: ID3, TAG, OggS and MP+"@,
        Error::ParseItemKey(_) => "parse item key: invalid UTF-8"@,
        Error::ParseItemBinary => "can not convert a binary value to an UTF-8 string"@,
        Error::ParseItemValue(_) => "parse item value: invalid UTF-8"@,
        Error::ParseLyrics3V2SizeStr(_) => "parse Lyrics3V2 size: invalid UTF-8"@,
        Error::ParseLyrics3V2SizeInt(_) => "parse Lyrics3V2 size: invalid number"@,
        Error::TagNotFound => "APE tag does not exist"@,
    }
}

impl Error {
    /// A short description of the error.
    pub fn to_string(&self) -> (r: String)
        ensures
            r@ == error_message(*self),
    {
        match self {
            Error::InvalidApeVersion => copy_str("invalid APE version"),
            Error::InvalidItemKeyLen => copy_str(
                "item keys can have a length of 2 up to 255 characters",
            ),
            Error::InvalidItemKeyValue => copy_str("item key contains non-ascii characters"),
            Error::InvalidItemType(v) => {
                let mut s = copy_str("invalid item type: ");
                let num = crate::text::u32_to_dec_string(*v);
                vstd::string::StringExecFns::append(&mut s, num.as_str());
                s
            },
            Error::InvalidTagSize => copy_str("APE header contains invalid tag size"),
            Error::Io(_) => copy_str("IO error"),
            Error::ItemKeyDenied => copy_str(
                "not allowed are the following keys: ID3, TAG, OggS and MP+",
            ),
            Error::ParseItemKey(_) => copy_str("parse item key: invalid UTF-8"),
            Error::ParseItemBinary => copy_str(
                "can not convert a binary value to an UTF-8 string",
            ),
            Error::ParseItemValue(_) => copy_str("parse item value: invalid UTF-8"),
            Error::ParseLyrics3V2SizeStr(_) => copy_str("parse Lyrics3V2 size: invalid UTF-8"),
            Error::ParseLyrics3V2SizeInt(_) => copy_str("parse Lyrics3V2 size: invalid number"),
            Error::TagNotFound => copy_str("APE tag does not exist"),
        }
    }
}

impl From<std::io::Error> for Error {
    /// Wraps an I/O failure.
    fn from(error: std::io::Error) -> Self {
        Self::Io(error)
    }
}

impl vstd::std_specs::convert::FromSpecImpl<std::io::Error> for Error {
    open spec fn obeys_from_spec() -> bool {
        true
    }

    open spec fn from_spec(error: std::io::Error) -> Self {
        Self::Io(error)
    }
}

/// Copies a string slice into an owned string.
fn copy_str(s: &str) -> (r: String)
    ensures
        r@ == s@,
{
    <String as vstd::string::StringExecFns>::from_str(s)
}

} // verus!
