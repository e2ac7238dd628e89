//! Failure values. Each family tags a kind and carries a descriptive text.

use vstd::prelude::*;
use vstd::string::*;

verus! {

/// Anything that can describe itself to a user.
pub trait InternalLimeError {
    /// The user-facing message.
    fn string(&self) -> (text: String);
}

/// Failures of the address-space model.
#[derive(Debug)]
pub enum MemAddrError {
    AddressInvalid(String),
    AddressOutOfBounds(String),
    AddressNotReadable(String),
    InvalidPid(String),
    ParseError(String),
    NoPermission(String),
}

/// Failures of a typed read.
#[derive(Debug)]
pub enum RPMError {
    FailedToRead(String),
    ReadOutOfBounds(String),
    BadDataType(String),
}

/// Failures of a typed write.
#[derive(Debug)]
pub enum WPMError {
    FailedToWrite(String),
    WriteOutOfBounds(String),
    BadDataType(String),
}

/// Failures of pattern parsing.
#[derive(Debug)]
pub enum InvalidFormat {
    ContainsInvalidCharacters(String),
    IsNonValidPattern(String),
}

/// Failures of pattern matching.
#[derive(Debug)]
pub enum GeneralErrors {
    PatternNotFound(String),
    PatternIsEmpty(String),
    PatternLargerThanBuffer(String),
}

/// The single error value that the public operations return: one kind of one
/// of the five families.
#[derive(Debug)]
pub enum LimeError {
    MemAddr(MemAddrError),
    Read(RPMError),
    Write(WPMError),
    Format(InvalidFormat),
    General(GeneralErrors),
}

/// `prefix` followed by `detail`.
fn labelled(prefix: &str, detail: &String) -> (text: String)
    ensures
        text@ == prefix@ + detail@,
{
    String::from_str(prefix).concat(detail.as_str())
}

impl WPMError {
    /// The user-facing message: the label of the kind, then the detail.
    pub open spec fn message(&self) -> Seq<char> {
        match self {
            WPMError::BadDataType(e) => "Bad data type: "@ + e@,
            WPMError::WriteOutOfBounds(e) => "Write out of bounds: "@ + e@,
            WPMError::FailedToWrite(e) => "Failed to write: "@ + e@,
        }
    }
}

impl InternalLimeError for WPMError {
    fn string(&self) -> (text: String)
        ensures
            text@ == self.message(),
    {
        match self {
            WPMError::BadDataType(e) => labelled("Bad data type: ", e),
            WPMError::WriteOutOfBounds(e) => labelled("Write out of bounds: ", e),
            WPMError::FailedToWrite(e) => labelled("Failed to write: ", e),
        }
    }
}

impl RPMError {
    /// The user-facing message: the label of the kind, then the detail.
    pub open spec fn message(&self) -> Seq<char> {
        match self {
            RPMError::BadDataType(e) => "Bad data type: "@ + e@,
            RPMError::ReadOutOfBounds(e) => "Read out of bounds: "@ + e@,
            RPMError::FailedToRead(e) => "Failed to read: "@ + e@,
        }
    }
}

impl InternalLimeError for RPMError {
    fn string(&self) -> (text: String)
        ensures
            text@ == self.message(),
    {
        match self {
            RPMError::BadDataType(e) => labelled("Bad data type: ", e),
            RPMError::ReadOutOfBounds(e) => labelled("Read out of bounds: ", e),
            RPMError::FailedToRead(e) => labelled("Failed to read: ", e),
        }
    }
}

impl MemAddrError {
    /// The user-facing message: the label of the kind, then the detail.
    pub open spec fn message(&self) -> Seq<char> {
        match self {
            MemAddrError::AddressInvalid(e) => "Address is invalid: "@ + e@,
            MemAddrError::AddressOutOfBounds(e) => "Address is out of bound of process memory: "@
                + e@,
            MemAddrError::AddressNotReadable(e) => "Unreadable mem region: "@ + e@,
            MemAddrError::InvalidPid(e) => "Invalid pid supplied: "@ + e@,
            MemAddrError::ParseError(e) => "Error while parsing /maps: "@ + e@,
            MemAddrError::NoPermission(e) => "Wrong permissions for region: "@ + e@,
        }
    }
}

impl InternalLimeError for MemAddrError {
    fn string(&self) -> (text: String)
        ensures
            text@ == self.message(),
    {
        match self {
            MemAddrError::AddressInvalid(e) => labelled("Address is invalid: ", e),
            MemAddrError::AddressOutOfBounds(e) => labelled(
                "Address is out of bound of process memory: ",
                e,
            ),
            MemAddrError::AddressNotReadable(e) => labelled("Unreadable mem region: ", e),
            MemAddrError::InvalidPid(e) => labelled("Invalid pid supplied: ", e),
            MemAddrError::ParseError(e) => labelled("Error while parsing /maps: ", e),
            MemAddrError::NoPermission(e) => labelled("Wrong permissions for region: ", e),
        }
    }
}

impl InvalidFormat {
    /// The user-facing message: the label of the kind, then the detail.
    pub open spec fn message(&self) -> Seq<char> {
        match self {
            InvalidFormat::IsNonValidPattern(e) => "Pattern was invalid: "@ + e@,
            InvalidFormat::ContainsInvalidCharacters(e) => "Pattern contained invalid characters: "@
                + e@,
        }
    }
}

impl InternalLimeError for InvalidFormat {
    fn string(&self) -> (text: String)
        ensures
            text@ == self.message(),
    {
        match self {
            InvalidFormat::IsNonValidPattern(e) => labelled("Pattern was invalid: ", e),
            InvalidFormat::ContainsInvalidCharacters(e) => labelled(
                "Pattern contained invalid characters: ",
                e,
            ),
        }
    }
}

impl GeneralErrors {
    /// The user-facing message: the label of the kind, then the detail.
    pub open spec fn message(&self) -> Seq<char> {
        match self {
            GeneralErrors::PatternIsEmpty(e) => "Pattern was empty: "@ + e@,
            GeneralErrors::PatternNotFound(e) => "Pattern not found in buffer: "@ + e@,
            GeneralErrors::PatternLargerThanBuffer(e) => "Pattern is larger than buffer: "@ + e@,
        }
    }
}

impl InternalLimeError for GeneralErrors {
    fn string(&self) -> (text: String)
        ensures
            text@ == self.message(),
    {
        match self {
            GeneralErrors::PatternIsEmpty(e) => labelled("Pattern was empty: ", e),
            GeneralErrors::PatternNotFound(e) => labelled("Pattern not found in buffer: ", e),
            GeneralErrors::PatternLargerThanBuffer(e) => labelled(
                "Pattern is larger than buffer: ",
                e,
            ),
        }
    }
}

impl LimeError {
    /// The user-facing message: the label of the kind, then the detail.
    pub open spec fn message(&self) -> Seq<char> {
        match self {
            LimeError::MemAddr(e) => e.message(),
            LimeError::Read(e) => e.message(),
            LimeError::Write(e) => e.message(),
            LimeError::Format(e) => e.message(),
            LimeError::General(e) => e.message(),
        }
    }
}

impl InternalLimeError for LimeError {
    fn string(&self) -> (text: String)
        ensures
            text@ == self.message(),
    {
        match self {
            LimeError::MemAddr(e) => e.string(),
            LimeError::Read(e) => e.string(),
            LimeError::Write(e) => e.string(),
            LimeError::Format(e) => e.string(),
            LimeError::General(e) => e.string(),
        }
    }
}

} // verus!
