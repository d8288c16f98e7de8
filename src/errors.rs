use vstd::prelude::*;

verus! {

/// Every failure that the library reports.
#[derive(Debug, Clone, Copy, PartialEq, Eq, Structural)]
pub enum WampError {
    /// A value was expected to be an array and is not.
    NotArray,
    /// A value was expected to be a map and is not.
    NotHash,
    /// A message does not have as many elements as its layout asks for.
    IncorrectElementCount,
    /// An element holds another kind of value than the one asked for.
    IncorrectElementType,
    /// The field asked for is not part of the message's layout.
    InvalidField,
    /// A map does not hold the key asked for.
    MissingKey,
    /// An array has no element at the index asked for.
    IndexOutOfRange,
    /// The encoding holds an item that the value model cannot represent.
    UnsupportedType,
    /// The encoding is truncated or otherwise not well formed.
    MalformedData,
    /// The connection could not be opened, or the handshake was refused.
    ConnectionFailure,
    /// A frame broke the framing rules.
    FrameError,
    /// A reply named a request that is not pending.
    UnknownRequestID,
    /// A request was not answered before its deadline.
    Timeout,
}

/// A value was not an array.
#[derive(Debug, Clone, Copy)]
pub struct NotArray;

impl NotArray {
    pub fn message(&self) -> (r: &'static str)
        ensures
            r@ == "Message was not an array"@,
    {
        "Message was not an array"
    }
}

/// A value was not a map.
#[derive(Debug, Clone, Copy)]
pub struct NotHash;

impl NotHash {
    pub fn message(&self) -> (r: &'static str)
        ensures
            r@ == "Message was not a Hash"@,
    {
        "Message was not a Hash"
    }
}

/// A message had the wrong number of elements.
#[derive(Debug, Clone, Copy)]
pub struct IncorrectElementCount;

impl IncorrectElementCount {
    pub fn message(&self) -> (r: &'static str)
        ensures
            r@ == "Incorrect number of elements"@,
    {
        "Incorrect number of elements"
    }
}

/// An element held the wrong kind of value.
#[derive(Debug, Clone, Copy)]
pub struct IncorrectElementType;

impl IncorrectElementType {
    pub fn message(&self) -> (r: &'static str)
        ensures
            r@ == "Incorrect element type"@,
    {
        "Incorrect element type"
    }
}

/// A field was asked for that does not exist.
#[derive(Debug, Clone, Copy)]
pub struct InvalidField;

impl InvalidField {
    pub fn message(&self) -> (r: &'static str)
        ensures
            r@ == "Field does not exist"@,
    {
        "Field does not exist"
    }
}

} // verus!
