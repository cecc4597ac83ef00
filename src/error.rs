use vstd::prelude::*;

verus! {

/// Why the input could not be turned into keyed lines.
#[derive(Debug, Clone)]
pub enum ReadError {
    /// The input holds no more lines.
    EndOfInputReached,
    /// A line that is not a JSON record with string fields `@meta.service`,
    /// `@meta.env` and an RFC 3339 `@timestamp`; it carries the line verbatim.
    InvalidLine(String),
    /// The compressed input could not be decompressed.
    InvalidInput,
    /// A decompressed line is not valid UTF-8.
    InvalidUtf8,
}

/// The kinds of failure that end a run.
#[derive(Debug, Clone)]
pub enum ErrorKind {
    ReadErr(ReadError),
    /// A shard file would outgrow the offsets that the machine can address.
    ShardTooLarge,
    /// A worker was driven out of order: an append reported that was not
    /// under way, or that did not end where it should.
    InvariantViolation,
}

/// A failure that ends a run.
#[derive(Debug, Clone)]
pub struct Error {
    pub kind: Box<ErrorKind>,
}

impl Error {
    pub open spec fn spec_kind(&self) -> ErrorKind {
        *self.kind
    }

    pub fn new(kind: ErrorKind) -> (r: Error)
        ensures
            r.spec_kind() == kind,
    {
        Error { kind: Box::new(kind) }
    }

    pub fn kind(&self) -> (r: &ErrorKind)
        ensures
            *r == self.spec_kind(),
    {
        &self.kind
    }
}

impl From<ReadError> for Error {
    fn from(value: ReadError) -> (r: Error) {
        Error { kind: Box::new(ErrorKind::ReadErr(value)) }
    }
}

impl vstd::std_specs::convert::FromSpecImpl<ReadError> for Error {
    open spec fn obeys_from_spec() -> bool {
        true
    }

    open spec fn from_spec(v: ReadError) -> Error {
        Error { kind: Box::new(ErrorKind::ReadErr(v)) }
    }
}

} // verus!
