use vstd::prelude::*;

verus! {

/// Why reading a row did not yield one.
#[derive(PartialEq, Eq, Clone, Copy, Debug, Structural)]
pub enum SchemaReadError {
    /// The stream ended exactly where a row would begin.
    Eof,
    /// The stream ended inside a row group.
    UnexpectedEof,
    /// A payload could not be decompressed, or its marker byte is unknown.
    DecompressionError,
    /// The stored checksum of a group differs from the computed one.
    ChecksumError,
    /// A decompressed payload is not valid UTF-8.
    BadUtf8,
}

impl SchemaReadError {
    /// Whether a scan may go on with the next row after this error.
    pub open spec fn spec_is_recoverable(self) -> bool {
        self == SchemaReadError::ChecksumError || self == SchemaReadError::BadUtf8 || self
            == SchemaReadError::DecompressionError
    }

    #[verifier::when_used_as_spec(spec_is_recoverable)]
    pub fn is_recoverable(self) -> (b: bool)
        ensures
            b == self.spec_is_recoverable(),
    {
        match self {
            SchemaReadError::ChecksumError => true,
            SchemaReadError::BadUtf8 => true,
            SchemaReadError::DecompressionError => true,
            SchemaReadError::Eof => false,
            SchemaReadError::UnexpectedEof => false,
        }
    }

    /// A short text that names the error.
    pub fn description(self) -> (s: &'static str)
        ensures
            s@ == match self {
                SchemaReadError::DecompressionError => "Decompression Error"@,
                SchemaReadError::Eof => "EOF"@,
                SchemaReadError::UnexpectedEof => "Unexpected end of file"@,
                SchemaReadError::ChecksumError => "Checksum error"@,
                SchemaReadError::BadUtf8 => "Bad UTF-8 encoding"@,
            },
    {
        match self {
            SchemaReadError::DecompressionError => "Decompression Error",
            SchemaReadError::Eof => "EOF",
            SchemaReadError::UnexpectedEof => "Unexpected end of file",
            SchemaReadError::ChecksumError => "Checksum error",
            SchemaReadError::BadUtf8 => "Bad UTF-8 encoding",
        }
    }
}

/// Why a file could not be opened as a relation.
#[derive(PartialEq, Eq, Clone, Copy, Debug, Structural)]
pub enum OpenError {
    /// The bytes do not begin with a well-formed schema header.
    SchemaParseError,
    /// The file holds no bytes at all.
    EmptyFile,
    /// The file could not be read.
    IoError,
}

} // verus!
