use vstd::prelude::*;

verus! {

/// Failures of the path-normalizing pass.
#[derive(Debug)]
pub enum PreprocessError {
    IoError(String),
    XmlError(String),
    ValidationError(String),
    PathError(String),
    ParserError(String),
}

/// Failures of a conversion or a merge; each carries a description.
#[derive(Debug)]
pub enum ConversionError {
    Io { path: String, source: String },
    XmlParse(String),
    JsonParse(String),
    InvalidFile(String),
    ValidationError(String),
    ParserError(String),
    BatchConversionError(String),
    BatchError(String),
    FileSizeLimitExceeded { path: String, size: u64 },
    MaxDepthExceeded { path: String, depth: u32 },
    VerificationError(String),
    PreprocessError(PreprocessError),
}

impl ConversionError {
    /// An input/output failure at `path`.
    pub fn io_error(path: String, source: String) -> (r: ConversionError)
        ensures
            r matches ConversionError::Io { path: p, source: s } && p@ == path@ && s@ == source@,
    {
        ConversionError::Io { path, source }
    }
}

} // verus!
