//! Converts security-tool configuration documents between a markup form and
//! a structured form, and merges many of them into one.

pub mod error;
pub mod text;
pub mod value;
pub mod markup;
pub mod writer;
pub mod reader;
pub mod roundtrip;
pub mod merger;
pub mod model;
pub mod path;
pub mod options;
pub mod progress;
pub mod batch;
pub mod convert;

pub use batch::{BatchProcessingStats, FilePlan};
pub use convert::{Direction, JsonToXml, XmlToJson};
pub use error::{ConversionError, PreprocessError};
pub use merger::{ConfigMerger, OutputFormat, SchemaVerdict};
pub use options::{ProcessingOptions, ProcessingOptionsBuilder};
pub use progress::ProgressReporter;
pub use value::Value;
