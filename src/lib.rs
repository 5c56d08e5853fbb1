//! Turns a flat stream of highlight events into a nested forest of spans,
//! cut at every line boundary so that each line renders on its own.

pub mod engine;
pub mod forest;
pub mod laws;
pub mod pipeline;
pub mod language;
pub mod model;
pub mod node;

pub use forest::{build_forest, slice_of, ForestBuilder, Frame};
pub use pipeline::{highlight, HighlightError};
pub use language::{language_of, select_language, SourceLanguage};
pub use model::{Event, StreamError};
pub use node::Node;
