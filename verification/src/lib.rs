//! Reformats arbitrary text by reinterpreting the nesting of configurable
//! bracket pairs, quoted regions and punctuation, producing an indented,
//! width-aware rendering.
//!
//! The pipeline runs strictly forward: a scanning cursor feeds a tokenizer
//! that builds an offset-addressed tree, a pure post-pass re-tiles that tree
//! into owned text spans, and a layout bridge turns the spans into layout
//! instructions for the line-breaking engine. Malformed input never fails:
//! unterminated groups and quotes degrade to nodes without a closing
//! delimiter, and no closing text is ever invented.

pub mod config;
pub mod cursor;
pub mod decondense;
pub mod decondenser;
pub mod error;
pub mod layout;
pub mod parse;
pub mod str;
pub mod unescape;

pub use crate::config::EscapeConfig;
pub use crate::config::GroupConfig;
pub use crate::config::LanguageConfig;
pub use crate::config::QuoteConfig;
pub use crate::decondense::configure_formatter;
pub use crate::decondense::decondense;
pub use crate::decondenser::Decondenser;
pub use crate::error::Error;
pub use crate::str::Str;
pub use crate::unescape::EscapingConfig;
pub use crate::unescape::UnescapeOutput;
pub use crate::unescape::UnescapeParams;
pub use crate::unescape::unescape;
