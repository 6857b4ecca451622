//! A runtime string-templating engine.
//!
//! A template holds brace-delimited placeholders, positional (`{}`, `{0}`) or
//! named (`{name}`), each optionally carrying free-text attributes and a
//! format specification (`{value:>8.2}`). Values are substituted at runtime
//! through the replace family of methods, and the finished text is read back
//! with `text`.

mod chars;
mod error;
mod format_spec;
mod numeric;
mod placeholder;
mod scan;
mod template;
mod value;

pub use error::Error;
pub use error::ErrorKind;
pub use value::Value;
pub use format_spec::FormatSpec;
pub use placeholder::Placeholder;
pub use template::Template;

pub use format_spec::lemma_unsupported_never_constructs;
pub use format_spec::lemma_unsupported_token_refused;
pub use template::lemma_lookup_after_remove;
pub use template::lemma_no_placeholder_round_trip;
pub use template::lemma_plain_text_round_trip;
