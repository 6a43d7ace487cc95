//! Builders for source text, with contracts that say exactly which text each
//! builder puts into a [`formatter::Formatter`].
//!
//! The heart of the crate is [`variant::Variant`], one case of an enumerated
//! type: a name, a list of fields in one of three shapes, attribute lines and
//! an optional documentation block.  What a variant renders to is the spec
//! function [`variant::VariantView::text`]; every executable renderer is
//! proved to write that text, in order, through the formatter's indentation.

pub mod text;
pub mod formatter;
pub mod ty;
pub mod docs;
pub mod fields;
pub mod variant;

pub use docs::Docs;
pub use fields::{Field, Fields};
pub use formatter::{FormatError, Formatter};
pub use ty::{IntoType, Type};
pub use variant::Variant;
