//! A codec between a typed value model and XML.
//!
//! A [`Value`] is written as structural events by the [`ser`] module and
//! as text by the [`writer`]; text is read as events by the [`reader`],
//! events as an element tree by [`tree`], and a tree as a value of a given
//! [`Shape`] by [`de`]. The modules [`laws`] and [`text_laws`] state what
//! holds of the whole, and [`support`] decides whether they apply.

pub mod de;
pub mod error;
pub mod laws;
pub mod reader;
pub mod scalar;
pub mod ser;
pub mod shape;
pub mod strings;
pub mod support;
pub mod text_laws;
pub mod tree;
pub mod value;
pub mod writer;

pub use crate::de::{from_events, from_tree};
pub use crate::error::Error;
pub use crate::reader::{from_str, from_str_with, read_events, ParserConfig};
pub use crate::ser::seq::SeqSeralizer;
pub use crate::ser::{to_events, Serializer};
pub use crate::shape::{FieldShape, PayloadShape, ScalarKind, Shape, VariantShape};
pub use crate::support::{has_shape, is_item_shape, is_writable, to_string_checked};
pub use crate::tree::{read_tree, Node, XmlEvent};
pub use crate::value::{Field, Payload, Scalar, Value};
pub use crate::writer::{to_string, write_events};
