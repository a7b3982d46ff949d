//! A small markup parser: tags, self-closing elements, quoted attributes and
//! `{expr}` interpolation slots with `{{` / `}}` escaping, turned into a typed
//! AST whose every token and node carries a byte-accurate source span.

pub mod attr;
pub mod error;
pub mod grammar;
pub mod laws;
pub mod lexer;
pub mod nodes;
pub mod parser;
pub mod span_range;
pub mod strutil;
pub mod tok;

pub use error::ParseError;
pub use parser::PResult;
pub use parser::Parser;
pub use parser::parse_attrs_from_buffer;
pub use parser::parse_str;
pub use nodes::Attr;
pub use nodes::Element;
pub use nodes::Interpolation;
pub use nodes::Node;
pub use nodes::Text;
pub use span_range::Pos;
pub use span_range::SpanRange;
