//! Cascade resolution and block-level box layout for a small document model.
//!
//! A document tree and a stylesheet are resolved into a styled tree, which
//! is then laid out as a tree of boxes with absolute geometry. Every length
//! is a whole number of layout units, a thousand to the pixel.
//!
//! - `dom` and `css` hold the document and the stylesheet.
//! - `style` resolves the properties of each node; `cascade_proofs` says
//!   which declaration decides a property.
//! - `layout` builds the box tree and computes its geometry;
//!   `layout_proofs` says what holds of every layout.
//! - `parser`, `html_parser` and `css_parser` read documents and
//!   stylesheets from text.

pub mod cascade_proofs;
pub mod chars;
pub mod css;
pub mod css_parser;
pub mod dom;
pub mod html_parser;
pub mod layout;
pub mod layout_proofs;
pub mod parser;
pub mod strmap;
pub mod style;
