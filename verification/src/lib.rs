//! A small markup and style-sheet parsing engine.
//!
//! A [`parser::Parser`] is a cursor over a text. The markup parser in [`html`]
//! drives it to build a [`dom::Node`] tree, and the style parser in [`css`]
//! drives it to build a [`stylesheet::Stylesheet`]. Every function carries a
//! contract over a mathematical model of the text: a sequence of characters
//! and an index into it.

pub mod boundary;
pub mod css;
pub mod dom;
pub mod html;
pub mod parser;
pub mod roundtrip;
pub mod strmap;
pub mod stylesheet;
