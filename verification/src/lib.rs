//! Cross-referenced source listings: an index of definitions and the places
//! that refer to them, and a renderer that lays markup over a token stream.

pub mod conversions;
pub mod custom_collections;
pub mod goto;
pub mod html;
mod layout;
pub mod lexer;
pub mod links;
pub mod nesting;
pub mod options;
pub mod order;
pub mod paths;
pub mod render;
mod sequences;
pub mod template;
pub mod text;
