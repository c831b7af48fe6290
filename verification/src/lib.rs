//! A small static blog generator: Markdown is lexed into tokens, the tokens
//! are parsed into HTML nodes, and the nodes are rendered into pages.

pub mod token;
pub mod lexer;
pub mod html_parser;
pub mod markdown_parser;
pub mod html_builder;
pub mod text;
pub mod dates;
pub mod html_generator;
pub mod post_parser;
