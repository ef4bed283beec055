//! A decoder for the bencoding wire format, a tree model of decoded values
//! with a query surface, and a JSON renderer for that tree.
pub mod encoding;
pub mod json;
pub mod outline;
pub mod parse;
pub mod utils;
pub mod value;
