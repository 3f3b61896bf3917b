//! Parsers for HTTP/1.x responses and plain `http://` URLs, with their
//! behaviour stated as contracts over character sequences.

pub mod error;
pub mod text;
pub mod url;
pub mod http;
pub mod client;
