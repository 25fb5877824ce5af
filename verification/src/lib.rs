//! An HTTP/1.1 request parser and response writer over raw bytes, with
//! machine-checked contracts.

pub mod error;
pub mod text;
pub mod headers;
pub mod request;
pub mod response;
pub mod utils;
pub mod server;
pub mod lines;
