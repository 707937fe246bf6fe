//! A small verified HTTP/1.1 message core: request parsing, route matching,
//! and response rendering over byte buffers. Network and file I/O live
//! outside the library; it turns received bytes into routing decisions and
//! rendered response bytes.

pub mod ascii;
pub mod headers;
pub mod parse;
pub mod registry;
pub mod request;
pub mod response;
pub mod route;
pub mod server;
pub mod verb;
