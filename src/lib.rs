//! A small static-file server core: request framing and resource resolution.
pub mod config;
pub mod framing;
pub mod http;
pub mod resolver;
pub mod server;
pub mod text;
