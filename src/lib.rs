//! A static-file server's core: request paths, ranges, validators and responses.

pub mod numeric;
pub mod range;
pub mod path;
pub mod mime;
pub mod response;
pub mod cli;
pub mod port;
pub mod config;
pub mod listing;
