//! Verified core of a local markdown preview server.

pub mod calendar;
pub mod decode;
pub mod listing;
pub mod markdown;
pub mod paths;
pub mod query;
pub mod routes;
pub mod text;
