//! The word finder: the file index behind the search service, its message channel, and the
//! HTTP request handling of the service.
pub mod channel;
pub mod database;
pub mod http;
pub mod network;
pub mod path_index;
pub mod scan;
pub mod service;
