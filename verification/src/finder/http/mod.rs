//! The HTTP side of the word finder service: request and response model, routing by method
//! and path, the wire format and the decisions of the request handlers.
pub mod content_type;
pub mod handlers;
pub mod params;
pub mod request;
pub mod response;
pub mod router;
pub mod wire;
pub use crate::own_axum::status_code::StatusCode;
