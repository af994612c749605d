//! A minimal HTTP/1.1 framework: request and response model, routing and wire format.
pub mod connection;
pub mod content_type;
pub mod http_method;
pub mod http_request;
pub mod http_response;
pub mod router;
pub mod status_code;
