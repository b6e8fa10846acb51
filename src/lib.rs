//! A small HTTP/1.1 request/response engine: request framing, routing,
//! response framing and form-value decoding.
pub mod api;
pub mod client;
pub mod form;
pub mod framing;
pub mod request;
pub mod response;
pub mod routes;
pub mod web;
