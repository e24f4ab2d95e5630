//! The answers of a Christmas Code Hunt server, verified: every route's logic
//! takes plain values (path text, cookie text, JSON values, request bodies)
//! and gives the plain values that the server sends back.
pub mod bakery;
pub mod json;
pub mod routes;
pub mod text;
