//! Control-plane client library for driving a microVM hypervisor process
//! over its local Unix control socket.
//!
//! The library holds the verified core: the HTTP/1.1 message codec (request
//! building, response parsing including chunked transfer-encoding), the
//! configuration model, the lifecycle plan that sequences configuration
//! calls, and the asset-resolution policy (newest-version selection and
//! skip-if-present download planning).  Process spawning, socket I/O and
//! network transfers live outside the library and consume these verified
//! pieces.

pub mod assets;
pub mod bytes;
pub mod chunked;
pub mod config;
pub mod errors;
pub mod headers;
pub mod lifecycle;
pub mod number;
pub mod request;
pub mod response;
