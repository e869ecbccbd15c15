//! Split-HTTP transport: a bidirectional TCP stream tunnelled over HTTP as
//! one long-lived streaming download plus a sequence of short upload requests.

pub mod client;
pub mod server;
