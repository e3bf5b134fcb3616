//! Core of an asynchronous DNS server framework: the request/response
//! pipeline from wire bytes through a middleware chain to a service, the
//! transaction model for single and streamed responses, and the versioned
//! zone store with differential snapshots for zone transfers.

pub mod buf;
pub mod builder;
pub mod chain;
pub mod context;
pub mod dgram;
pub mod mandatory;
pub mod message;
pub mod metrics;
pub mod middleware;
pub mod name;
pub mod octets;
pub mod service;
pub mod stream;
pub mod util;
pub mod validator;
pub mod wire;
pub mod xfr;
pub mod zone_service;
pub mod zonetree;
