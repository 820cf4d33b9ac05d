//! An HTTP reverse proxy's verified core: request and response parsing,
//! latency statistics, and the decisions a connection goes through.
pub mod text;
pub mod http_values;
pub mod headers;
pub mod parser;
pub mod metrics;
pub mod proxy;
