//! Verified core of an address-space crawler for a request/response
//! industrial-automation protocol.
//!
//! The crawler discovers every node reachable from a root by issuing
//! paginated browse requests and following references, while a deduplicating
//! node table guarantees that each node is expanded at most once, so the
//! crawl terminates even on cyclic graphs.  All network traffic is performed
//! by the caller, who drives the [`engine::Crawler`] state machine: the
//! machine says which request to issue next, the caller reports each
//! response or failure back.

pub mod engine;
pub mod graph;
pub mod node;
pub mod request;
pub mod table;
