//! A verified reverse-proxy load balancer and tunable worker service.
//!
//! The crate holds the decision logic of a small distributed system: a
//! dispatcher that forwards client HTTP requests to a fixed pool of backend
//! workers, choosing the target by round-robin or least-connections, and a
//! worker whose simulated latency and error rate can be retuned at run time.
//! The HTTP plumbing itself lives outside; everything here is plain logic
//! with contracts.

pub mod addr;
pub mod balancing_algorithm;
pub mod dispatch;
pub mod environment;
pub mod json;
pub mod load_balancer;
pub mod server;
pub mod worker;
pub mod text;
