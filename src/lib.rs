//! A DNS relay and interception server core: a byte-exact codec for DNS
//! messages over fixed-size buffers, a static rule table, and the engine that
//! decides, per query, whether to block it, answer it locally or relay it.

pub mod config;
pub mod error;
pub mod protocol;
pub mod resolver;
pub mod rules;
