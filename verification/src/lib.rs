//! The core of an HTTP reverse proxy, with machine-checked contracts.
//!
//! The crate decides; it does no I/O. A caller hands it what arrived as
//! plain values, together with the time of a monotonic clock in
//! nanoseconds, and carries out what comes back.
//!
//! - [`proxy`] is the request pipeline: admission, cache lookup, backend
//!   selection and header rewriting on the way in, cacheability and header
//!   mirroring on the way back.
//! - [`rate`] holds the token buckets behind admission, [`ip`] reads the
//!   addresses that they are kept for.
//! - [`cache`] is the response cache with its expiry and its bound on
//!   bytes, [`cache_control`] reads what upstreams say about caching.
//! - [`backend`] is the round robin over the backends.
//! - [`headers`] holds the rules on which headers cross the proxy.
//! - [`config`] validates a configuration, [`upstream`] holds the settings
//!   of the upstream client.
//! - [`req`], [`resp`] and [`static_files`] read request heads, write
//!   response heads and map requests to static files.
//! - [`text`] holds the character-level helpers that the others share.
//! - [`trusted`] is the boundary to code that is called but not verified.

pub mod backend;
pub mod cache;
pub mod cache_control;
pub mod config;
pub mod headers;
pub mod ip;
pub mod proxy;
pub mod rate;
pub mod req;
pub mod resp;
pub mod static_files;
pub mod text;
pub mod trusted;
pub mod upstream;
