//! A verified routing core for an ingress-driven HTTP reverse proxy.
//!
//! The library holds the pure logic of the proxy: a path-segment prefix
//! tree with wildcard fallback, a string-keyed map, the normalized ingress
//! model and its decoding rules, the route-table update rules, and the
//! per-request lookup. All I/O (the cluster watch, the HTTP server hooks)
//! lives outside the library and hands it plain values.

pub mod config;
pub mod ingress;
pub mod router;
pub mod strmap;
pub mod text;
pub mod url_tree;
