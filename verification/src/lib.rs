//! The logic of an HTTP interceptor for autoscaled services.
//!
//! Requests are matched to `HTTPScaledObject` resources ([`routing`]), counted
//! per resource ([`queue`]), held back until the backend has a ready endpoint
//! ([`endpoints`]), and forwarded over pooled connections ([`proxy`],
//! [`forward`], [`backend_pool`], [`body`], [`chunked`]). Whatever touches the
//! network, the clock or the cluster happens elsewhere: times come in as
//! numbers, and what to do next comes out as a value.

pub mod admin;
pub mod backend_pool;
pub mod body;
pub mod buffer;
pub mod chunked;
pub mod config;
pub mod crd;
pub mod diagnostics;
pub mod double;
pub mod duration;
pub mod endpoints;
pub mod fields;
pub mod forward;
pub mod metrics;
pub mod natural;
pub mod proxy;
pub mod queue;
pub mod reply;
pub mod routing;
pub mod store;
pub mod text;
pub mod watch;
pub mod wire;
