//! Verified core of an HTTP/1.x reverse proxy: head parsing, routing, the
//! bounded byte pipe, load balancing, health hysteresis and accounting.
use vstd::prelude::*;

pub mod accountant;
pub mod balancer;
pub mod cluster;
pub mod head;
pub mod config;
pub mod health;
pub mod listener;
pub mod matcher;
pub mod message;
pub mod metrics;
pub mod nocase;
pub mod pipe;
pub mod routing;
pub mod table;
pub mod text;
pub mod tls;
pub mod uri;

verus! {

/// The sum of two sizes.
pub fn add(left: usize, right: usize) -> (r: usize)
    requires
        left + right <= usize::MAX,
    ensures
        r == left + right,
{
    left + right
}

} // verus!
