//! A middleware pipeline: an ordered chain of middleware, each of which may
//! look at and change the per-request state before it hands control to the
//! rest of the chain, which ends in a handler.

pub mod chain;
pub mod handler;
pub mod middleware;
pub mod pipeline;
