//! The subscription and event-distribution core of a multi-tenant relay.
//!
//! - `registry`: every connection's live subscriptions, and the routing of
//!   a stored event to the matching subscriptions of its scope.
//! - `pagination`: historical delivery for one `REQ`, paging backwards
//!   through the store past events that the caller's predicate rejects.
//! - `buffer`: coalescing of replaceable and addressable events.
//! - `command`: store commands and the decisions of the publish pipeline.
//! - `routing`: distribution of protocol events through the protocol's
//!   filter matching.
//! - `coordinator`: one connection's view of the registry.
//! - `converter`: frames to client messages, relay messages to text.
pub mod types;
pub mod kind;
pub mod keyed;
pub mod registry;
pub mod pagination;
pub mod buffer;
pub mod command;
pub mod coordinator;
pub mod converter;
pub mod routing;
