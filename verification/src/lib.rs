//! Core of a durable, database-backed delivery-queue worker: it fans one
//! published newsletter issue out to many recipients, tolerating crashes,
//! transient infrastructure failure and malformed recipient data without
//! losing or duplicating work across concurrent workers.
//!
//! The durable queue store, the issue store and the email transport are
//! modelled in this crate as plain in-memory values with the same contracts
//! the production stores offer (an atomic, non-blocking claim; an immutable
//! content record; a synchronous send that reports success or failure), so
//! the claim protocol, the delivery executor and the worker loop's policy
//! are verified against them. Bindings to a real database and transport
//! live outside the library and follow the same contracts.

pub mod domain;
pub mod issue_delivery_worker;
pub mod issue_store;
pub mod queue;
pub mod subscriptions_confirm;
pub mod transport;
