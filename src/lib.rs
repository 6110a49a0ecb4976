//! A versioned migration engine for a client-side store of inbound group
//! sessions and related cryptographic state.
//!
//! The store's persisted version number is the only record of how far an
//! upgrade got. Structural steps (creating and dropping tables and indexes)
//! commit atomically under their own version number; the bulk record passes
//! run as separate atomic batches in between. Every phase is either rolled
//! back as a whole or idempotent, so an upgrade interrupted anywhere resumes
//! to the same final state.
pub mod codec;
pub mod laws;
pub mod lemmas;
pub mod migrate;
pub mod model;
pub mod notification;
pub mod schema;
pub mod store;
