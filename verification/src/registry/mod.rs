//! The client side of a registry: addresses, credentials, transfers.

pub mod address;
pub mod auth;
pub mod blob;
pub mod catalog;
pub mod challenge;
pub mod status;
pub mod wire;
