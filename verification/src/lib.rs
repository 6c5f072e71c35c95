//! Verified core of the app runtime.

pub mod app;
pub mod bytes;
pub mod chunked;
pub mod encryption;
pub mod error;
pub mod inflate;
pub mod outside;
pub mod payload;
pub mod persist;
pub mod probe;
pub mod process;
pub mod progress;
pub mod pull;
pub mod reboot;
pub mod reference;
pub mod registry;
pub mod text;
