//! App data at rest: sealing, the chunked stream, the file index and the layers that carry it.

pub mod account;
pub mod archive;
pub mod capture;
pub mod materialize;
pub mod pack;
pub mod point;
pub mod restore;
pub mod restoring;
pub mod scatter;
pub mod seal;
pub mod stream;
pub mod tree;
pub mod upload;
