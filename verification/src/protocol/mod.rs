//! How a connection is written into requests and read out of them.
pub mod acceptance;
pub mod carried;
pub mod fresh;
pub mod metadata;
pub mod padding;
pub mod payload;
pub mod request;
pub mod round_trip;
