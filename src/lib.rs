//! An S3-compatible object store: the request authenticator, the listing and
//! dispatch rules, the on-disk layout of the storage engine, and the XML
//! documents that the service exchanges with its clients.

pub mod auth;
pub mod body;
pub mod digest;
pub mod dispatch;
pub mod error;
pub mod listing;
pub mod md5sum;
pub mod object;
pub mod order;
pub mod storage;
pub mod text;
pub mod xml;
