//! An embedded, schema-aware document database core: a transactional store
//! of documents grouped into collections, indexed by map/reduce views, with
//! a pub/sub relay for change notification.

pub mod admin;
pub mod byteorder;
pub mod codec;
pub mod database;
pub mod document;
pub mod error;
pub mod mapper;
pub mod networking;
pub mod pubsub;
pub mod schema;
pub mod storage;
pub mod tasks;
pub mod transaction;
pub mod vault;
pub mod views;
