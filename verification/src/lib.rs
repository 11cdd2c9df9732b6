//! A watcher core for repository version tags.
//!
//! The library holds the verified logic of a tag-watching service: a durable
//! state record mapping each repository identifier to the last version marker
//! seen for it, a codec that lays the record out as a line-based text file, a
//! resolver that reconciles the two upstream signals (formal releases and raw
//! tags) into one latest marker, and a reconciliation engine that decides
//! whether a marker changed and when the record may be updated. All I/O (the
//! hosting API, the notification transport, the file system, the poll loop)
//! lives outside the library and hands it plain values.

pub mod bytes;
pub mod state;
pub mod codec;
pub mod repo_id;
pub mod resolve;
pub mod reconcile;
pub mod store;
