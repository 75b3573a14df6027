//! Storage core of a spatially indexed block store: record indexing, data-file
//! layout and filtered reads on the datanode side, and query resolution on the
//! namenode side, joined by a reversible synthetic block id.

pub mod codec;
pub mod indexer;
pub mod store;
pub mod transfer;
pub mod block;
pub mod resolver;
pub mod projector;
