//! NovaDB: a document database prototype whose storage formats, index
//! structures, wire protocol, authorization rules and workload advisor are
//! stated and proved with Verus.

pub mod advisor;
pub mod analysis;
pub mod assistant;
pub mod auth;
pub mod buffer;
pub mod bytes;
pub mod catalog;
pub mod checksum;
pub mod entropy;
pub mod error;
pub mod index;
pub mod index_check;
pub mod index_file;
pub mod lexer;
pub mod lifecycle;
pub mod nbf;
pub mod nova_id;
pub mod nova_timestamp;
pub mod page;
pub mod protocol;
pub mod storage;
pub mod studio;
pub mod telemetry;
pub mod text;
pub mod transaction;
pub mod varint;
pub mod version;
pub mod wal;
