//! Decoder for a paginated binary container: a fixed-size global header, an
//! allocation table on the second page, and chains of 4096-byte pages whose
//! payloads hold typed records.

pub mod block;
pub mod bytes;
pub mod categories;
pub mod error;
pub mod header;
pub mod index;
pub mod meta;
pub mod properties;
pub mod store;
pub mod varint;
