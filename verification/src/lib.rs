//! A verified core for a sharded row store: the binary layout of shard items,
//! data and key/value shard files, the routing of rows over a chain of shards,
//! index entry encoding, and the small rules of users, tables and modules.
use vstd::prelude::*;

pub mod bytes;
pub mod ids;
pub mod item;
pub mod errors;
pub mod config;
pub mod data_shard_header;
pub mod data_shard;
pub mod data_update;
pub mod kv_shard;
pub mod shard;
pub mod map_shard;
pub mod temp_map_shard;
pub mod graph;
pub mod utils;
pub mod index;
pub mod users;
pub mod helpers;
pub mod engine;
pub mod services;
pub mod text;
