//! Shard configurations.
use vstd::prelude::*;
use crate::shard::TempShardConfig;

verus! {

/// How many items a temporary data shard holds.
#[derive(Debug, Clone, Copy, PartialEq, Eq, Structural)]
pub enum TempOffsetTypes {
    WALBased,
    Custom(Option<u64>),
}

impl TempOffsetTypes {
    pub open spec fn spec_real_offset(self) -> Option<u64> {
        match self {
            TempOffsetTypes::WALBased => Some(1),
            TempOffsetTypes::Custom(val) => val,
        }
    }

    /// The item capacity: one for a write-ahead shard, the given one otherwise.
    pub fn get_real_offset(&self) -> (r: Option<u64>)
        ensures
            r == self.spec_real_offset(),
    {
        match self {
            TempOffsetTypes::WALBased => Some(1),
            TempOffsetTypes::Custom(val) => *val,
        }
    }
}

/// Configuration of a data shard: its number of item slots, or the default.
#[derive(Debug, Clone, Copy, PartialEq, Eq, Structural)]
pub struct DataShardConfig {
    pub max_offsets: Option<u64>,
}

/// Configuration of temporary data shards.
#[derive(Debug, Clone, Copy, PartialEq, Eq, Structural)]
pub struct TempDataShardConfig {
    pub max_offsets: TempOffsetTypes,
}

impl TempShardConfig<DataShardConfig> for TempDataShardConfig {
    open spec fn spec_config(&self) -> DataShardConfig {
        DataShardConfig { max_offsets: self.max_offsets.spec_real_offset() }
    }

    /// The data shard configuration that temporary shards are made with.
    fn to_config(&self) -> (r: DataShardConfig) {
        DataShardConfig { max_offsets: self.max_offsets.get_real_offset() }
    }
}

/// Configuration of a key/value shard: the fixed size of a value, and the
/// number of values it may hold (none or zero: no limit).
#[derive(Debug, Clone, Copy, PartialEq, Eq, Structural)]
pub struct KvShardConfig {
    pub value_size: usize,
    pub max_capacity: Option<u64>,
}

} // verus!
