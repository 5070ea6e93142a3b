//! The header of a data shard file.
//!
//! A data shard file starts with the number of item slots (`u64`), the index
//! of the last used slot (`i64`, -1 when none), the shard id (little-endian
//! UUID bytes) and then one `u64` slot per item, holding the file position
//! where that item starts. Items follow the header.
use vstd::prelude::*;
use crate::bytes::{
    le64, from_le64, zeros, push_all, push_zeros, encode_u64, decode_u64, to_array16, U64_SIZE,
    I64_SIZE,
};
use crate::ids::{UuidBytes, le_layout, uuid_to_bytes_le, uuid_from_bytes_le, new_uuid_v4, UUID_BYTE_LEN};
use crate::errors::ShardErrors;

verus! {

/// Item slots of a data shard made without a configured number.
pub const DEFAULT_MAX_OFFSETS: u64 = 100;

/// Bytes of the header before the first slot.
pub const FIXED_HEADER_LEN: usize = 32;

/// Position in the file of slot `i`.
pub open spec fn offset_pos(i: int) -> int {
    32 + 8 * i
}

/// The bytes of a new header.
pub open spec fn header_encoding(max_offsets: u64, last_offset_index: i64, id: Seq<u8>) -> Seq<u8> {
    le64(max_offsets) + le64(last_offset_index as u64) + le_layout(id) + zeros(
        (8 * max_offsets) as nat,
    )
}

/// The value of slot `i` in the file `data`.
pub open spec fn slot_value(data: Seq<u8>, i: int) -> u64 {
    from_le64(data.subrange(offset_pos(i), offset_pos(i) + 8))
}

/// `data` with eight bytes at `pos` replaced by the encoding of `v`.
pub open spec fn write_u64_at(data: Seq<u8>, pos: int, v: u64) -> Seq<u8> {
    data.subrange(0, pos) + le64(v) + data.subrange(pos + 8, data.len() as int)
}

/// The files that a header can be read from, or made in.
pub open spec fn header_readable(file: Seq<u8>) -> bool {
    &&& file.len() >= FIXED_HEADER_LEN
    &&& offset_pos(from_le64(file.subrange(0, 8)) as int) <= usize::MAX
}

#[derive(Debug)]
pub struct DataShardHeader {
    pub max_offsets: u64,
    /// Index of the last used slot; -1 when no slot is used.
    pub last_offset_index: i64,
    /// Position of the first byte past the slots.
    pub max_offset_positions: usize,
    pub id: UuidBytes,
}

impl DataShardHeader {
    /// The header's fields agree, and the used slots lie within its slots.
    pub open spec fn wf(&self) -> bool {
        &&& offset_pos(self.max_offsets as int) <= usize::MAX
        &&& self.max_offset_positions == offset_pos(self.max_offsets as int)
        &&& -1 <= self.last_offset_index
        &&& self.last_offset_index + 1 <= self.max_offsets
    }

    /// Number of used slots.
    pub open spec fn used(&self) -> int {
        self.last_offset_index + 1
    }

    pub open spec fn spec_has_space(&self) -> bool {
        self.last_offset_index == -1 || self.max_offsets > self.last_offset_index + 1
    }

    /// A header with no used slot.
    pub fn new(max_offsets: u64, uuid: Option<UuidBytes>) -> (r: Self)
        requires
            offset_pos(max_offsets as int) <= usize::MAX,
        ensures
            r.wf(),
            r.max_offsets == max_offsets,
            r.last_offset_index == -1,
            uuid matches Some(u) ==> r.id == u,
    {
        let id = match uuid {
            Some(u) => u,
            None => new_uuid_v4(),
        };
        Self {
            max_offsets,
            last_offset_index: -1,
            id,
            max_offset_positions: Self::calculate_offset_pos(max_offsets as usize),
        }
    }

    pub fn get_max_offsets(&self) -> (r: u64)
        ensures
            r == self.max_offsets,
    {
        self.max_offsets
    }

    /// Opens the header of `file`: an empty file gets a new header written to
    /// it, with the given number of slots (or the default) and id (or a fresh
    /// one); otherwise the header is read from the file.
    pub fn new_from_file(file: &mut Vec<u8>, max_offsets: Option<u64>, uuid: Option<UuidBytes>) -> (r: Self)
        requires
            offset_pos(
                match max_offsets {
                    Some(m) => m,
                    None => DEFAULT_MAX_OFFSETS,
                } as int,
            ) <= usize::MAX,
            old(file)@.len() != 0 ==> header_readable(old(file)@),
        ensures
            old(file)@.len() == 0 ==> {
                &&& r.wf()
                &&& r.last_offset_index == -1
                &&& r.max_offsets == match max_offsets {
                    Some(m) => m,
                    None => DEFAULT_MAX_OFFSETS,
                }
                &&& (uuid matches Some(u) ==> r.id == u)
                &&& final(file)@ == header_encoding(r.max_offsets, -1i64, r.id@)
            },
            old(file)@.len() != 0 ==> {
                &&& final(file)@ == old(file)@
                &&& r.max_offsets == from_le64(old(file)@.subrange(0, 8))
                &&& r.max_offset_positions == offset_pos(r.max_offsets as int)
                &&& r.last_offset_index == from_le64(old(file)@.subrange(8, 16)) as i64
                &&& r.id@ == le_layout(old(file)@.subrange(16, 32))
            },
    {
        let m = match max_offsets {
            Some(m) => m,
            None => DEFAULT_MAX_OFFSETS,
        };
        let mut header = DataShardHeader::new(m, uuid);
        if file.len() == 0 {
            header.initialize_empty_file(file);
        } else {
            header.read_header(file);
        }
        header
    }

    /// Writes this header into the empty `file`.
    fn initialize_empty_file(&self, file: &mut Vec<u8>)
        requires
            old(file)@.len() == 0,
            self.wf(),
        ensures
            final(file)@ == header_encoding(self.max_offsets, self.last_offset_index, self.id@),
    {
        let offsets_size = (self.max_offsets as usize) * U64_SIZE;
        let mut buffer: Vec<u8> = Vec::new();
        let mut b = encode_u64(self.max_offsets);
        buffer.append(&mut b);
        let mut b = encode_u64(self.last_offset_index as u64);
        buffer.append(&mut b);
        let id_bytes = uuid_to_bytes_le(&self.id);
        push_all(&mut buffer, id_bytes.as_slice());
        push_zeros(&mut buffer, offsets_size);
        assert(buffer@ =~= header_encoding(self.max_offsets, self.last_offset_index, self.id@));
        *file = buffer;
    }

    /// Reads the number of slots, the last used slot and the id from `file`.
    fn read_header(&mut self, file: &Vec<u8>)
        requires
            header_readable(file@),
        ensures
            final(self).max_offsets == from_le64(file@.subrange(0, 8)),
            final(self).max_offset_positions == offset_pos(final(self).max_offsets as int),
            final(self).last_offset_index == from_le64(file@.subrange(8, 16)) as i64,
            final(self).id@ == le_layout(file@.subrange(16, 32)),
    {
        let s = file.as_slice();
        self.max_offsets = decode_u64(&s[0..U64_SIZE]);
        self.max_offset_positions = Self::calculate_offset_pos(self.max_offsets as usize);
        self.last_offset_index = decode_u64(&s[U64_SIZE..U64_SIZE + I64_SIZE]) as i64;
        self.id = uuid_from_bytes_le(&to_array16(&s[U64_SIZE + I64_SIZE..FIXED_HEADER_LEN]));
    }

    /// Position of slot `index`.
    pub fn calculate_offset_pos(index: usize) -> (r: usize)
        requires
            offset_pos(index as int) <= usize::MAX,
        ensures
            r == offset_pos(index as int),
    {
        let max_offsets = U64_SIZE;
        let last_used_offset = I64_SIZE;
        let id_len = UUID_BYTE_LEN as usize;
        let offsets_from_pos = index * U64_SIZE;
        max_offsets + last_used_offset + id_len + offsets_from_pos
    }

    /// Records `value` in the next free slot, both in the header and in `file`.
    pub fn add_next_offset(&mut self, value: u64, file: &mut Vec<u8>) -> (r: Result<(), ShardErrors>)
        requires
            old(self).wf(),
            old(file)@.len() >= old(self).max_offset_positions,
        ensures
            final(self).wf(),
            final(self).max_offsets == old(self).max_offsets,
            final(self).max_offset_positions == old(self).max_offset_positions,
            final(self).id == old(self).id,
            old(self).used() < old(self).max_offsets ==> {
                &&& r is Ok
                &&& final(self).last_offset_index == old(self).last_offset_index + 1
                &&& final(file)@ == write_u64_at(old(file)@, offset_pos(old(self).used()), value)
            },
            old(self).used() >= old(self).max_offsets ==> {
                &&& r == Err::<(), ShardErrors>(ShardErrors::OutOfPositions)
                &&& final(self).last_offset_index == old(self).last_offset_index
                &&& final(file)@ == old(file)@
            },
    {
        if let Some(available_index) = self.get_next_available_index() {
            let offset_position = self.get_offset_pos_by_index(available_index);
            match offset_position {
                None => Err(ShardErrors::OutOfPositions),
                Some(pos) => {
                    let offset_bytes = encode_u64(value);
                    write_at(file, offset_bytes.as_slice(), pos);
                    self.last_offset_index = available_index as i64;
                    Ok(())
                },
            }
        } else {
            Err(ShardErrors::OutOfPositions)
        }
    }

    /// The next free slot, if there is one.
    pub fn get_next_available_index(&self) -> (r: Option<usize>)
        requires
            self.wf(),
        ensures
            self.spec_has_space() ==> r == Some(self.used() as usize),
            !self.spec_has_space() ==> r is None,
    {
        if self.has_space() {
            if self.last_offset_index == -1 {
                return Some(0);
            } else {
                return Some(self.last_offset_index as usize + 1);
            }
        }
        None
    }

    /// Whether a slot is free. A header with no used slot counts as having
    /// space, even one with no slots at all.
    pub fn has_space(&self) -> (r: bool)
        requires
            self.wf(),
        ensures
            r == self.spec_has_space(),
    {
        if self.last_offset_index == -1 {
            true
        } else {
            self.max_offsets > (self.last_offset_index + 1) as u64
        }
    }

    /// Number of free slots.
    pub fn available_space(&self) -> (r: usize)
        requires
            self.wf(),
        ensures
            r == self.max_offsets - self.used(),
    {
        (self.max_offsets - (self.last_offset_index + 1) as u64) as usize
    }

    /// The `u64` stored at `offset` in `file`, if eight bytes are there.
    pub fn get_offset_value_from_offset_header(&self, file: &Vec<u8>, offset: usize) -> (r: Option<u64>)
        ensures
            offset + 8 <= file@.len() ==> r == Some(from_le64(file@.subrange(offset as int, offset + 8))),
            offset + 8 > file@.len() ==> r is None,
    {
        if file.len() < 8 || offset > file.len() - 8 {
            return None;
        }
        Some(decode_u64(&file.as_slice()[offset..offset + 8]))
    }

    /// Position of slot `index`, if the header has that slot.
    pub fn get_offset_pos_by_index(&self, index: usize) -> (r: Option<usize>)
        requires
            self.wf(),
        ensures
            index < self.max_offsets ==> r == Some(offset_pos(index as int) as usize),
            index >= self.max_offsets ==> r is None,
    {
        if index as u64 >= self.max_offsets {
            return None;
        }
        let pos = Self::calculate_offset_pos(index);
        if self.max_offset_positions > pos {
            Some(pos)
        } else {
            None
        }
    }

    pub fn get_last_offset_index(&self) -> (r: i64)
        ensures
            r == self.last_offset_index,
    {
        self.last_offset_index
    }
}

/// Overwrites `buf.len()` bytes of `file` at `offset`.
pub fn write_at(file: &mut Vec<u8>, buf: &[u8], offset: usize)
    requires
        offset + buf@.len() <= old(file)@.len(),
    ensures
        final(file)@ == old(file)@.subrange(0, offset as int) + buf@ + old(file)@.subrange(
            offset + buf@.len(),
            old(file)@.len() as int,
        ),
{
    let flen = file.len();
    let mut i: usize = 0;
    while i < buf.len()
        invariant
            flen == file@.len(),
            i <= buf@.len(),
            offset + buf@.len() <= file@.len(),
            file@.len() == old(file)@.len(),
            forall|j: int| 0 <= j < offset ==> file@[j] == old(file)@[j],
            forall|j: int| 0 <= j < i ==> file@[offset + j] == buf@[j],
            forall|j: int| offset + i <= j < file@.len() ==> file@[j] == old(file)@[j],
        decreases buf@.len() - i,
    {
        file.set(offset + i, buf[i]);
        i = i + 1;
    }
    assert(file@ =~= old(file)@.subrange(0, offset as int) + buf@ + old(file)@.subrange(
        offset + buf@.len(),
        old(file)@.len() as int,
    ));
}

} // verus!
