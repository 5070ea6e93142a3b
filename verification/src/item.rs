//! Items stored in data shards and their binary layout.
//!
//! An encoded item is: the type byte; the item id (little-endian UUID bytes);
//! the length of the inner metadata as a `u64`; the inner metadata (shard id,
//! offset, used size, maximal size, and the shard id and offset the item was
//! moved to, or 24 zero bytes); then the item's data area.
use vstd::prelude::*;
use crate::bytes::{
    lemma_le64, le64, from_le64, zeros, push_all, push_zeros, to_array16, encode_u64, decode_u64,
    U64_SIZE,
};
use crate::ids::{
    UuidBytes, le_layout, nil_bytes, lemma_le_layout, uuid_to_bytes_le, uuid_from_bytes_le,
    UUID_BYTE_LEN,
};

verus! {

/// Extra room reserved after an item's data is at most this many bytes.
pub const FACTOR_ITEM_THRESHOLD_BYTES: usize = 2048;

/// Length of the inner metadata of an encoded item.
pub const INNER_METADATA_LEN: u64 = 64;

/// Length of everything an encoded item holds before its data area.
pub const ITEM_HEADER_LEN: usize = 89;

/// The state of an item in a shard.
#[derive(Debug, Clone, Copy, PartialEq, Eq, Structural)]
pub enum ShardItemType {
    Raw,
    Deleted,
    Moved,
}

/// The byte that identifies an item type on disk.
pub open spec fn type_byte(t: ShardItemType) -> u8 {
    match t {
        ShardItemType::Raw => 0,
        ShardItemType::Deleted => 1,
        ShardItemType::Moved => 2,
    }
}

/// The item type that a byte below 3 identifies.
pub open spec fn type_of_byte(b: u8) -> ShardItemType {
    if b == 0 {
        ShardItemType::Raw
    } else if b == 1 {
        ShardItemType::Deleted
    } else {
        ShardItemType::Moved
    }
}

impl ShardItemType {
    /// The one-byte identifier of this type.
    pub fn get_le_identifier(&self) -> (r: [u8; 1])
        ensures
            r@ == seq![type_byte(*self)],
    {
        let b: u8 = match self {
            ShardItemType::Raw => 0u8,
            ShardItemType::Deleted => 1u8,
            ShardItemType::Moved => 2u8,
        };
        let r = [b];
        assert(r@ =~= seq![type_byte(*self)]);
        r
    }

    /// The type identified by a byte; bytes above 2 identify none.
    pub fn from_le_bytes(bytes: u8) -> (r: Result<ShardItemType, ()>)
        ensures
            bytes <= 2 ==> r == Ok::<ShardItemType, ()>(type_of_byte(bytes)),
            bytes > 2 ==> r is Err,
    {
        match bytes {
            0u8 => Ok(ShardItemType::Raw),
            1u8 => Ok(ShardItemType::Deleted),
            2u8 => Ok(ShardItemType::Moved),
            _ => Err(()),
        }
    }

    pub fn is_raw(&self) -> (r: bool)
        ensures
            r == (*self is Raw),
    {
        matches!(self, ShardItemType::Raw)
    }

    pub fn is_deleted(&self) -> (r: bool)
        ensures
            r == (*self is Deleted),
    {
        matches!(self, ShardItemType::Deleted)
    }

    pub fn is_moved(&self) -> (r: bool)
        ensures
            r == (*self is Moved),
    {
        matches!(self, ShardItemType::Moved)
    }
}

pub proof fn lemma_type_byte(t: ShardItemType)
    ensures
        type_byte(t) <= 2,
        type_of_byte(type_byte(t)) == t,
{
}

/// A row as it lives in a data shard.
#[derive(Debug)]
pub struct ShardItem {
    pub shard_item_type: ShardItemType,
    pub max_size: usize,
    pub used_size: usize,
    pub current_item_id: UuidBytes,
    pub current_shard_id: UuidBytes,
    pub current_offset: usize,
    pub moved_shard_id: Option<UuidBytes>,
    pub moved_offset: Option<usize>,
    pub data: Vec<u8>,
    pub internal_position: Option<usize>,
}

/// The room reserved after `len` bytes of data: three times the length,
/// capped at `FACTOR_ITEM_THRESHOLD_BYTES`.
pub open spec fn extra_space(len: nat) -> nat {
    if len > 2048 || len * 3 > 2048 {
        2048
    } else {
        len * 3
    }
}

/// The optional identifier's bytes.
pub open spec fn opt_id(o: Option<UuidBytes>) -> Option<Seq<u8>> {
    match o {
        Some(b) => Some(b@),
        None => None,
    }
}

/// The inner metadata of an encoded item.
pub open spec fn inner_encoding(item: ShardItem) -> Seq<u8> {
    le_layout(item.current_shard_id@) + le64(item.current_offset as u64) + le64(
        item.used_size as u64,
    ) + le64(item.max_size as u64) + match item.moved_shard_id {
        Some(u) => le_layout(u@) + le64(item.moved_offset.unwrap() as u64),
        None => zeros(24),
    }
}

/// The bytes of an encoded item.
pub open spec fn item_encoding(item: ShardItem) -> Seq<u8> {
    seq![type_byte(item.shard_item_type)] + le_layout(item.current_item_id@) + le64(
        INNER_METADATA_LEN,
    ) + inner_encoding(item) + item.data@
}

/// An encoded item is as long as `ShardItem::calculate_size` gives for its
/// data area: the header and the data.
pub proof fn lemma_encoding_size(item: ShardItem)
    ensures
        item_encoding(item).len() == ITEM_HEADER_LEN + item.data@.len(),
{
    lemma_le64(INNER_METADATA_LEN);
    lemma_le64(item.current_offset as u64);
    lemma_le64(item.used_size as u64);
    lemma_le64(item.max_size as u64);
    lemma_le_layout(item.current_item_id@);
    lemma_le_layout(item.current_shard_id@);
    match item.moved_shard_id {
        Some(u) => {
            lemma_le_layout(u@);
            lemma_le64(item.moved_offset.unwrap() as u64);
        },
        None => {},
    }
}

/// The bytes on which decoding succeeds: a full header, a known type byte,
/// and a data area no longer than the input.
pub open spec fn item_decodable(s: Seq<u8>) -> bool {
    &&& s.len() >= ITEM_HEADER_LEN
    &&& s[0] <= 2
    &&& (from_le64(s.subrange(57, 65)) as usize) <= s.len()
}

/// The item id that decoding reads: bytes 1 to 17 taken as little-endian UUID bytes.
pub open spec fn decoded_item_id(s: Seq<u8>) -> Seq<u8> {
    le_layout(s.subrange(1, 17))
}

pub open spec fn decoded_shard_id(s: Seq<u8>) -> Seq<u8> {
    le_layout(s.subrange(25, 41))
}

pub open spec fn decoded_offset(s: Seq<u8>) -> usize {
    from_le64(s.subrange(41, 49)) as usize
}

pub open spec fn decoded_used_size(s: Seq<u8>) -> usize {
    from_le64(s.subrange(49, 57)) as usize
}

pub open spec fn decoded_max_size(s: Seq<u8>) -> usize {
    from_le64(s.subrange(57, 65)) as usize
}

/// The shard an item was moved to: none where those sixteen bytes are zero.
pub open spec fn decoded_moved_id(s: Seq<u8>) -> Option<Seq<u8>> {
    if s.subrange(65, 81) == nil_bytes() {
        None
    } else {
        Some(le_layout(s.subrange(65, 81)))
    }
}

pub open spec fn decoded_moved_offset(s: Seq<u8>) -> Option<usize> {
    if s.subrange(65, 81) == nil_bytes() {
        None
    } else {
        Some(from_le64(s.subrange(81, 89)) as usize)
    }
}

/// The data area: the last `decoded_max_size` bytes.
pub open spec fn decoded_data(s: Seq<u8>) -> Seq<u8> {
    s.subrange(s.len() - decoded_max_size(s), s.len() as int)
}

/// What decoding gives is the item whose fields are read from `s`.
pub open spec fn decodes_to(s: Seq<u8>, r: ShardItem) -> bool {
    &&& r.shard_item_type == type_of_byte(s[0])
    &&& r.current_item_id@ == decoded_item_id(s)
    &&& r.current_shard_id@ == decoded_shard_id(s)
    &&& r.current_offset == decoded_offset(s)
    &&& r.used_size == decoded_used_size(s)
    &&& r.max_size == decoded_max_size(s)
    &&& opt_id(r.moved_shard_id) == decoded_moved_id(s)
    &&& r.moved_offset == decoded_moved_offset(s)
    &&& r.data@ == decoded_data(s)
}

impl ShardItem {
    /// The position in its shard file where this item was read, if it was read.
    pub open spec fn internal_pos(&self) -> Option<usize> {
        self.internal_position
    }

    /// A fresh raw item holding `item`; with `threshold_extra_space` its data
    /// area is followed by `extra_space(item.len())` zero bytes.
    pub fn new_complete(
        item: &[u8],
        item_id: UuidBytes,
        shard_id: UuidBytes,
        offset: usize,
        threshold_extra_space: bool,
    ) -> (r: Self)
        requires
            threshold_extra_space ==> item@.len() * 3 <= usize::MAX,
        ensures
            r.shard_item_type == ShardItemType::Raw,
            r.used_size == item@.len(),
            r.max_size == item@.len() + if threshold_extra_space {
                extra_space(item@.len())
            } else {
                0
            },
            r.data@ == item@ + zeros((r.max_size - item@.len()) as nat),
            r.current_item_id == item_id,
            r.current_shard_id == shard_id,
            r.current_offset == offset,
            r.moved_shard_id is None,
            r.moved_offset is None,
            r.internal_pos() is None,
    {
        let item_len = item.len();
        let mut data: Vec<u8> = Vec::new();
        push_all(&mut data, item);
        let mut max_size = item_len;
        if threshold_extra_space {
            let threshold_extra_space = {
                let item_len_multiply = item_len * 3;
                if item_len > FACTOR_ITEM_THRESHOLD_BYTES || item_len_multiply
                    > FACTOR_ITEM_THRESHOLD_BYTES {
                    FACTOR_ITEM_THRESHOLD_BYTES
                } else {
                    item_len_multiply
                }
            };
            push_zeros(&mut data, threshold_extra_space);
            max_size = max_size + threshold_extra_space;
        } else {
            assert(data@ =~= item@ + zeros(0));
        }
        ShardItem {
            current_item_id: item_id,
            used_size: item_len,
            shard_item_type: ShardItemType::Raw,
            max_size,
            moved_shard_id: None,
            moved_offset: None,
            data,
            internal_position: None,
            current_shard_id: shard_id,
            current_offset: offset,
        }
    }

    /// Records where the item was read.
    pub fn set_internal_pos(&mut self, pos: usize)
        ensures
            final(self).internal_pos() == Some(pos),
            final(self).shard_item_type == old(self).shard_item_type,
            final(self).max_size == old(self).max_size,
            final(self).used_size == old(self).used_size,
            final(self).current_item_id == old(self).current_item_id,
            final(self).current_shard_id == old(self).current_shard_id,
            final(self).current_offset == old(self).current_offset,
            final(self).moved_shard_id == old(self).moved_shard_id,
            final(self).moved_offset == old(self).moved_offset,
            final(self).data@ == old(self).data@,
    {
        self.internal_position = Some(pos);
    }

    pub fn get_internal_pos(&self) -> (r: Option<usize>)
        ensures
            r == self.internal_pos(),
    {
        self.internal_position
    }

    /// A fresh raw item with extra room.
    pub fn new(item: &[u8], item_id: UuidBytes, shard_id: UuidBytes, offset: usize) -> (r: Self)
        requires
            item@.len() * 3 <= usize::MAX,
        ensures
            r.shard_item_type == ShardItemType::Raw,
            r.used_size == item@.len(),
            r.max_size == item@.len() + extra_space(item@.len()),
            r.data@ == item@ + zeros(extra_space(item@.len())),
            r.current_item_id == item_id,
            r.current_shard_id == shard_id,
            r.current_offset == offset,
            r.moved_shard_id is None,
            r.moved_offset is None,
            r.internal_pos() is None,
    {
        Self::new_complete(item, item_id, shard_id, offset, true)
    }

    fn inner_metadata(&self) -> (r: Vec<u8>)
        requires
            self.moved_shard_id is Some ==> self.moved_offset is Some,
        ensures
            r@ == inner_encoding(*self),
            r@.len() == INNER_METADATA_LEN,
    {
        let mut metadata: Vec<u8> = Vec::new();
        let shard_le = uuid_to_bytes_le(&self.current_shard_id);
        push_all(&mut metadata, shard_le.as_slice());
        let mut b = encode_u64(self.current_offset as u64);
        metadata.append(&mut b);
        let mut b = encode_u64(self.used_size as u64);
        metadata.append(&mut b);
        let mut b = encode_u64(self.max_size as u64);
        metadata.append(&mut b);
        let ghost before = metadata@;
        match &self.moved_shard_id {
            Some(uuid) => {
                let moved_le = uuid_to_bytes_le(uuid);
                push_all(&mut metadata, moved_le.as_slice());
                let mut b = encode_u64(self.moved_offset.unwrap() as u64);
                metadata.append(&mut b);
                proof {
                    lemma_le_layout(uuid@);
                }
            },
            None => {
                push_zeros(&mut metadata, 24);
            },
        }
        proof {
            lemma_le_layout(self.current_shard_id@);
            assert(metadata@ =~= inner_encoding(*self));
        }
        metadata
    }

    /// The encoded item.
    pub fn to_vec(&self) -> (r: Vec<u8>)
        requires
            self.moved_shard_id is Some ==> self.moved_offset is Some,
        ensures
            r@ == item_encoding(*self),
    {
        let type_bytes = self.shard_item_type.get_le_identifier();
        let mut metadata: Vec<u8> = Vec::new();
        let inner_metadata = self.inner_metadata();
        push_all(&mut metadata, type_bytes.as_slice());
        let id_le = uuid_to_bytes_le(&self.current_item_id);
        push_all(&mut metadata, id_le.as_slice());
        let mut len_bytes = encode_u64(inner_metadata.len() as u64);
        metadata.append(&mut len_bytes);
        push_all(&mut metadata, inner_metadata.as_slice());
        push_all(&mut metadata, self.data.as_slice());
        assert(metadata@ =~= item_encoding(*self));
        metadata
    }

    /// Decodes an item; the position it was read at is unknown.
    pub fn from(value: Vec<u8>) -> (r: Self)
        requires
            item_decodable(value@),
        ensures
            decodes_to(value@, r),
            r.internal_pos() is None,
    {
        let s = value.as_slice();
        let item_type = match ShardItemType::from_le_bytes(s[0]) {
            Ok(t) => t,
            Err(_) => ShardItemType::Raw,
        };
        let current_item_id = uuid_from_bytes_le(&to_array16(&s[1..17]));
        let curr_shard_id = uuid_from_bytes_le(&to_array16(&s[25..41]));
        let curr_offset = decode_u64(&s[41..49]);
        let item_len = decode_u64(&s[49..57]);
        let max_size = decode_u64(&s[57..65]);
        let uuid = to_array16(&s[65..81]);
        let is_nil = is_nil_bytes(&uuid);
        let moved = if is_nil {
            None
        } else {
            Some(uuid_from_bytes_le(&uuid))
        };
        let offset = if is_nil {
            None
        } else {
            Some(decode_u64(&s[81..89]) as usize)
        };
        let len = s.len();
        let data_start = len - max_size as usize;
        let mut data: Vec<u8> = Vec::new();
        push_all(&mut data, &s[data_start..len]);
        ShardItem {
            current_item_id,
            shard_item_type: item_type,
            max_size: max_size as usize,
            used_size: item_len as usize,
            current_shard_id: curr_shard_id,
            current_offset: curr_offset as usize,
            moved_shard_id: moved,
            moved_offset: offset,
            data,
            internal_position: None,
        }
    }

    /// Writes `new_data` over the start of the data area when it fits;
    /// otherwise the item becomes `Moved` and its data stays.
    pub fn update(&mut self, new_data: &[u8])
        requires
            new_data@.len() <= old(self).max_size ==> new_data@.len() <= old(self).data@.len(),
        ensures
            new_data@.len() > old(self).max_size ==> {
                &&& final(self).shard_item_type == ShardItemType::Moved
                &&& final(self).used_size == old(self).used_size
                &&& final(self).data@ == old(self).data@
            },
            new_data@.len() <= old(self).max_size ==> {
                &&& final(self).shard_item_type == old(self).shard_item_type
                &&& final(self).used_size == new_data@.len()
                &&& final(self).data@ == new_data@ + old(self).data@.subrange(
                    new_data@.len() as int,
                    old(self).data@.len() as int,
                )
            },
            final(self).max_size == old(self).max_size,
            final(self).current_item_id == old(self).current_item_id,
            final(self).current_shard_id == old(self).current_shard_id,
            final(self).current_offset == old(self).current_offset,
            final(self).moved_shard_id == old(self).moved_shard_id,
            final(self).moved_offset == old(self).moved_offset,
            final(self).internal_pos() == old(self).internal_pos(),
    {
        let new_data_len = new_data.len();
        if new_data_len > self.max_size {
            self.shard_item_type = ShardItemType::Moved;
        } else {
            let mut i: usize = 0;
            while i < new_data_len
                invariant
                    i <= new_data_len,
                    new_data_len == new_data@.len(),
                    new_data_len <= self.data@.len(),
                    self.data@.len() == old(self).data@.len(),
                    forall|j: int| 0 <= j < i ==> self.data@[j] == new_data@[j],
                    forall|j: int| i <= j < self.data@.len() ==> self.data@[j] == old(self).data@[j],
                    self.shard_item_type == old(self).shard_item_type,
                    self.max_size == old(self).max_size,
                    self.used_size == old(self).used_size,
                    self.current_item_id == old(self).current_item_id,
                    self.current_shard_id == old(self).current_shard_id,
                    self.current_offset == old(self).current_offset,
                    self.moved_shard_id == old(self).moved_shard_id,
                    self.moved_offset == old(self).moved_offset,
                    self.internal_position == old(self).internal_position,
                decreases new_data_len - i,
            {
                self.data.set(i, new_data[i]);
                i = i + 1;
            }
            self.used_size = new_data_len;
            assert(self.data@ =~= new_data@ + old(self).data@.subrange(
                new_data@.len() as int,
                old(self).data@.len() as int,
            ));
        }
    }

    /// The bytes of the data area in use.
    pub fn get_used_data(&self) -> (r: &[u8])
        requires
            self.used_size <= self.data@.len(),
        ensures
            r@ == self.data@.subrange(0, self.used_size as int),
    {
        &self.data.as_slice()[0..self.used_size]
    }

    /// The encoded size of an item holding `content` with no extra room.
    pub fn calculate_size(content: &[u8]) -> (r: usize)
        requires
            content@.len() + ITEM_HEADER_LEN <= usize::MAX,
        ensures
            r == ITEM_HEADER_LEN + content@.len(),
    {
        let mut initial_size: usize = 1;
        initial_size += UUID_BYTE_LEN as usize;
        initial_size += UUID_BYTE_LEN as usize;
        initial_size += U64_SIZE;
        initial_size += U64_SIZE;
        initial_size += U64_SIZE;
        initial_size += UUID_BYTE_LEN as usize;
        initial_size += U64_SIZE;
        initial_size += U64_SIZE;
        initial_size += content.len();
        initial_size
    }
}

/// Whether sixteen bytes are all zero.
fn is_nil_bytes(b: &UuidBytes) -> (r: bool)
    ensures
        r == (b@ == nil_bytes()),
{
    let mut i: usize = 0;
    while i < 16
        invariant
            0 <= i <= 16,
            b@.len() == 16,
            forall|j: int| 0 <= j < i ==> b@[j] == 0,
        decreases 16 - i,
    {
        if b[i] != 0 {
            assert(b@[i as int] != nil_bytes()[i as int]);
            return false;
        }
        i = i + 1;
    }
    assert(b@ =~= nil_bytes());
    true
}

} // verus!

verus! {

/// The items whose encoding decodes back to them: the data area is exactly
/// `max_size` long, the used size fits in it, and a move is recorded with
/// both a non-nil shard id and an offset, or not at all.
pub open spec fn item_round_trips(item: ShardItem) -> bool {
    &&& item.data@.len() == item.max_size
    &&& item.used_size <= item.max_size
    &&& (item.moved_shard_id is Some <==> item.moved_offset is Some)
    &&& (item.moved_shard_id matches Some(u) ==> u@ != nil_bytes())
}

/// Decoding an encoded item gives back its type, item id, shard id, offset,
/// sizes, move and data.
pub proof fn lemma_item_round_trip(item: ShardItem)
    requires
        item_round_trips(item),
    ensures
        item_decodable(item_encoding(item)),
        item_encoding(item).len() == ITEM_HEADER_LEN + item.max_size,
        type_of_byte(item_encoding(item)[0]) == item.shard_item_type,
        decoded_shard_id(item_encoding(item)) == item.current_shard_id@,
        decoded_offset(item_encoding(item)) == item.current_offset,
        decoded_used_size(item_encoding(item)) == item.used_size,
        decoded_max_size(item_encoding(item)) == item.max_size,
        decoded_moved_id(item_encoding(item)) == opt_id(item.moved_shard_id),
        decoded_moved_offset(item_encoding(item)) == item.moved_offset,
        decoded_data(item_encoding(item)) == item.data@,
        decoded_item_id(item_encoding(item)) == item.current_item_id@,
{
    let s = item_encoding(item);
    lemma_le64(item.current_offset as u64);
    lemma_le64(item.used_size as u64);
    lemma_le64(item.max_size as u64);
    lemma_le64(INNER_METADATA_LEN);
    lemma_le_layout(item.current_item_id@);
    lemma_le_layout(item.current_shard_id@);
    lemma_type_byte(item.shard_item_type);
    let moved = match item.moved_shard_id {
        Some(u) => le_layout(u@) + le64(item.moved_offset.unwrap() as u64),
        None => zeros(24),
    };
    match item.moved_shard_id {
        Some(u) => {
            lemma_le_layout(u@);
            lemma_le64(item.moved_offset.unwrap() as u64);
        },
        None => {},
    }
    assert(s.subrange(25, 41) =~= le_layout(item.current_shard_id@));
    assert(s.subrange(41, 49) =~= le64(item.current_offset as u64));
    assert(s.subrange(49, 57) =~= le64(item.used_size as u64));
    assert(s.subrange(57, 65) =~= le64(item.max_size as u64));
    assert(s.subrange(65, 89) =~= moved);
    assert(s.subrange(65, 81) =~= moved.subrange(0, 16));
    assert(s.subrange(81, 89) =~= moved.subrange(16, 24));
    assert(s.subrange(1, 17) =~= le_layout(item.current_item_id@));
    assert(le_layout(le_layout(item.current_item_id@)) =~= item.current_item_id@);
    assert(s.subrange(s.len() - item.max_size, s.len() as int) =~= item.data@);
    match item.moved_shard_id {
        Some(u) => {
            assert(moved.subrange(0, 16) =~= le_layout(u@));
            assert(moved.subrange(16, 24) =~= le64(item.moved_offset.unwrap() as u64));
            assert(le_layout(le_layout(u@)) =~= u@);
        },
        None => {
            assert(moved.subrange(0, 16) =~= nil_bytes());
        },
    }
}

} // verus!
