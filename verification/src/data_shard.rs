//! Data shards: a header of item slots followed by encoded items.
use vstd::prelude::*;
use crate::bytes::{le64, from_le64, lemma_le64, zeros, push_all, U64_SIZE, decode_u64};
use crate::ids::{UuidBytes, le_layout, lemma_le_layout, uuid_to_string, nil_bytes, new_uuid_v4};
use crate::shard::{AvailableSpace, Shard, ShardConfig, slices_view};
use crate::errors::ShardErrors;
use crate::config::DataShardConfig;
use crate::item::{
    ShardItem, ShardItemType, item_decodable, decodes_to, decoded_data, decoded_used_size,
    decoded_max_size, extra_space, type_byte, INNER_METADATA_LEN, ITEM_HEADER_LEN, type_of_byte,
    decoded_item_id, decoded_shard_id, decoded_offset, decoded_moved_id, decoded_moved_offset,
};
use crate::data_shard_header::{
    DataShardHeader, offset_pos, slot_value, write_u64_at, header_readable, header_encoding,
    DEFAULT_MAX_OFFSETS, write_at, FIXED_HEADER_LEN,
};

verus! {

/// A row to insert, with the id it is stored under.
pub struct InsertItem<'a> {
    pub data: &'a [u8],
    pub uuid: UuidBytes,
}

impl<'a> InsertItem<'a> {
    pub fn new(data: &'a [u8], uuid: UuidBytes) -> (r: Self)
        ensures
            r.data@ == data@,
            r.uuid == uuid,
    {
        Self { data, uuid }
    }
}

/// The data that an item in use holds: the used part of its data area.
pub open spec fn used_data(s: Seq<u8>) -> Seq<u8> {
    decoded_data(s).subrange(0, decoded_used_size(s) as int)
}

/// The items whose used part lies within their data area, and whose data
/// area follows their header, as readers and writers need.
pub open spec fn item_readable(s: Seq<u8>) -> bool {
    &&& item_decodable(s)
    &&& decoded_used_size(s) <= decoded_max_size(s)
    &&& s.len() >= ITEM_HEADER_LEN + decoded_max_size(s)
}

/// The encoding of a fresh raw item holding `data` at file position `offset`.
pub open spec fn fresh_item_bytes(data: Seq<u8>, item_id: Seq<u8>, shard_id: Seq<u8>, offset: int) -> Seq<u8> {
    seq![0u8] + le_layout(item_id) + le64(INNER_METADATA_LEN) + le_layout(shard_id) + le64(
        offset as u64,
    ) + le64(data.len() as u64) + le64((data.len() + extra_space(data.len())) as u64) + zeros(24)
        + data + zeros(extra_space(data.len()))
}

/// Length of a fresh item holding `len` bytes.
pub open spec fn fresh_len(len: nat) -> nat {
    ITEM_HEADER_LEN as nat + len + extra_space(len)
}

/// The rows of an insertion: data and item id.
pub open spec fn rows_view(rows: Seq<InsertItem>) -> Seq<(Seq<u8>, Seq<u8>)> {
    Seq::new(rows.len(), |j: int| (rows[j].data@, rows[j].uuid@))
}

/// Total encoded length of the first `j` rows.
pub open spec fn sum_fresh(rows: Seq<(Seq<u8>, Seq<u8>)>, j: int) -> nat
    decreases j,
{
    if j <= 0 {
        0
    } else {
        sum_fresh(rows, j - 1) + fresh_len(rows[j - 1].0.len())
    }
}

/// File position of row `j` when the rows are appended at `start`.
pub open spec fn row_offset(rows: Seq<(Seq<u8>, Seq<u8>)>, start: int, j: int) -> int {
    start + sum_fresh(rows, j)
}

/// The encoding of row `j` of an insertion starting at `start`.
pub open spec fn row_bytes(rows: Seq<(Seq<u8>, Seq<u8>)>, shard_id: Seq<u8>, start: int, j: int) -> Seq<u8> {
    fresh_item_bytes(rows[j].0, rows[j].1, shard_id, row_offset(rows, start, j))
}

/// Concatenation of byte sequences.
pub open spec fn concat(s: Seq<Seq<u8>>) -> Seq<u8>
    decreases s.len(),
{
    if s.len() == 0 {
        Seq::empty()
    } else {
        concat(s.drop_last()) + s.last()
    }
}

/// A data shard: its file contents and header.
#[derive(Debug)]
pub struct DataShard {
    pub path: String,
    pub header: DataShardHeader,
    pub data: Vec<u8>,
    pub id: UuidBytes,
}

impl DataShard {
    /// Where item `i` starts.
    pub open spec fn item_start(&self, i: int) -> int {
        slot_value(self.data@, i) as int
    }

    /// Where item `i` ends: where the next used item starts, or the end of the file.
    pub open spec fn item_end(&self, i: int) -> int {
        if i < self.header.last_offset_index {
            slot_value(self.data@, i + 1) as int
        } else {
            self.data@.len() as int
        }
    }

    /// The bytes of item `i`.
    pub open spec fn item_bytes(&self, i: int) -> Seq<u8> {
        self.data@.subrange(self.item_start(i), self.item_end(i))
    }

    /// The data of the items in use, in slot order.
    pub open spec fn items(&self) -> Seq<Seq<u8>> {
        Seq::new(self.header.used() as nat, |i: int| used_data(self.item_bytes(i)))
    }

    /// The header is well formed and present in the file, and every used
    /// slot points, in order, at a readable item past the header.
    pub open spec fn wf(&self) -> bool {
        &&& self.header.wf()
        &&& self.header.id == self.id
        &&& self.data@.len() >= self.header.max_offset_positions
        &&& forall|i: int|
            #![trigger self.item_start(i)]
            0 <= i < self.header.used() ==> {
                &&& self.header.max_offset_positions <= self.item_start(i) <= self.item_end(i) <= self.data@.len()
                &&& item_readable(self.item_bytes(i))
            }
        &&& forall|i: int, j: int|
            #![trigger self.item_end(i), self.item_start(j)]
            0 <= i < j < self.header.used() ==> self.item_end(i) <= self.item_start(j)
    }

    /// Reads the item whose slot is at `offset_position_in_header`; a slot
    /// that is not in use gives `UnknownOffset`. The position is that of a
    /// slot, as `read_item_from_index` computes it: eight bytes at another
    /// position hold parts of two offsets, which point at no item. An unused
    /// slot points at no item either, so it is answered as absent, which is
    /// how removal and update treat the indexes they find no item at.
    pub fn read_item(&self, offset_position_in_header: usize) -> (r: Result<ShardItem, ShardErrors>)
        requires
            self.wf(),
            offset_position_in_header >= 32,
            (offset_position_in_header - 32) % 8 == 0,
            offset_position_in_header + 8 <= self.header.max_offset_positions,
        ensures
            ({
                let i = (offset_position_in_header - 32) / 8;
                &&& i < self.header.used() ==> {
                    &&& r matches Ok(item)
                    &&& decodes_to(self.item_bytes(i), item)
                    &&& item.internal_pos() == Some(self.item_start(i) as usize)
                }
                &&& i >= self.header.used() ==> r == Err::<ShardItem, ShardErrors>(ShardErrors::UnknownOffset)
            }),
    {
        let pos = offset_position_in_header;
        let ghost i = (pos - 32) / 8;
        assert(pos == offset_pos(i));
        let last = self.header.last_offset_index;
        if last < 0 {
            return Err(ShardErrors::UnknownOffset);
        }
        let used_end = DataShardHeader::calculate_offset_pos(last as usize + 1);
        if pos >= used_end {
            return Err(ShardErrors::UnknownOffset);
        }
        assert(self.header.max_offset_positions <= self.item_start(i));
        let start_pos = match self.header.get_offset_value_from_offset_header(&self.data, pos) {
            None => return Err(ShardErrors::UnknownOffset),
            Some(v) => v,
        };
        let next_offset_pos = pos + U64_SIZE;
        let end_pos: u64 = if next_offset_pos < used_end {
            assert(self.header.max_offset_positions <= self.item_start(i + 1));
            match self.header.get_offset_value_from_offset_header(&self.data, next_offset_pos) {
                Some(v) => v,
                None => self.data.len() as u64,
            }
        } else {
            self.data.len() as u64
        };
        if start_pos > end_pos || end_pos > self.data.len() as u64 {
            return Err(ShardErrors::ErrorReadingByteRange);
        }
        let bytes = crate::bytes::slice_to_vec(&self.data.as_slice()[start_pos as usize..end_pos as usize]);
        let mut item = ShardItem::from(bytes);
        item.set_internal_pos(start_pos as usize);
        Ok(item)
    }

    /// Reads item `index`; an index whose slot is not in use gives `UnknownOffset`.
    pub fn read_item_from_index(&self, index: usize) -> (r: Result<ShardItem, ShardErrors>)
        requires
            self.wf(),
        ensures
            index < self.header.used() ==> {
                &&& r matches Ok(item)
                &&& decodes_to(self.item_bytes(index as int), item)
                &&& item.internal_pos() == Some(self.item_start(index as int) as usize)
            },
            index >= self.header.used() ==> r == Err::<ShardItem, ShardErrors>(ShardErrors::UnknownOffset),
    {
        match self.header.get_offset_pos_by_index(index) {
            None => Err(ShardErrors::UnknownOffset),
            Some(pos_in_header) => self.read_item(pos_in_header),
        }
    }
}

} // verus!

verus! {

/// The first `n` rows of an insertion, encoded one after another.
pub open spec fn batch_prefix(rows: Seq<(Seq<u8>, Seq<u8>)>, shard_id: Seq<u8>, start: int, n: int) -> Seq<u8> {
    concat(Seq::new(n as nat, |j: int| row_bytes(rows, shard_id, start, j)))
}

pub proof fn lemma_fresh_item(data: Seq<u8>, item_id: Seq<u8>, shard_id: Seq<u8>, offset: int)
    requires
        item_id.len() == 16,
        shard_id.len() == 16,
        data.len() * 3 <= usize::MAX,
    ensures
        fresh_item_bytes(data, item_id, shard_id, offset).len() == fresh_len(data.len()),
        item_readable(fresh_item_bytes(data, item_id, shard_id, offset)),
        decoded_max_size(fresh_item_bytes(data, item_id, shard_id, offset)) == data.len()
            + extra_space(data.len()),
        decoded_used_size(fresh_item_bytes(data, item_id, shard_id, offset)) == data.len(),
        used_data(fresh_item_bytes(data, item_id, shard_id, offset)) == data,
        fresh_item_bytes(data, item_id, shard_id, offset)[0] == 0,
{
    let s = fresh_item_bytes(data, item_id, shard_id, offset);
    let len = data.len();
    let m = (len + extra_space(len)) as u64;
    lemma_le64(INNER_METADATA_LEN);
    lemma_le64(offset as u64);
    lemma_le64(len as u64);
    lemma_le64(m);
    lemma_le_layout(item_id);
    lemma_le_layout(shard_id);
    assert(s.subrange(49, 57) =~= le64(len as u64));
    assert(s.subrange(57, 65) =~= le64(m));
    assert(s.len() == 89 + len + extra_space(len));
    assert(decoded_data(s) =~= data + zeros(extra_space(len)));
    assert(used_data(s) =~= data);
}

/// The header fields of a fresh item: a raw item with the given ids and
/// offset, moved nowhere.
pub proof fn lemma_fresh_item_fields(data: Seq<u8>, item_id: Seq<u8>, shard_id: Seq<u8>, offset: int)
    requires
        item_id.len() == 16,
        shard_id.len() == 16,
        0 <= offset <= usize::MAX,
    ensures
        type_of_byte(fresh_item_bytes(data, item_id, shard_id, offset)[0]) == ShardItemType::Raw,
        decoded_item_id(fresh_item_bytes(data, item_id, shard_id, offset)) == item_id,
        decoded_shard_id(fresh_item_bytes(data, item_id, shard_id, offset)) == shard_id,
        decoded_offset(fresh_item_bytes(data, item_id, shard_id, offset)) == offset,
        decoded_moved_id(fresh_item_bytes(data, item_id, shard_id, offset)) is None,
        decoded_moved_offset(fresh_item_bytes(data, item_id, shard_id, offset)) is None,
{
    let s = fresh_item_bytes(data, item_id, shard_id, offset);
    lemma_le64(INNER_METADATA_LEN);
    lemma_le64(offset as u64);
    lemma_le_layout(item_id);
    lemma_le_layout(shard_id);
    lemma_le64(data.len() as u64);
    lemma_le64((data.len() + extra_space(data.len())) as u64);
    assert(s[0] == 0);
    assert(s.subrange(1, 17) =~= le_layout(item_id));
    assert(s.subrange(25, 41) =~= le_layout(shard_id));
    assert(s.subrange(41, 49) =~= le64(offset as u64));
    assert(s.subrange(65, 81) =~= nil_bytes());
}

/// An item stays readable when bytes are appended to it.
pub proof fn lemma_readable_extend(s: Seq<u8>, t: Seq<u8>)
    requires
        item_readable(s),
    ensures
        item_readable(s + t),
{
    assert((s + t).subrange(57, 65) =~= s.subrange(57, 65));
    assert((s + t).subrange(49, 57) =~= s.subrange(49, 57));
}

pub proof fn lemma_sum_fresh_monotone(rows: Seq<(Seq<u8>, Seq<u8>)>, i: int, j: int)
    requires
        0 <= i <= j,
    ensures
        sum_fresh(rows, i) <= sum_fresh(rows, j),
    decreases j - i,
{
    if i < j {
        lemma_sum_fresh_monotone(rows, i, j - 1);
    }
}

pub proof fn lemma_batch_step(rows: Seq<(Seq<u8>, Seq<u8>)>, shard_id: Seq<u8>, start: int, n: int)
    requires
        0 <= n,
    ensures
        batch_prefix(rows, shard_id, start, n + 1) == batch_prefix(rows, shard_id, start, n)
            + row_bytes(rows, shard_id, start, n),
{
    let f = |j: int| row_bytes(rows, shard_id, start, j);
    assert(Seq::new((n + 1) as nat, f).drop_last() =~= Seq::new(n as nat, f));
}

pub proof fn lemma_batch_len(rows: Seq<(Seq<u8>, Seq<u8>)>, shard_id: Seq<u8>, start: int, n: int)
    requires
        0 <= n <= rows.len(),
        shard_id.len() == 16,
        forall|j: int| 0 <= j < rows.len() ==> #[trigger] rows[j].1.len() == 16,
        forall|j: int| 0 <= j < rows.len() ==> #[trigger] rows[j].0.len() * 3 <= usize::MAX,
    ensures
        batch_prefix(rows, shard_id, start, n).len() == sum_fresh(rows, n),
    decreases n,
{
    if n > 0 {
        lemma_batch_len(rows, shard_id, start, n - 1);
        lemma_batch_step(rows, shard_id, start, n - 1);
        lemma_fresh_item(rows[n - 1].0, rows[n - 1].1, shard_id, row_offset(rows, start, n - 1));
    } else {
        assert(Seq::new(0, |j: int| row_bytes(rows, shard_id, start, j)) =~= Seq::<Seq<u8>>::empty());
    }
}

pub proof fn lemma_batch_prefix(rows: Seq<(Seq<u8>, Seq<u8>)>, shard_id: Seq<u8>, start: int, m: int, n: int)
    requires
        0 <= m <= n <= rows.len(),
        shard_id.len() == 16,
        forall|j: int| 0 <= j < rows.len() ==> #[trigger] rows[j].1.len() == 16,
        forall|j: int| 0 <= j < rows.len() ==> #[trigger] rows[j].0.len() * 3 <= usize::MAX,
    ensures
        batch_prefix(rows, shard_id, start, n).subrange(0, sum_fresh(rows, m) as int)
            == batch_prefix(rows, shard_id, start, m),
    decreases n - m,
{
    lemma_batch_len(rows, shard_id, start, n);
    lemma_batch_len(rows, shard_id, start, m);
    if m < n {
        lemma_batch_prefix(rows, shard_id, start, m, n - 1);
        lemma_batch_step(rows, shard_id, start, n - 1);
        lemma_batch_len(rows, shard_id, start, n - 1);
        lemma_sum_fresh_monotone(rows, m, n - 1);
        assert(batch_prefix(rows, shard_id, start, n).subrange(0, sum_fresh(rows, m) as int)
            =~= batch_prefix(rows, shard_id, start, n - 1).subrange(0, sum_fresh(rows, m) as int));
    } else {
        assert(batch_prefix(rows, shard_id, start, n).subrange(0, sum_fresh(rows, m) as int)
            =~= batch_prefix(rows, shard_id, start, m));
    }
}

/// Row `j` of an insertion lies in the batch between the lengths of the rows before it.
pub proof fn lemma_batch_part(rows: Seq<(Seq<u8>, Seq<u8>)>, shard_id: Seq<u8>, start: int, j: int, n: int)
    requires
        0 <= j < n <= rows.len(),
        shard_id.len() == 16,
        forall|k: int| 0 <= k < rows.len() ==> #[trigger] rows[k].1.len() == 16,
        forall|k: int| 0 <= k < rows.len() ==> #[trigger] rows[k].0.len() * 3 <= usize::MAX,
    ensures
        batch_prefix(rows, shard_id, start, n).subrange(
            sum_fresh(rows, j) as int,
            sum_fresh(rows, j + 1) as int,
        ) == row_bytes(rows, shard_id, start, j),
        sum_fresh(rows, j + 1) <= sum_fresh(rows, n),
{
    lemma_batch_prefix(rows, shard_id, start, j + 1, n);
    lemma_batch_step(rows, shard_id, start, j);
    lemma_batch_len(rows, shard_id, start, j);
    lemma_batch_len(rows, shard_id, start, j + 1);
    lemma_sum_fresh_monotone(rows, j + 1, n);
    lemma_batch_len(rows, shard_id, start, n);
    assert(batch_prefix(rows, shard_id, start, n).subrange(
        sum_fresh(rows, j) as int,
        sum_fresh(rows, j + 1) as int,
    ) =~= batch_prefix(rows, shard_id, start, j + 1).subrange(
        sum_fresh(rows, j) as int,
        sum_fresh(rows, j + 1) as int,
    ));
}

/// Writing slot `f` changes only slot `f`, and no byte outside it.
pub proof fn lemma_write_slot(d: Seq<u8>, f: int, v: u64)
    requires
        0 <= f,
        offset_pos(f) + 8 <= d.len(),
    ensures
        write_u64_at(d, offset_pos(f), v).len() == d.len(),
        slot_value(write_u64_at(d, offset_pos(f), v), f) == v,
        forall|i: int|
            #![trigger slot_value(write_u64_at(d, offset_pos(f), v), i)]
            0 <= i && i != f && offset_pos(i) + 8 <= d.len() ==> slot_value(
                write_u64_at(d, offset_pos(f), v),
                i,
            ) == slot_value(d, i),
        forall|p: int|
            0 <= p < d.len() && (p < offset_pos(f) || p >= offset_pos(f) + 8) ==> #[trigger] write_u64_at(
                d,
                offset_pos(f),
                v,
            )[p] == d[p],
{
    lemma_le64(v);
    let w = write_u64_at(d, offset_pos(f), v);
    assert(w.subrange(offset_pos(f), offset_pos(f) + 8) =~= le64(v));
    assert forall|i: int|
        0 <= i && i != f && offset_pos(i) + 8 <= d.len() implies #[trigger] slot_value(w, i) == slot_value(d, i) by {
        assert(w.subrange(offset_pos(i), offset_pos(i) + 8) =~= d.subrange(offset_pos(i), offset_pos(i) + 8));
    }
}

} // verus!

verus! {

/// How many of `n` rows an insertion records: all of them, or as many as
/// there are free slots.
pub open spec fn recorded_rows(header: DataShardHeader, n: int) -> int {
    if n <= header.max_offsets - header.used() {
        n
    } else {
        header.max_offsets - header.used()
    }
}

/// The requirements of an insertion: every row's extra room can be computed,
/// and the grown file still has a size.
pub open spec fn insertable(shard_len: int, rows: Seq<(Seq<u8>, Seq<u8>)>) -> bool {
    &&& forall|j: int| 0 <= j < rows.len() ==> #[trigger] rows[j].0.len() * 3 <= usize::MAX
    &&& forall|j: int| 0 <= j < rows.len() ==> #[trigger] rows[j].1.len() == 16
    &&& shard_len + sum_fresh(rows, rows.len() as int) <= usize::MAX
}

impl DataShard {
    /// The encoding of a fresh item holding `item`, to be stored at `offset`.
    pub fn prepare_item_insert(&self, item: &[u8], item_id: UuidBytes, offset: usize) -> (r: Vec<u8>)
        requires
            item@.len() * 3 <= usize::MAX,
        ensures
            r@ == fresh_item_bytes(item@, item_id@, self.id@, offset as int),
    {
        let it = ShardItem::new(item, item_id, self.id, offset);
        let r = it.to_vec();
        assert(r@ =~= fresh_item_bytes(item@, item_id@, self.id@, offset as int));
        r
    }

    /// Appends the rows as fresh items and records them in the free slots, in
    /// order. All rows are written to the file; when the slots run out the
    /// rows past them are left unrecorded and `OutOfPositions` is returned.
    /// On success the result is the index of the last used slot.
    pub fn insert_item(&mut self, data: &[InsertItem]) -> (r: Result<u64, ShardErrors>)
        requires
            old(self).wf(),
            insertable(old(self).data@.len() as int, rows_view(data@)),
        ensures
            final(self).wf(),
            final(self).path@ == old(self).path@,
            final(self).id == old(self).id,
            final(self).header.max_offsets == old(self).header.max_offsets,
            final(self).header.max_offset_positions == old(self).header.max_offset_positions,
            final(self).header.id == old(self).header.id,
            final(self).header.last_offset_index == old(self).header.last_offset_index
                + recorded_rows(old(self).header, data@.len() as int),
            final(self).data@.len() == old(self).data@.len() + sum_fresh(rows_view(data@), data@.len() as int),
            final(self).data@.subrange(0, 32) == old(self).data@.subrange(0, 32),
            final(self).data@.subrange(
                old(self).header.max_offset_positions as int,
                final(self).data@.len() as int,
            ) == old(self).data@.subrange(
                old(self).header.max_offset_positions as int,
                old(self).data@.len() as int,
            ) + batch_prefix(rows_view(data@), old(self).id@, old(self).data@.len() as int, data@.len() as int),
            forall|i: int|
                0 <= i < old(self).header.max_offsets ==> #[trigger] slot_value(final(self).data@, i)
                    == if old(self).header.used() <= i < old(self).header.used() + recorded_rows(
                    old(self).header,
                    data@.len() as int,
                ) {
                    row_offset(rows_view(data@), old(self).data@.len() as int, i - old(self).header.used()) as u64
                } else {
                    slot_value(old(self).data@, i)
                },
            data@.len() <= old(self).header.max_offsets - old(self).header.used() ==> r == Ok::<u64, ShardErrors>(
                final(self).header.last_offset_index as u64,
            ),
            data@.len() > old(self).header.max_offsets - old(self).header.used() ==> r == Err::<u64, ShardErrors>(
                ShardErrors::OutOfPositions,
            ),
    {
        let ghost rows = rows_view(data@);
        let ghost old_self = *self;
        let n = data.len();
        let end_of_file = self.data.len();
        let ghost eof = end_of_file as int;
        let ghost sid = self.id@;
        let mut offsets: usize = end_of_file;
        let mut prepare_data: Vec<Vec<u8>> = Vec::new();
        let mut j: usize = 0;
        while j < n
            invariant
                n == data@.len(),
                rows == rows_view(data@),
                sid == self.id@,
                *self == old_self,
                insertable(eof, rows),
                j <= n,
                prepare_data@.len() == j,
                forall|k: int| 0 <= k < j ==> #[trigger] prepare_data@[k]@ == row_bytes(rows, sid, eof, k),
                offsets == eof + sum_fresh(rows, j as int),
            decreases n - j,
        {
            proof {
                lemma_sum_fresh_monotone(rows, j + 1, n as int);
                lemma_fresh_item(rows[j as int].0, rows[j as int].1, sid, offsets as int);
            }
            let insert = self.prepare_item_insert(data[j].data, data[j].uuid, offsets);
            offsets = offsets + insert.len();
            prepare_data.push(insert);
            j = j + 1;
        }
        let mut j: usize = 0;
        while j < n
            invariant
                n == data@.len(),
                rows == rows_view(data@),
                sid == self.id@,
                insertable(eof, rows),
                j <= n,
                prepare_data@.len() == n,
                forall|k: int| 0 <= k < n ==> #[trigger] prepare_data@[k]@ == row_bytes(rows, sid, eof, k),
                self.data@ == old_self.data@ + batch_prefix(rows, sid, eof, j as int),
                self.header == old_self.header,
                self.id == old_self.id,
                self.path == old_self.path,
            decreases n - j,
        {
            proof {
                lemma_batch_step(rows, sid, eof, j as int);
                lemma_batch_len(rows, sid, eof, j as int + 1);
                lemma_sum_fresh_monotone(rows, j + 1, n as int);
            }
            push_all(&mut self.data, prepare_data[j].as_slice());
            j = j + 1;
        }
        let ghost d2 = self.data@;
        proof {
            lemma_batch_len(rows, sid, eof, n as int);
            assert forall|i: int| 0 <= i < old_self.header.max_offsets implies #[trigger] slot_value(d2, i)
                == slot_value(old_self.data@, i) by {
                assert(d2.subrange(offset_pos(i), offset_pos(i) + 8) =~= old_self.data@.subrange(
                    offset_pos(i),
                    offset_pos(i) + 8,
                ));
            }
        }
        let mut curr_offset = end_of_file;
        let mut j: usize = 0;
        while j < n
            invariant
                n == data@.len(),
                rows == rows_view(data@),
                sid == self.id@,
                insertable(eof, rows),
                j <= n,
                prepare_data@.len() == n,
                forall|k: int| 0 <= k < n ==> #[trigger] prepare_data@[k]@ == row_bytes(rows, sid, eof, k),
                d2 == old_self.data@ + batch_prefix(rows, sid, eof, n as int),
                forall|i: int| 0 <= i < old_self.header.max_offsets ==> #[trigger] slot_value(d2, i)
                    == slot_value(old_self.data@, i),
                old_self == *old(self),
                old_self.wf(),
                eof == old_self.data@.len(),
                sid == old_self.id@,
                self.header.wf(),
                self.header.max_offsets == old_self.header.max_offsets,
                self.header.max_offset_positions == old_self.header.max_offset_positions,
                self.header.id == old_self.header.id,
                self.header.last_offset_index == old_self.header.last_offset_index + j,
                self.id == old_self.id,
                self.path == old_self.path,
                curr_offset == eof + sum_fresh(rows, j as int),
                self.data@.len() == d2.len(),
                forall|p: int|
                    0 <= p < d2.len() && (p < offset_pos(old_self.header.used()) || p >= offset_pos(
                        old_self.header.max_offsets as int,
                    )) ==> #[trigger] self.data@[p] == d2[p],
                forall|i: int|
                    0 <= i < old_self.header.max_offsets ==> #[trigger] slot_value(self.data@, i) == if old_self.header.used()
                        <= i < old_self.header.used() + j {
                        row_offset(rows, eof, i - old_self.header.used()) as u64
                    } else {
                        slot_value(d2, i)
                    },
            decreases n - j,
        {
            let ghost before = self.data@;
            match self.header.add_next_offset(curr_offset as u64, &mut self.data) {
                Err(_) => {
                    proof {
                        lemma_insert_keeps_wf(old_self, *self, rows, j as int);
                    }
                    return Err(ShardErrors::OutOfPositions);
                },
                Ok(()) => {},
            }
            proof {
                let f = old_self.header.used() + j;
                lemma_write_slot(before, f, curr_offset as u64);
                lemma_sum_fresh_monotone(rows, j + 1, n as int);
                lemma_fresh_item(rows[j as int].0, rows[j as int].1, sid, row_offset(rows, eof, j as int));
                assert forall|i: int|
                    0 <= i < old_self.header.max_offsets implies #[trigger] slot_value(self.data@, i) == if old_self.header.used()
                        <= i < old_self.header.used() + j + 1 {
                        row_offset(rows, eof, i - old_self.header.used()) as u64
                    } else {
                        slot_value(d2, i)
                    } by {
                    if i != f {
                        assert(slot_value(self.data@, i) == slot_value(before, i));
                    }
                }
            }
            curr_offset = curr_offset + prepare_data[j].len();
            j = j + 1;
        }
        proof {
            lemma_insert_keeps_wf(old_self, *self, rows, n as int);
        }
        assert(recorded_rows(old_self.header, n as int) == n);
        assert(forall|i: int|
                0 <= i < old_self.header.max_offsets ==> #[trigger] slot_value(self.data@, i)
                    == if old_self.header.used() <= i < old_self.header.used() + n {
                    row_offset(rows, eof, i - old_self.header.used()) as u64
                } else {
                    slot_value(d2, i)
                });
        Ok(self.header.get_last_offset_index() as u64)
    }
}

/// Where, within the batch of an insertion that recorded `k` rows, the bytes
/// read as row `j` end: at the next row, or at the end for the last recorded one.
pub open spec fn part_end(rows: Seq<(Seq<u8>, Seq<u8>)>, k: int, j: int) -> int {
    if j + 1 < k || k == rows.len() {
        sum_fresh(rows, j + 1) as int
    } else {
        sum_fresh(rows, rows.len() as int) as int
    }
}

/// What an insertion of `rows` that recorded `k` of them leaves, and that it is well formed.
pub proof fn lemma_insert_keeps_wf(old_s: DataShard, new_s: DataShard, rows: Seq<(Seq<u8>, Seq<u8>)>, k: int)
    requires
        old_s.wf(),
        insertable(old_s.data@.len() as int, rows),
        0 <= k <= rows.len(),
        k == rows.len() || old_s.header.used() + k == old_s.header.max_offsets,
        new_s.header.wf(),
        new_s.id == old_s.id,
        new_s.header.id == old_s.header.id,
        new_s.header.max_offsets == old_s.header.max_offsets,
        new_s.header.max_offset_positions == old_s.header.max_offset_positions,
        new_s.header.last_offset_index == old_s.header.last_offset_index + k,
        ({
            let d2 = old_s.data@ + batch_prefix(rows, old_s.id@, old_s.data@.len() as int, rows.len() as int);
            &&& new_s.data@.len() == d2.len()
            &&& forall|p: int|
                0 <= p < d2.len() && (p < offset_pos(old_s.header.used()) || p >= offset_pos(
                    old_s.header.max_offsets as int,
                )) ==> #[trigger] new_s.data@[p] == d2[p]
            &&& forall|i: int|
                0 <= i < old_s.header.max_offsets ==> #[trigger] slot_value(new_s.data@, i) == if old_s.header.used()
                    <= i < old_s.header.used() + k {
                    row_offset(rows, old_s.data@.len() as int, i - old_s.header.used()) as u64
                } else {
                    slot_value(d2, i)
                }
        }),
    ensures
        new_s.wf(),
        new_s.data@.subrange(0, 32) == old_s.data@.subrange(0, 32),
        new_s.data@.subrange(old_s.header.max_offset_positions as int, new_s.data@.len() as int)
            == old_s.data@.subrange(old_s.header.max_offset_positions as int, old_s.data@.len() as int)
            + batch_prefix(rows, old_s.id@, old_s.data@.len() as int, rows.len() as int),
        new_s.data@.len() == old_s.data@.len() + sum_fresh(rows, rows.len() as int),
{
    let l = old_s.data@.len() as int;
    let m = old_s.header.max_offset_positions as int;
    let u = old_s.header.used();
    let n = rows.len() as int;
    let id = old_s.id@;
    let b = batch_prefix(rows, id, l, n);
    let d2 = old_s.data@ + b;
    lemma_batch_len(rows, id, l, n);
    assert(new_s.data@.subrange(0, 32) =~= old_s.data@.subrange(0, 32)) by {
        assert forall|p: int| 0 <= p < 32 implies new_s.data@[p] == old_s.data@[p] by {
            assert(new_s.data@[p] == d2[p]);
        }
    }
    assert(new_s.data@.subrange(m, new_s.data@.len() as int) =~= old_s.data@.subrange(m, l) + b) by {
        assert forall|p: int| m <= p < new_s.data@.len() implies new_s.data@[p] == d2[p] by {}
    }
    // Every item range lies past the header, where the new file is `d2`.
    assert forall|s: int, e: int| m <= s <= e <= new_s.data@.len() implies #[trigger] new_s.data@.subrange(s, e)
        == d2.subrange(s, e) by {
        assert forall|p: int| s <= p < e implies new_s.data@[p] == d2[p] by {}
        assert(new_s.data@.subrange(s, e) =~= d2.subrange(s, e));
    }
    assert forall|i: int| 0 <= i < old_s.header.max_offsets implies #[trigger] slot_value(d2, i) == slot_value(
        old_s.data@,
        i,
    ) by {
        assert(d2.subrange(offset_pos(i), offset_pos(i) + 8) =~= old_s.data@.subrange(
            offset_pos(i),
            offset_pos(i) + 8,
        ));
    }
    assert forall|j: int| 0 <= j < k implies #[trigger] item_readable(
        b.subrange(sum_fresh(rows, j) as int, part_end(rows, k, j)),
    ) && sum_fresh(rows, j + 1) <= sum_fresh(rows, n) by {
        lemma_batch_part(rows, id, l, j, n);
        lemma_fresh_item(rows[j].0, rows[j].1, id, row_offset(rows, l, j));
        if !(j + 1 < k || k == n) {
            assert(b.subrange(sum_fresh(rows, j) as int, sum_fresh(rows, n) as int) =~= row_bytes(rows, id, l, j)
                + b.subrange(sum_fresh(rows, j + 1) as int, sum_fresh(rows, n) as int));
            lemma_readable_extend(row_bytes(rows, id, l, j), b.subrange(sum_fresh(rows, j + 1) as int, sum_fresh(rows, n) as int));
        }
    }
    assert forall|i: int| #![trigger new_s.item_start(i)] 0 <= i < new_s.header.used() implies {
        &&& new_s.header.max_offset_positions <= new_s.item_start(i) <= new_s.item_end(i) <= new_s.data@.len()
        &&& item_readable(new_s.item_bytes(i))
    } by {
        if i < u {
            assert(old_s.item_start(i) == new_s.item_start(i));
            if i < u - 1 {
                assert(old_s.item_end(i) == new_s.item_end(i));
                assert(d2.subrange(old_s.item_start(i), old_s.item_end(i)) =~= old_s.item_bytes(i));
            } else if k > 0 {
                assert(new_s.item_end(i) == l);
                assert(d2.subrange(old_s.item_start(i), old_s.item_end(i)) =~= old_s.item_bytes(i));
            } else {
                assert(new_s.item_end(i) == new_s.data@.len());
                assert(d2.subrange(old_s.item_start(i), new_s.item_end(i)) =~= old_s.item_bytes(i) + b);
                lemma_readable_extend(old_s.item_bytes(i), b);
            }
        } else {
            let j = i - u;
            lemma_sum_fresh_monotone(rows, j, j + 1);
            lemma_sum_fresh_monotone(rows, j + 1, n);
            if j + 1 < k {
                assert(new_s.item_end(i) == l + sum_fresh(rows, j + 1));
            } else {
                assert(new_s.item_end(i) == new_s.data@.len());
            }
            assert(d2.subrange(new_s.item_start(i), new_s.item_end(i)) =~= b.subrange(
                sum_fresh(rows, j) as int,
                part_end(rows, k, j),
            ));
        }
    }
    assert forall|i: int, j: int|
        #![trigger new_s.item_end(i), new_s.item_start(j)]
        (0 <= i && i < j && j < new_s.header.used()) implies (new_s.item_end(i) <= new_s.item_start(j)) by {
        lemma_insert_order(old_s, new_s, rows, k, i, j);
    }
}


proof fn lemma_insert_order(old_s: DataShard, new_s: DataShard, rows: Seq<(Seq<u8>, Seq<u8>)>, k: int, i: int, j: int)
    requires
        old_s.wf(),
        insertable(old_s.data@.len() as int, rows),
        0 <= k <= rows.len(),
        k == rows.len() || old_s.header.used() + k == old_s.header.max_offsets,
        new_s.header.wf(),
        new_s.id == old_s.id,
        new_s.header.id == old_s.header.id,
        new_s.header.max_offsets == old_s.header.max_offsets,
        new_s.header.max_offset_positions == old_s.header.max_offset_positions,
        new_s.header.last_offset_index == old_s.header.last_offset_index + k,
        ({
            let d2 = old_s.data@ + batch_prefix(rows, old_s.id@, old_s.data@.len() as int, rows.len() as int);
            &&& new_s.data@.len() == d2.len()
            &&& forall|p: int|
                0 <= p < d2.len() && (p < offset_pos(old_s.header.used()) || p >= offset_pos(
                    old_s.header.max_offsets as int,
                )) ==> #[trigger] new_s.data@[p] == d2[p]
            &&& forall|i: int|
                0 <= i < old_s.header.max_offsets ==> #[trigger] slot_value(new_s.data@, i) == if old_s.header.used()
                    <= i < old_s.header.used() + k {
                    row_offset(rows, old_s.data@.len() as int, i - old_s.header.used()) as u64
                } else {
                    slot_value(d2, i)
                }
        }),
        0 <= i < j < new_s.header.used(),
    ensures
        new_s.item_end(i) <= new_s.item_start(j),
{
    let l = old_s.data@.len() as int;
    let u = old_s.header.used();
    let n = rows.len() as int;
    let d2 = old_s.data@ + batch_prefix(rows, old_s.id@, old_s.data@.len() as int, rows.len() as int);
    lemma_batch_len(rows, old_s.id@, l, n);
    assert forall|i: int| 0 <= i < old_s.header.max_offsets implies #[trigger] slot_value(d2, i) == slot_value(
        old_s.data@,
        i,
    ) by {
        assert(d2.subrange(offset_pos(i), offset_pos(i) + 8) =~= old_s.data@.subrange(
            offset_pos(i),
            offset_pos(i) + 8,
        ));
    }
    if j < u {
        assert(old_s.item_start(i) == new_s.item_start(i));
        assert(old_s.item_start(j) == new_s.item_start(j));
        assert(slot_value(new_s.data@, i + 1) == slot_value(d2, i + 1));
        assert(old_s.item_end(i) == new_s.item_end(i));
        assert(old_s.item_end(i) <= old_s.item_start(j));
        assert(new_s.item_end(i) <= new_s.item_start(j));
    } else if i < u {
        lemma_sum_fresh_monotone(rows, 0, j - u);
        lemma_sum_fresh_monotone(rows, j - u, n);
        assert(new_s.item_start(j) == l + sum_fresh(rows, j - u));
        if i + 1 < u {
            assert(slot_value(new_s.data@, i + 1) == slot_value(d2, i + 1));
            assert(old_s.item_end(i) == new_s.item_end(i));
            assert(0 <= i < old_s.header.used());
            assert(old_s.header.max_offset_positions <= old_s.item_start(i) <= old_s.item_end(i) <= old_s.data@.len());
        } else {
            assert(slot_value(new_s.data@, i + 1) == l);
            assert(new_s.item_end(i) == l);
        }
        assert(new_s.item_end(i) <= new_s.item_start(j));
    } else {
        lemma_sum_fresh_monotone(rows, i - u + 1, j - u);
        lemma_sum_fresh_monotone(rows, j - u, n);
        lemma_sum_fresh_monotone(rows, i - u + 1, n);
        assert(new_s.item_start(j) == l + sum_fresh(rows, j - u));
        assert(slot_value(new_s.data@, i + 1) == l + sum_fresh(rows, i + 1 - u));
        assert(new_s.item_end(i) == l + sum_fresh(rows, i + 1 - u));
        assert(new_s.item_end(i) <= new_s.item_start(j));
    }
}

} // verus!

verus! {

/// What `insert_item` promises of a call: every row appended to the file,
/// and as many recorded in the free slots as `recorded_rows` says.
pub open spec fn inserted_rows(old_s: DataShard, new_s: DataShard, rows: Seq<(Seq<u8>, Seq<u8>)>) -> bool {
    let n = rows.len() as int;
    let k = recorded_rows(old_s.header, n);
    let l = old_s.data@.len() as int;
    let mop = old_s.header.max_offset_positions as int;
    &&& new_s.wf()
    &&& new_s.id == old_s.id
    &&& new_s.header.max_offsets == old_s.header.max_offsets
    &&& new_s.header.max_offset_positions == old_s.header.max_offset_positions
    &&& new_s.header.last_offset_index == old_s.header.last_offset_index + k
    &&& new_s.data@.len() == l + sum_fresh(rows, n)
    &&& new_s.data@.subrange(mop, new_s.data@.len() as int) == old_s.data@.subrange(mop, l)
        + batch_prefix(rows, old_s.id@, l, n)
    &&& forall|i: int|
        0 <= i < old_s.header.max_offsets ==> #[trigger] slot_value(new_s.data@, i) == if old_s.header.used()
            <= i < old_s.header.used() + k {
            row_offset(rows, l, i - old_s.header.used()) as u64
        } else {
            slot_value(old_s.data@, i)
        }
}

/// A data shard with at least one slot has room for another row exactly
/// when it holds fewer rows than it has slots. (A header with no slots at
/// all counts as having room while it holds no row, and is left out.)
pub proof fn lemma_data_has_space(s: DataShard)
    requires
        s.wf(),
        s.header.max_offsets > 0,
    ensures
        s.spec_has_space() == (match s.spec_capacity() {
            Some(c) => s.spec_items().len() < c,
            None => true,
        }),
{
}

/// Reading after an insertion: the recorded rows read back in order after
/// the items already there, which read as before. Where some rows find no
/// slot, the last item runs to the end of the file, over the rows left
/// unrecorded, and need not read as it was written.
pub proof fn lemma_insert_then_read(old_s: DataShard, new_s: DataShard, rows: Seq<(Seq<u8>, Seq<u8>)>)
    requires
        old_s.wf(),
        insertable(old_s.data@.len() as int, rows),
        inserted_rows(old_s, new_s, rows),
    ensures
        new_s.items().len() == old_s.items().len() + recorded_rows(old_s.header, rows.len() as int),
        forall|i: int|
            0 <= i < old_s.items().len() && (i + 1 < old_s.items().len() || recorded_rows(
                old_s.header,
                rows.len() as int,
            ) > 0 || rows.len() == 0) ==> #[trigger] new_s.items()[i] == old_s.items()[i],
        forall|j: int|
            0 <= j < recorded_rows(old_s.header, rows.len() as int) && (j + 1 < recorded_rows(
                old_s.header,
                rows.len() as int,
            ) || recorded_rows(old_s.header, rows.len() as int) == rows.len()) ==> #[trigger] new_s.items()[old_s.items().len()
                + j] == rows[j].0,
        forall|j: int|
            0 <= j < recorded_rows(old_s.header, rows.len() as int) && (j + 1 < recorded_rows(
                old_s.header,
                rows.len() as int,
            ) || recorded_rows(old_s.header, rows.len() as int) == rows.len()) ==> {
                &&& #[trigger] new_s.item_bytes(old_s.items().len() + j) == row_bytes(
                    rows,
                    old_s.id@,
                    old_s.data@.len() as int,
                    j,
                )
                &&& new_s.item_start(old_s.items().len() + j) == row_offset(rows, old_s.data@.len() as int, j)
            },
{
    let l = old_s.data@.len() as int;
    let mop = old_s.header.max_offset_positions as int;
    let u = old_s.header.used();
    let n = rows.len() as int;
    let k = recorded_rows(old_s.header, n);
    let id = old_s.id@;
    let b = batch_prefix(rows, id, l, n);
    lemma_batch_len(rows, id, l, n);
    assert forall|s: int, e: int| mop <= s <= e <= l implies #[trigger] new_s.data@.subrange(s, e)
        == old_s.data@.subrange(s, e) by {
        assert(new_s.data@.subrange(s, e) =~= new_s.data@.subrange(mop, new_s.data@.len() as int).subrange(
            s - mop,
            e - mop,
        ));
        assert(old_s.data@.subrange(s, e) =~= old_s.data@.subrange(mop, l).subrange(s - mop, e - mop));
    }
    assert forall|s: int, e: int| l <= s <= e <= new_s.data@.len() implies #[trigger] new_s.data@.subrange(s, e)
        == b.subrange(s - l, e - l) by {
        assert(new_s.data@.subrange(s, e) =~= new_s.data@.subrange(mop, new_s.data@.len() as int).subrange(
            s - mop,
            e - mop,
        ));
    }
    assert forall|i: int|
        0 <= i < old_s.items().len() && (i + 1 < old_s.items().len() || k > 0 || n == 0) implies #[trigger] new_s.items()[i]
            == old_s.items()[i] by {
        assert(old_s.header.max_offset_positions <= old_s.item_start(i) <= old_s.item_end(i) <= l);
        assert(new_s.item_start(i) == old_s.item_start(i));
        if i + 1 < u {
            assert(new_s.item_end(i) == old_s.item_end(i));
        } else if k > 0 {
            assert(slot_value(new_s.data@, i + 1) == l);
            assert(new_s.item_end(i) == l);
        } else {
            assert(new_s.item_end(i) == l);
        }
        assert(new_s.item_bytes(i) == old_s.item_bytes(i));
    }
    assert forall|j: int| 0 <= j < k && (j + 1 < k || k == n) implies {
        &&& #[trigger] new_s.item_bytes(old_s.items().len() + j) == row_bytes(rows, id, l, j)
        &&& new_s.item_start(old_s.items().len() + j) == row_offset(rows, l, j)
    } by {
        let i = u + j;
        lemma_batch_part(rows, id, l, j, n);
        lemma_sum_fresh_monotone(rows, j, j + 1);
        lemma_sum_fresh_monotone(rows, j + 1, n);
        lemma_fresh_item(rows[j].0, rows[j].1, id, row_offset(rows, l, j));
        assert(new_s.item_start(i) == l + sum_fresh(rows, j));
        if j + 1 < k {
            assert(slot_value(new_s.data@, i + 1) == l + sum_fresh(rows, j + 1));
        }
        assert(new_s.item_end(i) == l + sum_fresh(rows, j + 1));
        assert(new_s.item_bytes(i) == row_bytes(rows, id, l, j));
    }
    assert forall|j: int| 0 <= j < k && (j + 1 < k || k == n) implies #[trigger] new_s.items()[old_s.items().len() + j]
        == rows[j].0 by {
        assert(new_s.item_bytes(old_s.items().len() + j) == row_bytes(rows, id, l, j));
        lemma_sum_fresh_monotone(rows, j, n);
        lemma_fresh_item(rows[j].0, rows[j].1, id, row_offset(rows, l, j));
    }
}

/// Each recorded row of an insertion reads back as a raw item of this shard,
/// with the row's id, whose offset is where it starts, moved nowhere.
pub proof fn lemma_inserted_item_fields(old_s: DataShard, new_s: DataShard, rows: Seq<(Seq<u8>, Seq<u8>)>)
    requires
        old_s.wf(),
        insertable(old_s.data@.len() as int, rows),
        inserted_rows(old_s, new_s, rows),
    ensures
        forall|j: int|
            0 <= j < recorded_rows(old_s.header, rows.len() as int) && (j + 1 < recorded_rows(
                old_s.header,
                rows.len() as int,
            ) || recorded_rows(old_s.header, rows.len() as int) == rows.len()) ==> {
                let b = #[trigger] new_s.item_bytes(old_s.items().len() + j);
                &&& type_of_byte(b[0]) == ShardItemType::Raw
                &&& decoded_item_id(b) == rows[j].1
                &&& decoded_shard_id(b) == new_s.id@
                &&& decoded_offset(b) == new_s.item_start(old_s.items().len() + j)
                &&& decoded_moved_id(b) is None
            },
{
    lemma_insert_then_read(old_s, new_s, rows);
    let l = old_s.data@.len() as int;
    let n = rows.len() as int;
    let k = recorded_rows(old_s.header, n);
    assert forall|j: int| 0 <= j < k && (j + 1 < k || k == n) implies {
        let b = #[trigger] new_s.item_bytes(old_s.items().len() + j);
        &&& type_of_byte(b[0]) == ShardItemType::Raw
        &&& decoded_item_id(b) == rows[j].1
        &&& decoded_shard_id(b) == new_s.id@
        &&& decoded_offset(b) == new_s.item_start(old_s.items().len() + j)
        &&& decoded_moved_id(b) is None
    } by {
        assert(new_s.item_bytes(old_s.items().len() + j) == row_bytes(rows, old_s.id@, l, j));
        lemma_sum_fresh_monotone(rows, j, n);
        lemma_fresh_item_fields(rows[j].0, rows[j].1, old_s.id@, row_offset(rows, l, j));
    }
}

} // verus!

verus! {

/// The (start, index) pairs of the listed indexes whose slots are in use, in list order.
pub open spec fn listed_positions(s: DataShard, indexes: Seq<u64>) -> Seq<(u64, u64)>
    decreases indexes.len(),
{
    if indexes.len() == 0 {
        Seq::empty()
    } else {
        let rest = listed_positions(s, indexes.drop_last());
        let idx = indexes.last();
        if (idx as int) < s.header.used() {
            rest.push((s.item_start(idx as int) as u64, idx))
        } else {
            rest
        }
    }
}

/// Whether item `i` is among the listed indexes.
pub open spec fn is_listed(indexes: Seq<u64>, i: int) -> bool {
    exists|k: int| 0 <= k < indexes.len() && indexes[k] as int == i
}

pub proof fn lemma_listed_positions(s: DataShard, indexes: Seq<u64>)
    requires
        s.wf(),
    ensures
        forall|k: int|
            0 <= k < listed_positions(s, indexes).len() ==> {
                let (p, idx) = #[trigger] listed_positions(s, indexes)[k];
                &&& (idx as int) < s.header.used()
                &&& p as int == s.item_start(idx as int)
                &&& is_listed(indexes, idx as int)
            },
        forall|i: int|
            0 <= i < s.header.used() && is_listed(indexes, i) ==> exists|k: int|
                0 <= k < listed_positions(s, indexes).len() && #[trigger] listed_positions(s, indexes)[k].1
                    == i as u64,
    decreases indexes.len(),
{
    if indexes.len() > 0 {
        let rest = indexes.drop_last();
        lemma_listed_positions(s, rest);
        let lp = listed_positions(s, indexes);
        let lr = listed_positions(s, rest);
        assert forall|k: int| 0 <= k < lp.len() implies {
            let (p, idx) = #[trigger] lp[k];
            &&& (idx as int) < s.header.used()
            &&& p as int == s.item_start(idx as int)
            &&& is_listed(indexes, idx as int)
        } by {
            if k < lr.len() {
                assert(lp[k] == lr[k]);
                let idx = lr[k].1;
                let kk = choose|kk: int| 0 <= kk < rest.len() && rest[kk] as int == idx as int;
                assert(indexes[kk] == rest[kk]);
            } else {
                assert(indexes[indexes.len() - 1] == indexes.last());
                assert(s.header.max_offset_positions <= s.item_start(indexes.last() as int));
            }
        }
        assert forall|i: int| 0 <= i < s.header.used() && is_listed(indexes, i) implies exists|k: int|
            0 <= k < lp.len() && #[trigger] lp[k].1 == i as u64 by {
            let kk = choose|kk: int| 0 <= kk < indexes.len() && indexes[kk] as int == i;
            if kk < indexes.len() - 1 {
                assert(rest[kk] == indexes[kk]);
                assert(is_listed(rest, i));
                let k2 = choose|k2: int| 0 <= k2 < lr.len() && #[trigger] lr[k2].1 == i as u64;
                assert(lp[k2] == lr[k2]);
            } else {
                assert(lp[lr.len() as int].1 == i as u64);
            }
        }
    }
}

impl DataShard {
    /// The start and index of every listed item whose slot is in use.
    fn find_offsets_by_index(&self, indexes: &[u64]) -> (r: Vec<(u64, u64)>)
        requires
            self.wf(),
        ensures
            r@ == listed_positions(*self, indexes@),
    {
        let mut pos_to_modify: Vec<(u64, u64)> = Vec::new();
        let mut j: usize = 0;
        while j < indexes.len()
            invariant
                self.wf(),
                j <= indexes@.len(),
                pos_to_modify@ == listed_positions(*self, indexes@.subrange(0, j as int)),
            decreases indexes@.len() - j,
        {
            let index = indexes[j];
            proof {
                assert(indexes@.subrange(0, j + 1).drop_last() =~= indexes@.subrange(0, j as int));
            }
            if index < (self.header.last_offset_index + 1) as u64 {
                if let Ok(_) = self.read_item_from_index(index as usize) {
                    if let Some(off_in_header) = self.header.get_offset_pos_by_index(index as usize) {
                        if let Some(item_start_pos) = self.header.get_offset_value_from_offset_header(
                            &self.data,
                            off_in_header,
                        ) {
                            pos_to_modify.push((item_start_pos, index));
                        }
                    }
                }
            }
            j = j + 1;
        }
        assert(indexes@.subrange(0, indexes@.len() as int) =~= indexes@);
        pos_to_modify
    }

    /// Marks every listed item whose slot is in use as deleted: the first byte
    /// of its encoding becomes the `Deleted` type byte. Nothing else changes.
    pub fn remove_items(&mut self, indexes: &[u64]) -> (r: Result<(), ShardErrors>)
        requires
            old(self).wf(),
        ensures
            r is Ok,
            final(self).wf(),
            final(self).header == old(self).header,
            final(self).id == old(self).id,
            final(self).path@ == old(self).path@,
            final(self).data@.len() == old(self).data@.len(),
            forall|i: int|
                0 <= i < old(self).header.used() ==> #[trigger] final(self).item_bytes(i) == if is_listed(
                    indexes@,
                    i,
                ) {
                    old(self).item_bytes(i).update(0, type_byte(ShardItemType::Deleted))
                } else {
                    old(self).item_bytes(i)
                },
    {
        let ghost old_self = *self;
        let pos_to_modify = self.find_offsets_by_index(indexes);
        proof {
            lemma_listed_positions(old_self, indexes@);
        }
        let deleted = ShardItemType::Deleted.get_le_identifier();
        let dlen = self.data.len();
        let mut j: usize = 0;
        while j < pos_to_modify.len()
            invariant
                dlen == old_self.data@.len(),
                old_self.wf(),
                pos_to_modify@ == listed_positions(old_self, indexes@),
                forall|k: int|
                    0 <= k < pos_to_modify@.len() ==> {
                        let (p, idx) = #[trigger] pos_to_modify@[k];
                        &&& (idx as int) < old_self.header.used()
                        &&& p as int == old_self.item_start(idx as int)
                    },
                deleted@ == seq![1u8],
                j <= pos_to_modify@.len(),
                self.header == old_self.header,
                self.id == old_self.id,
                self.path == old_self.path,
                self.data@.len() == old_self.data@.len(),
                forall|p: int|
                    0 <= p < self.data@.len() ==> #[trigger] self.data@[p] == if exists|k: int|
                        0 <= k < j && pos_to_modify@[k].0 as int == p {
                        1u8
                    } else {
                        old_self.data@[p]
                    },
            decreases pos_to_modify@.len() - j,
        {
            let (pos, _) = pos_to_modify[j];
            proof {
                let idx = pos_to_modify@[j as int].1 as int;
                assert(old_self.header.max_offset_positions <= old_self.item_start(idx) <= old_self.item_end(idx) <= old_self.data@.len());
                lemma_le64(0);
            }
            let ghost before = self.data@;
            write_at(&mut self.data, deleted.as_slice(), pos as usize);
            proof {
                assert forall|p: int| 0 <= p < self.data@.len() implies #[trigger] self.data@[p] == if exists|k: int|
                    0 <= k < j + 1 && pos_to_modify@[k].0 as int == p {
                    1u8
                } else {
                    old_self.data@[p]
                } by {
                    assert(pos as int == (pos as usize) as int);
                    let pre = before.subrange(0, (pos as usize) as int);
                    let post = before.subrange((pos as usize) + 1, before.len() as int);
                    assert(self.data@ == pre + deleted@ + post);
                    if p == pos as int {
                        assert(pos_to_modify@[j as int].0 as int == p);
                        assert((pre + deleted@ + post)[p] == deleted@[0]);
                    } else {
                        if p < pos {
                            assert((pre + deleted@ + post)[p] == pre[p]);
                        } else {
                            assert((pre + deleted@ + post)[p] == post[p - pos - 1]);
                        }
                        assert(self.data@[p] == before[p]);
                        if exists|k: int| 0 <= k < j + 1 && pos_to_modify@[k].0 as int == p {
                            let k = choose|k: int| 0 <= k < j + 1 && pos_to_modify@[k].0 as int == p;
                            assert(k < j);
                        }
                    }
                }
            }
            j = j + 1;
        }
        proof {
            lemma_remove_effect(old_self, *self, indexes@, pos_to_modify@);
        }
        Ok(())
    }
}

proof fn lemma_remove_effect(old_s: DataShard, new_s: DataShard, indexes: Seq<u64>, lp: Seq<(u64, u64)>)
    requires
        old_s.wf(),
        lp == listed_positions(old_s, indexes),
        new_s.header == old_s.header,
        new_s.id == old_s.id,
        new_s.data@.len() == old_s.data@.len(),
        forall|p: int|
            0 <= p < new_s.data@.len() ==> #[trigger] new_s.data@[p] == if exists|k: int|
                0 <= k < lp.len() && lp[k].0 as int == p {
                1u8
            } else {
                old_s.data@[p]
            },
    ensures
        new_s.wf(),
        forall|i: int|
            0 <= i < old_s.header.used() ==> #[trigger] new_s.item_bytes(i) == if is_listed(indexes, i) {
                old_s.item_bytes(i).update(0, type_byte(ShardItemType::Deleted))
            } else {
                old_s.item_bytes(i)
            },
{
    lemma_listed_positions(old_s, indexes);
    let mop = old_s.header.max_offset_positions as int;
    // Slots lie below every written position, so they read as before.
    assert forall|i: int| 0 <= i < old_s.header.max_offsets implies #[trigger] slot_value(new_s.data@, i)
        == slot_value(old_s.data@, i) by {
        assert forall|p: int| offset_pos(i) <= p < offset_pos(i) + 8 implies new_s.data@[p] == old_s.data@[p] by {
            if exists|k: int| 0 <= k < lp.len() && lp[k].0 as int == p {
                let k = choose|k: int| 0 <= k < lp.len() && lp[k].0 as int == p;
                let idx = lp[k].1 as int;
                assert(mop <= old_s.item_start(idx));
            }
        }
        assert(new_s.data@.subrange(offset_pos(i), offset_pos(i) + 8) =~= old_s.data@.subrange(
            offset_pos(i),
            offset_pos(i) + 8,
        ));
    }
    assert forall|i: int| 0 <= i < old_s.header.used() implies #[trigger] new_s.item_bytes(i) == if is_listed(indexes, i) {
        old_s.item_bytes(i).update(0, type_byte(ShardItemType::Deleted))
    } else {
        old_s.item_bytes(i)
    } by {
        let st = old_s.item_start(i);
        let en = old_s.item_end(i);
        assert(mop <= st <= en <= old_s.data@.len());
        assert(item_readable(old_s.item_bytes(i)));
        assert(new_s.item_start(i) == st);
        if i + 1 < old_s.header.used() {
            assert(slot_value(new_s.data@, i + 1) == slot_value(old_s.data@, i + 1));
        }
        assert(new_s.item_end(i) == en);
        let expect = if is_listed(indexes, i) {
            old_s.item_bytes(i).update(0, type_byte(ShardItemType::Deleted))
        } else {
            old_s.item_bytes(i)
        };
        assert forall|q: int| 0 <= q < en - st implies new_s.item_bytes(i)[q] == expect[q] by {
            let p = st + q;
            if exists|k: int| 0 <= k < lp.len() && lp[k].0 as int == p {
                let k = choose|k: int| 0 <= k < lp.len() && lp[k].0 as int == p;
                let idx = lp[k].1 as int;
                if idx != i {
                    if idx < i {
                        assert(old_s.item_end(idx) <= old_s.item_start(i));
                        assert(old_s.item_start(idx) + 89 <= old_s.item_end(idx));
                    } else {
                        assert(old_s.item_end(i) <= old_s.item_start(idx));
                    }
                }
                assert(idx == i);
                assert(q == 0);
            } else if q == 0 && is_listed(indexes, i) {
                let k2 = choose|k2: int| 0 <= k2 < lp.len() && #[trigger] lp[k2].1 == i as u64;
                assert(lp[k2].0 as int == p);
            }
        }
        assert(new_s.item_bytes(i) =~= expect);
    }
    assert forall|i: int| #![trigger new_s.item_start(i)] 0 <= i < new_s.header.used() implies {
        &&& new_s.header.max_offset_positions <= new_s.item_start(i) <= new_s.item_end(i) <= new_s.data@.len()
        &&& item_readable(new_s.item_bytes(i))
    } by {
        assert(old_s.header.max_offset_positions <= old_s.item_start(i) <= old_s.item_end(i) <= old_s.data@.len());
        assert(item_readable(old_s.item_bytes(i)));
        let ob = old_s.item_bytes(i);
        let nb = new_s.item_bytes(i);
        assert(new_s.item_start(i) == old_s.item_start(i));
        if i + 1 < old_s.header.used() {
            assert(slot_value(new_s.data@, i + 1) == slot_value(old_s.data@, i + 1));
        }
        if is_listed(indexes, i) {
            assert(nb.subrange(57, 65) =~= ob.subrange(57, 65));
            assert(nb.subrange(49, 57) =~= ob.subrange(49, 57));
        }
    }
    assert forall|i: int, j: int|
        #![trigger new_s.item_end(i), new_s.item_start(j)]
        0 <= i < j < new_s.header.used() implies new_s.item_end(i) <= new_s.item_start(j) by {
        assert(old_s.item_end(i) <= old_s.item_start(j));
        if i + 1 < old_s.header.used() {
            assert(slot_value(new_s.data@, i + 1) == slot_value(old_s.data@, i + 1));
        }
    }
}

} // verus!

verus! {

/// Item slots of a data shard made with `opts`.
pub open spec fn config_slots(opts: DataShardConfig) -> u64 {
    match opts.max_offsets {
        Some(m) => m,
        None => DEFAULT_MAX_OFFSETS,
    }
}

/// The index of the last used slot that a data shard file records.
pub open spec fn file_last_index(file: Seq<u8>) -> i64 {
    from_le64(file.subrange(8, 16)) as i64
}

/// Where item `i` of a data shard file ends: where the next used slot
/// points, or the end of the file for the last one.
pub open spec fn file_item_end(file: Seq<u8>, i: int) -> int {
    if i < file_last_index(file) {
        slot_value(file, i + 1) as int
    } else {
        file.len() as int
    }
}

/// A data shard file from which a well-formed shard is read: its slot count
/// fits, its used slots are within that count and within the file, and each
/// used slot points past the slots at a readable item that runs to where the
/// next one starts.
pub open spec fn data_file_ok(file: Seq<u8>) -> bool {
    let m = from_le64(file.subrange(0, 8));
    let last = file_last_index(file);
    &&& offset_pos(m as int) <= usize::MAX
    &&& -1 <= last
    &&& last + 1 <= m
    &&& file.len() >= offset_pos(m as int)
    &&& forall|i: int|
        0 <= i < last + 1 ==> {
            &&& offset_pos(m as int) <= #[trigger] slot_value(file, i) <= file_item_end(file, i) <= file.len()
            &&& item_readable(file.subrange(slot_value(file, i) as int, file_item_end(file, i)))
        }
}

/// Items that run each to where the next starts are in order.
proof fn lemma_items_in_order(file: Seq<u8>, n: int)
    requires
        forall|i: int| 0 <= i < n ==> #[trigger] slot_value(file, i) <= file_item_end(file, i),
        forall|i: int| 0 <= i < n - 1 ==> #[trigger] file_item_end(file, i) == slot_value(file, i + 1),
    ensures
        forall|i: int, j: int| 0 <= i < j < n ==> #[trigger] file_item_end(file, i) <= #[trigger] slot_value(file, j),
    decreases n,
{
    if n > 1 {
        lemma_items_in_order(file, n - 1);
        assert forall|i: int, j: int| 0 <= i < j < n implies #[trigger] file_item_end(file, i) <= #[trigger] slot_value(
            file,
            j,
        ) by {
            if j < n - 1 {
            } else if i < j - 1 {
                assert(file_item_end(file, i) <= slot_value(file, j - 1));
                assert(slot_value(file, j - 1) <= file_item_end(file, j - 1));
                assert(file_item_end(file, j - 1) == slot_value(file, j));
            } else {
                assert(file_item_end(file, j - 1) == slot_value(file, j));
            }
        }
    }
}

/// A shard read from a well-formed data shard file, with the header the
/// file starts with, is well formed.
proof fn lemma_file_ok_wf(s: DataShard)
    requires
        data_file_ok(s.data@),
        s.header.max_offsets == from_le64(s.data@.subrange(0, 8)),
        s.header.max_offset_positions == offset_pos(s.header.max_offsets as int),
        s.header.last_offset_index == file_last_index(s.data@),
        s.header.id == s.id,
    ensures
        s.wf(),
{
    let file = s.data@;
    let n = s.header.last_offset_index + 1;
    assert forall|i: int| 0 <= i < n implies #[trigger] slot_value(file, i) <= file_item_end(file, i) by {
        assert(offset_pos(s.header.max_offsets as int) <= slot_value(file, i) <= file_item_end(file, i));
    }
    assert forall|i: int| 0 <= i < n - 1 implies #[trigger] file_item_end(file, i) == slot_value(file, i + 1) by {}
    lemma_items_in_order(file, n);
    assert forall|i: int|
        #![trigger s.item_start(i)]
        0 <= i < s.header.used() implies {
            &&& s.header.max_offset_positions <= s.item_start(i) <= s.item_end(i) <= s.data@.len()
            &&& item_readable(s.item_bytes(i))
        } by {
        assert(s.item_start(i) == slot_value(file, i));
        assert(s.item_end(i) == file_item_end(file, i));
        assert(offset_pos(s.header.max_offsets as int) <= slot_value(file, i) <= file_item_end(file, i) <= file.len());
    }
    assert forall|i: int, j: int|
        #![trigger s.item_end(i), s.item_start(j)]
        0 <= i < j < s.header.used() implies s.item_end(i) <= s.item_start(j) by {
        assert(s.item_end(i) == file_item_end(file, i));
        assert(s.item_start(j) == slot_value(file, j));
        assert(file_item_end(file, i) <= slot_value(file, j));
    }
}

/// Whether a non-empty data shard file can be opened: its header can be
/// read and it is a well-formed data shard file.
pub fn data_file_openable(file: &[u8]) -> (r: bool)
    ensures
        r == (header_readable(file@) && data_file_ok(file@)),
{
    if file.len() < FIXED_HEADER_LEN {
        return false;
    }
    let m = decode_u64(&file[0..8]);
    let limit: u64 = ((usize::MAX - 32) / 8) as u64;
    if m > limit {
        proof {
            assert(offset_pos(m as int) > usize::MAX) by (nonlinear_arith)
                requires
                    m > (usize::MAX - 32) / 8,
                    usize::MAX >= 32,
            ;
        }
        return false;
    }
    proof {
        assert(offset_pos(m as int) <= usize::MAX) by (nonlinear_arith)
            requires
                m <= (usize::MAX - 32) / 8,
                usize::MAX >= 32,
        ;
    }
    let pos: usize = 32 + 8 * (m as usize);
    let last = decode_u64(&file[8..16]) as i64;
    assert(last == file_last_index(file@));
    if last < -1 || (last as i128) + 1 > m as i128 {
        return false;
    }
    if file.len() < pos {
        return false;
    }
    let n: usize = (last + 1) as usize;
    let mut i: usize = 0;
    while i < n
        invariant
            i <= n,
            n == last + 1,
            last == file_last_index(file@),
            -1 <= last,
            last + 1 <= m,
            m == from_le64(file@.subrange(0, 8)),
            pos == offset_pos(m as int),
            pos <= file@.len(),
            pos <= usize::MAX,
            forall|k: int|
                0 <= k < i ==> {
                    &&& offset_pos(m as int) <= #[trigger] slot_value(file@, k) <= file_item_end(file@, k) <= file@.len()
                    &&& item_readable(file@.subrange(slot_value(file@, k) as int, file_item_end(file@, k)))
                },
        decreases n - i,
    {
        let sp: usize = 32 + 8 * i;
        assert(sp + 8 <= pos);
        let start = decode_u64(&file[sp..sp + 8]);
        assert(file@.subrange(sp as int, sp + 8) == file@.subrange(offset_pos(i as int), offset_pos(i as int) + 8));
        assert(start == slot_value(file@, i as int));
        let end: u64 = if (i as i64) < last {
            let sp2: usize = 32 + 8 * (i + 1);
            assert(file@.subrange(sp2 as int, sp2 + 8) == file@.subrange(offset_pos(i + 1), offset_pos(i + 1) + 8));
            decode_u64(&file[sp2..sp2 + 8])
        } else {
            file.len() as u64
        };
        assert(end == file_item_end(file@, i as int));
        if start < pos as u64 || start > end || end > file.len() as u64 {
            return false;
        }
        let item = &file[start as usize..end as usize];
        assert(item@ == file@.subrange(slot_value(file@, i as int) as int, file_item_end(file@, i as int)));
        if !item_readable_check(item) {
            return false;
        }
        i = i + 1;
    }
    true
}

/// Whether an item's bytes can be read as an item.
fn item_readable_check(s: &[u8]) -> (r: bool)
    ensures
        r == item_readable(s@),
{
    if s.len() < ITEM_HEADER_LEN {
        return false;
    }
    if s[0] > 2 {
        return false;
    }
    let max = decode_u64(&s[57..65]);
    let used = decode_u64(&s[49..57]);
    let max_u = max as usize;
    let used_u = used as usize;
    if max_u > s.len() {
        return false;
    }
    if used_u > max_u {
        return false;
    }
    if s.len() - ITEM_HEADER_LEN < max_u {
        return false;
    }
    true
}

/// The rows of a data shard file: for each used slot, in order, the used
/// data of the item the slot points at, an item running to where the next
/// used slot points and the last one to the end of the file.
pub open spec fn data_file_rows(file: Seq<u8>) -> Seq<Seq<u8>> {
    let last = from_le64(file.subrange(8, 16)) as i64;
    Seq::new(
        (last + 1) as nat,
        |i: int|
            used_data(
                file.subrange(
                    slot_value(file, i) as int,
                    if i < last {
                        slot_value(file, i + 1) as int
                    } else {
                        file.len() as int
                    },
                ),
            ),
    )
}

/// Rows without their item ids, paired with the nil id.
pub open spec fn unnamed_rows(rows: Seq<Seq<u8>>) -> Seq<(Seq<u8>, Seq<u8>)> {
    Seq::new(rows.len(), |j: int| (rows[j], nil_bytes()))
}

/// The encoded length of rows depends on their data alone.
pub proof fn lemma_sum_fresh_same(a: Seq<(Seq<u8>, Seq<u8>)>, b: Seq<(Seq<u8>, Seq<u8>)>, j: int)
    requires
        0 <= j <= a.len(),
        a.len() == b.len(),
        forall|k: int| 0 <= k < a.len() ==> #[trigger] a[k].0.len() == b[k].0.len(),
    ensures
        sum_fresh(a, j) == sum_fresh(b, j),
    decreases j,
{
    if j > 0 {
        lemma_sum_fresh_same(a, b, j - 1);
        assert(a[j - 1].0.len() == b[j - 1].0.len());
    }
}

/// The encoded length of a run of rows is what the run adds to the total.
pub proof fn lemma_sum_fresh_window(a: Seq<(Seq<u8>, Seq<u8>)>, b: Seq<(Seq<u8>, Seq<u8>)>, i: int, k: int)
    requires
        0 <= i,
        0 <= k <= b.len(),
        i + b.len() <= a.len(),
        forall|m: int| 0 <= m < b.len() ==> #[trigger] b[m].0.len() == a[i + m].0.len(),
    ensures
        sum_fresh(b, k) == sum_fresh(a, i + k) - sum_fresh(a, i),
    decreases k,
{
    if k > 0 {
        lemma_sum_fresh_window(a, b, i, k - 1);
        assert(b[k - 1].0.len() == a[i + k - 1].0.len());
    }
}

/// Whether rows, each with room for three times its length, appended as
/// fresh items to `base` bytes, still leave a size.
pub fn rows_fit_after(base: usize, rows: &[&[u8]]) -> (r: bool)
    ensures
        r == ({
            &&& forall|j: int| 0 <= j < rows@.len() ==> #[trigger] slices_view(rows@)[j].len() * 3 <= usize::MAX
            &&& base + sum_fresh(unnamed_rows(slices_view(rows@)), rows@.len() as int) <= usize::MAX
        }),
{
    let ghost u = unnamed_rows(slices_view(rows@));
    let mut total: usize = base;
    let mut j: usize = 0;
    while j < rows.len()
        invariant
            j <= rows@.len(),
            u == unnamed_rows(slices_view(rows@)),
            total == base + sum_fresh(u, j as int),
            forall|k: int| 0 <= k < j ==> #[trigger] slices_view(rows@)[k].len() * 3 <= usize::MAX,
        decreases rows@.len() - j,
    {
        let len = rows[j].len();
        assert(u[j as int].0.len() == len);
        if len > usize::MAX / 3 {
            assert(slices_view(rows@)[j as int].len() * 3 > usize::MAX);
            return false;
        }
        let extra: usize = if len > 2048 || len * 3 > 2048 {
            2048
        } else {
            len * 3
        };
        let fresh = 89 + len + extra;
        if total > usize::MAX - fresh {
            proof {
                lemma_sum_fresh_monotone(u, j + 1, rows@.len() as int);
            }
            return false;
        }
        total = total + fresh;
        j = j + 1;
    }
    true
}

impl ShardConfig for DataShardConfig {}

impl Shard<DataShardConfig> for DataShard {
    open spec fn inv(&self) -> bool {
        self.wf()
    }

    open spec fn spec_items(&self) -> Seq<Seq<u8>> {
        self.items()
    }

    open spec fn spec_path(&self) -> Seq<char> {
        self.path@
    }

    open spec fn spec_id(&self) -> Seq<u8> {
        self.id@
    }

    open spec fn spec_capacity(&self) -> Option<nat> {
        Some(self.header.max_offsets as nat)
    }

    open spec fn spec_has_space(&self) -> bool {
        self.header.spec_has_space()
    }

    open spec fn spec_breaking_point(&self) -> Option<u64> {
        Some(self.header.max_offsets)
    }

    open spec fn config_capacity(opts: DataShardConfig) -> Option<nat> {
        Some(config_slots(opts) as nat)
    }

    open spec fn config_breaking_point(opts: DataShardConfig) -> Option<u64> {
        Some(config_slots(opts))
    }

    open spec fn file_capacity(file: Seq<u8>) -> Option<nat> {
        Some(from_le64(file.subrange(0, 8)) as nat)
    }

    open spec fn file_breaking_point(file: Seq<u8>) -> Option<u64> {
        Some(from_le64(file.subrange(0, 8)))
    }

    open spec fn file_id(file: Seq<u8>) -> Seq<u8> {
        le_layout(file.subrange(16, 32))
    }

    open spec fn openable(file: Seq<u8>, opts: DataShardConfig) -> bool {
        &&& offset_pos(config_slots(opts) as int) <= usize::MAX
        &&& file.len() != 0 ==> header_readable(file) && data_file_ok(file)
    }

    open spec fn accepts(&self, rows: Seq<Seq<u8>>) -> bool {
        &&& forall|j: int| 0 <= j < rows.len() ==> #[trigger] rows[j].len() * 3 <= usize::MAX
        &&& self.data@.len() + sum_fresh(unnamed_rows(rows), rows.len() as int) <= usize::MAX
    }

    open spec fn fresh_accepts(opts: DataShardConfig, rows: Seq<Seq<u8>>) -> bool {
        &&& forall|j: int| 0 <= j < rows.len() ==> #[trigger] rows[j].len() * 3 <= usize::MAX
        &&& offset_pos(config_slots(opts) as int) + sum_fresh(unnamed_rows(rows), rows.len() as int) <= usize::MAX
    }

    proof fn lemma_accepts_subrange(&self, rows: Seq<Seq<u8>>, i: int, j: int) {
        let sub = rows.subrange(i, j);
        assert forall|k: int| 0 <= k < sub.len() implies #[trigger] sub[k].len() * 3 <= usize::MAX by {
            assert(sub[k] == rows[i + k]);
        }
        lemma_sum_fresh_window(unnamed_rows(rows), unnamed_rows(sub), i, j - i);
        lemma_sum_fresh_monotone(unnamed_rows(rows), 0, i);
        lemma_sum_fresh_monotone(unnamed_rows(rows), j, rows.len() as int);
    }

    proof fn lemma_fresh_accepts_subrange(opts: DataShardConfig, rows: Seq<Seq<u8>>, i: int, j: int) {
        let sub = rows.subrange(i, j);
        assert forall|k: int| 0 <= k < sub.len() implies #[trigger] sub[k].len() * 3 <= usize::MAX by {
            assert(sub[k] == rows[i + k]);
        }
        lemma_sum_fresh_window(unnamed_rows(rows), unnamed_rows(sub), i, j - i);
        lemma_sum_fresh_monotone(unnamed_rows(rows), 0, i);
        lemma_sum_fresh_monotone(unnamed_rows(rows), j, rows.len() as int);
    }

    proof fn lemma_sizes(&self) {
    }

    /// The rows that find a free slot.
    open spec fn recorded(&self, n: nat) -> nat {
        recorded_rows(self.header, n as int) as nat
    }

    proof fn lemma_recorded(&self, n: nat) {
    }

    open spec fn fresh_recorded(opts: DataShardConfig, n: nat) -> nat {
        if n <= config_slots(opts) {
            n
        } else {
            config_slots(opts) as nat
        }
    }

    open spec fn readable(&self, index: int) -> bool {
        true
    }

    fn file_within_capacity(file: &[u8], opts: DataShardConfig) -> (r: bool) {
        // A readable header uses no more slots than it has.
        true
    }

    fn file_openable(file: &[u8], opts: DataShardConfig) -> (r: bool) {
        let m = match opts.max_offsets {
            Some(m) => m,
            None => DEFAULT_MAX_OFFSETS,
        };
        let limit: u64 = ((usize::MAX - 32) / 8) as u64;
        if m > limit {
            proof {
                assert(offset_pos(m as int) > usize::MAX) by (nonlinear_arith)
                    requires
                        m > (usize::MAX - 32) / 8,
                        usize::MAX >= 32,
                ;
            }
            return false;
        }
        proof {
            assert(offset_pos(m as int) <= usize::MAX) by (nonlinear_arith)
                requires
                    m <= (usize::MAX - 32) / 8,
                    usize::MAX >= 32,
            ;
        }
        file.len() == 0 || data_file_openable(file)
    }

    open spec fn file_items(file: Seq<u8>) -> Seq<Seq<u8>> {
        data_file_rows(file)
    }

    open spec fn reported_index(len: nat) -> u64 {
        (len - 1) as i64 as u64
    }

    fn takes(&self, rows: &[&[u8]]) -> (r: bool) {
        rows_fit_after(self.data.len(), rows)
    }

    fn fresh_takes(opts: DataShardConfig, rows: &[&[u8]]) -> (r: bool) {
        let slots: u64 = match opts.max_offsets {
            Some(m) => m,
            None => DEFAULT_MAX_OFFSETS,
        };
        rows_fit_after(32 + 8 * (slots as usize), rows)
    }

    fn report_for(len: usize) -> (r: u64) {
        ((len as i128 - 1) as i64) as u64
    }

    fn config_room(opts: DataShardConfig) -> (r: Option<usize>) {
        let slots: u64 = match opts.max_offsets {
            Some(m) => m,
            None => DEFAULT_MAX_OFFSETS,
        };
        Some(slots as usize)
    }

    fn config_split(opts: DataShardConfig) -> (r: Option<u64>) {
        let slots: u64 = match opts.max_offsets {
            Some(m) => m,
            None => DEFAULT_MAX_OFFSETS,
        };
        Some(slots)
    }

    /// Opens the shard stored in `file` at `path`; an empty file gets a new
    /// header with the configured number of slots and the given or a fresh id.
    fn new(path: String, file: Vec<u8>, opts: DataShardConfig, uuid: Option<UuidBytes>) -> (r: Self)
        ensures
            r.id == r.header.id,
            file@.len() == 0 ==> {
                &&& r.header.last_offset_index == -1
                &&& r.header.max_offsets == config_slots(opts)
                &&& r.data@ == header_encoding(r.header.max_offsets, -1i64, r.id@)
            },
            file@.len() != 0 ==> {
                &&& r.data@ == file@
                &&& r.header.max_offsets == from_le64(file@.subrange(0, 8))
                &&& r.header.max_offset_positions == offset_pos(r.header.max_offsets as int)
                &&& r.header.last_offset_index == from_le64(file@.subrange(8, 16)) as i64
                &&& r.id@ == le_layout(file@.subrange(16, 32))
            },
    {
        let mut data = file;
        let header = DataShardHeader::new_from_file(&mut data, opts.max_offsets, uuid);
        proof {
            if file@.len() == 0 {
                lemma_le64(header.max_offsets);
                lemma_le64((-1i64) as u64);
                lemma_le_layout(header.id@);
                assert(data@.len() == offset_pos(header.max_offsets as int));
            }
        }
        let r = DataShard { path, id: header.id, header, data };
        proof {
            if file@.len() != 0 {
                lemma_file_ok_wf(r);
                assert(r.items() =~= data_file_rows(file@));
            }
            assert(file@.len() == 0 ==> r.items() =~= Seq::<Seq<u8>>::empty());
        }
        r
    }

    /// Whether a slot is free.
    fn has_space(&self) -> (r: bool) {
        self.header.has_space()
    }

    /// A data shard may split once its slots are used up.
    fn breaking_point(&self) -> (r: Option<u64>) {
        Some(self.header.get_max_offsets())
    }

    fn get_path(&self) -> (r: String) {
        self.path.clone()
    }

    fn get_last_index(&self) -> (r: i64) {
        self.header.get_last_offset_index()
    }

    /// The data of item `index`; an index whose slot is not in use gives
    /// `UnknownOffset`.
    fn read_item_from_index(&self, index: usize) -> (r: Result<Vec<u8>, ShardErrors>) {
        match DataShard::read_item_from_index(self, index) {
            Ok(item) => {
                proof {
                    let s = self.item_bytes(index as int);
                    assert(item_readable(s));
                    assert(item.data@.len() == decoded_max_size(s));
                }
                Ok(crate::bytes::slice_to_vec(item.get_used_data()))
            },
            Err(e) => Err(e),
        }
    }

    /// Number of free slots.
    fn available_space(&self) -> (r: AvailableSpace) {
        AvailableSpace::Fixed(self.header.available_space())
    }

    /// Appends the rows as fresh items, each under a fresh item id.
    fn insert_item(&mut self, data: &[&[u8]]) -> (r: Result<u64, ShardErrors>) {
        let ghost old_s = *self;
        let ghost wanted = slices_view(data@);
        let mut rows: Vec<InsertItem> = Vec::new();
        let mut j: usize = 0;
        while j < data.len()
            invariant
                j <= data@.len(),
                rows@.len() == j,
                forall|k: int| 0 <= k < j ==> (#[trigger] rows@[k]).data@ == data@[k]@,
            decreases data@.len() - j,
        {
            rows.push(InsertItem::new(data[j], new_uuid_v4()));
            j = j + 1;
        }
        let ghost named = rows_view(rows@);
        proof {
            assert forall|k: int| 0 <= k < named.len() implies #[trigger] named[k].0.len() == unnamed_rows(
                wanted,
            )[k].0.len() by {
                assert(rows@[k].data@ == data@[k]@);
            }
            lemma_sum_fresh_same(named, unnamed_rows(wanted), named.len() as int);
            assert forall|k: int| 0 <= k < named.len() implies #[trigger] named[k].1.len() == 16 by {
                assert(rows@[k].uuid@.len() == 16);
            }
            assert forall|k: int| 0 <= k < named.len() implies #[trigger] named[k].0.len() * 3 <= usize::MAX by {
                assert(named[k].0 == wanted[k]);
            }
        }
        let r = DataShard::insert_item(self, rows.as_slice());
        proof {
            lemma_insert_then_read(old_s, *self, named);
            let n0 = old_s.items().len() as int;
            let k = recorded_rows(old_s.header, named.len() as int);
            let all = old_s.items() + wanted;
            assert forall|i: int| 0 <= i < self.items().len() - 1 implies #[trigger] self.items()[i] == all[i] by {
                if i >= n0 {
                    let j = i - n0;
                    assert(j + 1 < k);
                    assert(self.items()[n0 + j] == named[j].0);
                    assert(rows@[j].data@ == data@[j]@);
                } else {
                    assert(i + 1 < n0 || k > 0);
                }
            }
            if k == named.len() {
                assert forall|i: int| 0 <= i < self.items().len() implies #[trigger] self.items()[i] == all[i] by {
                    if i >= n0 {
                        assert(self.items()[n0 + (i - n0)] == named[i - n0].0);
                        assert(rows@[i - n0].data@ == data@[i - n0]@);
                    }
                }
                assert(self.items() =~= all);
            }
        }
        r
    }

    /// The text form of the shard id.
    fn get_id(&self) -> (r: String) {
        uuid_to_string(&self.id)
    }
}

} // verus!
