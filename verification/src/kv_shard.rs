//! Key/value shards: a fixed header followed by fixed-size values.
//!
//! The header holds the capacity (`u64`, 0 for none), the number of values
//! (`u64`), the value size (`u64`) and the shard id (little-endian UUID bytes).
use vstd::prelude::*;
use crate::bytes::{
    le64, from_le64, lemma_le64, push_all, encode_u64, decode_u64, to_array16, slice_to_vec,
    U64_SIZE,
};
use crate::ids::{
    UuidBytes, le_layout, lemma_le_layout, uuid_to_bytes_le, uuid_from_bytes_le, new_uuid_v4,
    uuid_to_string, UUID_BYTE_LEN,
};
use crate::errors::ShardErrors;
use crate::config::KvShardConfig;
use crate::data_shard_header::write_at;
use crate::shard::{AvailableSpace, Shard, ShardConfig, slices_view};

verus! {

/// Size of the header of a key/value shard file.
pub open spec fn kv_header_size() -> int {
    40
}

/// The values of a key/value shard file: as many as its header counts, each
/// of the value size its header gives, one after the other past the header.
pub open spec fn kv_file_values(file: Seq<u8>) -> Seq<Seq<u8>> {
    let value_size = (from_le64(file.subrange(24, 32)) as usize) as int;
    Seq::new(
        from_le64(file.subrange(8, 16)) as nat,
        |i: int| file.subrange(element_offset(i, value_size), element_offset(i + 1, value_size)),
    )
}

/// Position of value `index` in a key/value shard file.
pub open spec fn element_offset(index: int, value_size: int) -> int {
    kv_header_size() + index * value_size
}

/// Position of value `index` in a key/value shard file.
pub fn get_element_offset(index: usize, value_size: usize) -> (r: usize)
    requires
        element_offset(index as int, value_size as int) <= usize::MAX,
    ensures
        r == element_offset(index as int, value_size as int),
{
    let index_header_size = KvShardHeader::header_size();
    proof {
        assert(0 <= index * value_size) by (nonlinear_arith);
    }
    index_header_size + (index * value_size)
}

/// The bytes of a new key/value header.
pub open spec fn kv_header_encoding(max_capacity: u64, items_len: u64, value_size: u64, id: Seq<u8>) -> Seq<u8> {
    le64(max_capacity) + le64(items_len) + le64(value_size) + le_layout(id)
}

#[derive(Debug)]
pub struct KvShardHeader {
    pub max_capacity: Option<u64>,
    pub items_len: u64,
    pub value_size: u64,
    pub id: UuidBytes,
}

impl KvShardHeader {
    pub fn new(items_len: u64, max_capacity: Option<u64>, value_size: u64, uuid: Option<UuidBytes>) -> (r: Self)
        ensures
            r.items_len == items_len,
            r.max_capacity == max_capacity,
            r.value_size == value_size,
            uuid matches Some(u) ==> r.id == u,
    {
        let id = match uuid {
            Some(u) => u,
            None => new_uuid_v4(),
        };
        Self { items_len, max_capacity, id, value_size }
    }

    /// Opens the header of `file`: an empty file gets a new header (with the
    /// given count, or zero), otherwise the header is read from the file. The
    /// value size is read from the eight bytes at position 24 and the id from
    /// the sixteen bytes at position 32. A new header writes them one field
    /// earlier (the value size at 16..24, the id at 24..40), so a header
    /// written here and read back gives the value size from the id's bytes.
    pub fn new_from_file(
        file: &mut Vec<u8>,
        uuid: Option<UuidBytes>,
        items_len: Option<u64>,
        max_capacity: Option<u64>,
        value_size: u64,
    ) -> (r: Self)
        requires
            old(file)@.len() != 0 ==> old(file)@.len() >= 48,
        ensures
            old(file)@.len() == 0 ==> {
                &&& r.items_len == match items_len {
                    Some(n) => n,
                    None => 0,
                }
                &&& r.max_capacity == max_capacity
                &&& r.value_size == value_size
                &&& (uuid matches Some(u) ==> r.id == u)
                &&& final(file)@ == kv_header_encoding(
                    match max_capacity {
                        Some(m) => m,
                        None => 0,
                    },
                    r.items_len,
                    value_size,
                    r.id@,
                )
            },
            old(file)@.len() != 0 ==> {
                &&& final(file)@ == old(file)@
                &&& r.max_capacity == Some(from_le64(old(file)@.subrange(0, 8)))
                &&& r.items_len == from_le64(old(file)@.subrange(8, 16))
                &&& r.value_size == from_le64(old(file)@.subrange(24, 32))
                &&& r.id@ == le_layout(old(file)@.subrange(32, 48))
            },
    {
        let n = match items_len {
            Some(n) => n,
            None => 0,
        };
        let mut header = KvShardHeader::new(n, max_capacity, value_size, uuid);
        if file.len() == 0 {
            header.initialize_empty_file(file);
        } else {
            header.read_header(file);
        }
        header
    }

    /// Size of the header.
    pub fn header_size() -> (r: usize)
        ensures
            r == kv_header_size(),
    {
        let max_capacity_size = U64_SIZE;
        let items_len_size = U64_SIZE;
        let value_size = U64_SIZE;
        let id_len = UUID_BYTE_LEN as usize;
        max_capacity_size + items_len_size + value_size + id_len
    }

    fn initialize_empty_file(&self, file: &mut Vec<u8>)
        requires
            old(file)@.len() == 0,
        ensures
            final(file)@ == kv_header_encoding(
                match self.max_capacity {
                    Some(m) => m,
                    None => 0,
                },
                self.items_len,
                self.value_size,
                self.id@,
            ),
    {
        let mut buffer: Vec<u8> = Vec::new();
        let cap = match self.max_capacity {
            Some(m) => m,
            None => 0,
        };
        let mut b = encode_u64(cap);
        buffer.append(&mut b);
        let mut b = encode_u64(self.items_len);
        buffer.append(&mut b);
        let mut b = encode_u64(self.value_size);
        buffer.append(&mut b);
        let id_bytes = uuid_to_bytes_le(&self.id);
        push_all(&mut buffer, id_bytes.as_slice());
        *file = buffer;
    }

    fn read_header(&mut self, file: &Vec<u8>)
        requires
            file@.len() >= 48,
        ensures
            final(self).max_capacity == Some(from_le64(file@.subrange(0, 8))),
            final(self).items_len == from_le64(file@.subrange(8, 16)),
            final(self).value_size == from_le64(file@.subrange(24, 32)),
            final(self).id@ == le_layout(file@.subrange(32, 48)),
    {
        let s = file.as_slice();
        self.max_capacity = Some(decode_u64(&s[0..8]));
        self.items_len = decode_u64(&s[8..16]);
        self.value_size = decode_u64(&s[24..32]);
        self.id = uuid_from_bytes_le(&to_array16(&s[32..48]));
    }

    /// Adds `count` values (one when none is given) to the count, in the
    /// header and in `file`, and gives the new count.
    pub fn increment_len(&mut self, count: Option<u64>, file: &mut Vec<u8>) -> (r: u64)
        requires
            old(file)@.len() >= 16,
            old(self).items_len + match count {
                Some(c) => c,
                None => 1,
            } <= u64::MAX,
        ensures
            r == final(self).items_len,
            final(self).items_len == old(self).items_len + match count {
                Some(c) => c,
                None => 1,
            },
            final(self).max_capacity == old(self).max_capacity,
            final(self).value_size == old(self).value_size,
            final(self).id == old(self).id,
            final(file)@ == old(file)@.subrange(0, 8) + le64(final(self).items_len) + old(file)@.subrange(
                16,
                old(file)@.len() as int,
            ),
    {
        let c = match count {
            Some(c) => c,
            None => 1,
        };
        self.items_len = self.items_len + c;
        let bytes = encode_u64(self.items_len);
        write_at(file, bytes.as_slice(), U64_SIZE);
        self.items_len
    }
}

#[derive(Debug)]
pub struct KvShard {
    pub path: String,
    pub data: Vec<u8>,
    pub header: KvShardHeader,
    pub value_size: usize,
    pub max_capacity: usize,
    pub id: UuidBytes,
}

/// Concatenation of the rows of an insertion.
pub open spec fn flat(s: Seq<Seq<u8>>) -> Seq<u8>
    decreases s.len(),
{
    if s.len() == 0 {
        Seq::empty()
    } else {
        flat(s.drop_last()) + s.last()
    }
}

/// Concatenates slices.
pub fn flatten(input: &[&[u8]]) -> (r: Vec<u8>)
    ensures
        r@ == flat(slices_view(input@)),
{
    let mut buffer: Vec<u8> = Vec::new();
    let mut j: usize = 0;
    while j < input.len()
        invariant
            j <= input@.len(),
            buffer@ == flat(slices_view(input@).subrange(0, j as int)),
        decreases input@.len() - j,
    {
        push_all(&mut buffer, input[j]);
        proof {
            assert(slices_view(input@).subrange(0, j + 1).drop_last() =~= slices_view(input@).subrange(0, j as int));
        }
        j = j + 1;
    }
    assert(slices_view(input@).subrange(0, input@.len() as int) =~= slices_view(input@));
    buffer
}

/// The capacity read from a file, as the shard keeps it.
pub open spec fn capacity_of(m: Option<u64>) -> usize {
    (match m {
        Some(c) => c,
        None => 0,
    }) as usize
}

/// Whether a key/value shard file's header agrees with its length.
pub fn kv_file_openable(file: &[u8]) -> (r: bool)
    ensures
        r == kv_file_ok(file@),
{
    if file.len() < 48 {
        return false;
    }
    let cap = decode_u64(&file[0..8]);
    let items = decode_u64(&file[8..16]);
    let vs = decode_u64(&file[24..32]);
    if vs == 0 || vs > usize::MAX as u64 {
        return false;
    }
    if items > i64::MAX as u64 {
        return false;
    }
    proof {
        assert((items as u128) * (vs as u128) <= 0x7fff_ffff_ffff_ffffu128 * 0xffff_ffff_ffff_ffffu128) by (nonlinear_arith)
            requires
                items <= 0x7fff_ffff_ffff_ffffu64,
                vs <= 0xffff_ffff_ffff_ffffu64,
        ;
    }
    let values_len = (items as u128) * (vs as u128);
    proof {
        assert(values_len == items * vs) by (nonlinear_arith)
            requires
                values_len == (items as u128) * (vs as u128),
                items <= u64::MAX,
                vs <= u64::MAX,
        ;
    }
    if (file.len() as u128) != 40 + values_len {
        return false;
    }
    true
}

/// A key/value shard file whose header agrees with its length.
pub open spec fn kv_file_ok(file: Seq<u8>) -> bool {
    let cap = capacity_of(Some(from_le64(file.subrange(0, 8))));
    let items = from_le64(file.subrange(8, 16));
    let vs = from_le64(file.subrange(24, 32));
    &&& file.len() >= 48
    &&& 0 < vs <= usize::MAX
    &&& file.len() == element_offset(items as int, vs as int)
    &&& items <= i64::MAX
}

impl KvShard {
    /// The file holds the header and exactly the counted values.
    pub open spec fn wf(&self) -> bool {
        &&& self.value_size == self.header.value_size
        &&& self.data@.len() == element_offset(self.header.items_len as int, self.value_size as int)
    }

    /// The counted values.
    pub open spec fn values(&self) -> Seq<Seq<u8>> {
        Seq::new(
            self.header.items_len as nat,
            |i: int|
                self.data@.subrange(
                    element_offset(i, self.value_size as int),
                    element_offset(i + 1, self.value_size as int),
                ),
        )
    }

    /// The value `index` at the fixed value size, if the file holds it.
    pub fn get_element(&self, index: usize) -> (r: Option<Vec<u8>>)
        requires
            element_offset(index as int, self.value_size as int) + self.value_size <= usize::MAX,
        ensures
            ({
                let start = element_offset(index as int, self.value_size as int);
                &&& start + self.value_size <= self.data@.len() ==> (r matches Some(v) && v@
                    == self.data@.subrange(start, start + self.value_size))
                &&& start + self.value_size > self.data@.len() ==> r is None
            }),
    {
        let starting_point = get_element_offset(index, self.value_size);
        let end = starting_point + self.value_size;
        if end > self.data.len() {
            None
        } else {
            Some(slice_to_vec(&self.data.as_slice()[starting_point..end]))
        }
    }

    /// Writes `second_element` at value `i` and `first_element` at value `i - 1`.
    pub fn swap_elements(&mut self, i: usize, first_element: &[u8], second_element: &[u8]) -> (r: Result<(), ShardErrors>)
        requires
            1 <= i,
            element_offset(i as int, old(self).value_size as int) + second_element@.len() <= old(self).data@.len(),
            element_offset(i - 1, old(self).value_size as int) + first_element@.len() <= old(self).data@.len(),
        ensures
            r is Ok,
            ({
                let off2 = element_offset(i as int, old(self).value_size as int);
                let off1 = element_offset(i - 1, old(self).value_size as int);
                let mid = old(self).data@.subrange(0, off2) + second_element@ + old(self).data@.subrange(
                    off2 + second_element@.len(),
                    old(self).data@.len() as int,
                );
                final(self).data@ == mid.subrange(0, off1) + first_element@ + mid.subrange(
                    off1 + first_element@.len(),
                    mid.len() as int,
                )
            }),
            final(self).header == old(self).header,
            final(self).value_size == old(self).value_size,
            final(self).max_capacity == old(self).max_capacity,
            final(self).id == old(self).id,
    {
        let vs = self.value_size;
        let _dlen = self.data.len();
        proof {
            assert(0 <= (i - 1) * vs) by (nonlinear_arith)
                requires i >= 1;
        }
        let off2 = get_element_offset(i, self.value_size);
        write_at(&mut self.data, second_element, off2);
        let off1 = get_element_offset(i - 1, self.value_size);
        write_at(&mut self.data, first_element, off1);
        Ok(())
    }
}

/// Whether values, each `value_size` long, appended to `base` bytes still
/// leave a size.
pub fn values_fit_after(base: usize, value_size: usize, rows: &[&[u8]]) -> (r: bool)
    ensures
        r == ({
            &&& forall|j: int| 0 <= j < rows@.len() ==> #[trigger] slices_view(rows@)[j].len() == value_size
            &&& base + flat(slices_view(rows@)).len() <= usize::MAX
        }),
{
    let ghost s = slices_view(rows@);
    let mut total: usize = base;
    let mut j: usize = 0;
    while j < rows.len()
        invariant
            j <= rows@.len(),
            s == slices_view(rows@),
            forall|k: int| 0 <= k < j ==> #[trigger] s[k].len() == value_size,
            total == base + j * value_size,
        decreases rows@.len() - j,
    {
        if rows[j].len() != value_size {
            assert(s[j as int].len() != value_size);
            return false;
        }
        if total > usize::MAX - value_size {
            proof {
                if forall|k: int| 0 <= k < s.len() ==> #[trigger] s[k].len() == value_size {
                    lemma_flat_uniform(s, value_size as int);
                    lemma_mul_step(j as int, value_size as int);
                    lemma_mul_le(j + 1, s.len() as int, value_size as int);
                }
            }
            return false;
        }
        proof {
            lemma_mul_step(j as int, value_size as int);
        }
        total = total + value_size;
        j = j + 1;
    }
    proof {
        lemma_flat_uniform(s, value_size as int);
    }
    true
}

impl ShardConfig for KvShardConfig {}

impl Shard<KvShardConfig> for KvShard {
    open spec fn inv(&self) -> bool {
        &&& self.wf()
        &&& self.value_size > 0
        &&& self.header.items_len <= i64::MAX
        &&& self.id == self.header.id
    }

    open spec fn spec_items(&self) -> Seq<Seq<u8>> {
        self.values()
    }

    open spec fn spec_path(&self) -> Seq<char> {
        self.path@
    }

    open spec fn spec_id(&self) -> Seq<u8> {
        self.id@
    }

    open spec fn spec_capacity(&self) -> Option<nat> {
        if self.max_capacity == 0 {
            None
        } else {
            Some(self.max_capacity as nat)
        }
    }

    open spec fn spec_has_space(&self) -> bool {
        self.max_capacity == 0 || (self.max_capacity as i64) > self.header.items_len
    }

    open spec fn spec_breaking_point(&self) -> Option<u64> {
        if self.max_capacity == 0 {
            None
        } else {
            Some(self.max_capacity as u64)
        }
    }

    open spec fn config_capacity(opts: KvShardConfig) -> Option<nat> {
        if capacity_of(opts.max_capacity) == 0 {
            None
        } else {
            Some(capacity_of(opts.max_capacity) as nat)
        }
    }

    open spec fn config_breaking_point(opts: KvShardConfig) -> Option<u64> {
        if capacity_of(opts.max_capacity) == 0 {
            None
        } else {
            Some(capacity_of(opts.max_capacity) as u64)
        }
    }

    open spec fn file_capacity(file: Seq<u8>) -> Option<nat> {
        if capacity_of(Some(from_le64(file.subrange(0, 8)))) == 0 {
            None
        } else {
            Some(capacity_of(Some(from_le64(file.subrange(0, 8)))) as nat)
        }
    }

    open spec fn file_breaking_point(file: Seq<u8>) -> Option<u64> {
        if capacity_of(Some(from_le64(file.subrange(0, 8)))) == 0 {
            None
        } else {
            Some(capacity_of(Some(from_le64(file.subrange(0, 8)))) as u64)
        }
    }

    open spec fn file_id(file: Seq<u8>) -> Seq<u8> {
        le_layout(file.subrange(32, 48))
    }

    open spec fn openable(file: Seq<u8>, opts: KvShardConfig) -> bool {
        if file.len() == 0 {
            opts.value_size > 0
        } else {
            kv_file_ok(file)
        }
    }

    open spec fn accepts(&self, rows: Seq<Seq<u8>>) -> bool {
        &&& forall|j: int| 0 <= j < rows.len() ==> #[trigger] rows[j].len() == self.value_size
        &&& self.header.items_len + rows.len() <= i64::MAX
        &&& self.data@.len() + flat(rows).len() <= usize::MAX
    }

    open spec fn fresh_accepts(opts: KvShardConfig, rows: Seq<Seq<u8>>) -> bool {
        &&& forall|j: int| 0 <= j < rows.len() ==> #[trigger] rows[j].len() == opts.value_size
        &&& rows.len() <= i64::MAX
        &&& kv_header_size() + flat(rows).len() <= usize::MAX
    }

    proof fn lemma_accepts_subrange(&self, rows: Seq<Seq<u8>>, i: int, j: int) {
        let vs = self.value_size as int;
        let sub = rows.subrange(i, j);
        lemma_flat_uniform(rows, vs);
        assert forall|k: int| 0 <= k < sub.len() implies #[trigger] sub[k].len() == vs by {
            assert(sub[k] == rows[i + k]);
        }
        lemma_flat_uniform(sub, vs);
        lemma_mul_le(j - i, rows.len() as int, vs);
    }

    proof fn lemma_fresh_accepts_subrange(opts: KvShardConfig, rows: Seq<Seq<u8>>, i: int, j: int) {
        let vs = opts.value_size as int;
        let sub = rows.subrange(i, j);
        lemma_flat_uniform(rows, vs);
        assert forall|k: int| 0 <= k < sub.len() implies #[trigger] sub[k].len() == vs by {
            assert(sub[k] == rows[i + k]);
        }
        lemma_flat_uniform(sub, vs);
        lemma_mul_le(j - i, rows.len() as int, vs);
    }

    proof fn lemma_sizes(&self) {
        assert(self.data.len() == self.data@.len());
        let vs = self.value_size as int;
        let n = self.header.items_len as int;
        assert forall|i: int| 0 <= i < self.spec_items().len() implies #[trigger] self.readable(i) by {
            lemma_mul_step(i, vs);
            lemma_mul_le(i + 1, n, vs);
        }
        lemma_mul_le(1, vs, n);
        assert(n * 1 <= n * vs) by (nonlinear_arith)
            requires
                vs >= 1,
                n >= 0,
        ;
    }

    open spec fn readable(&self, index: int) -> bool {
        element_offset(index, self.value_size as int) + self.value_size <= usize::MAX
    }

    /// Every value is recorded: the count grows past the capacity.
    open spec fn recorded(&self, n: nat) -> nat {
        n
    }

    proof fn lemma_recorded(&self, n: nat) {
    }

    open spec fn fresh_recorded(opts: KvShardConfig, n: nat) -> nat {
        n
    }

    fn file_within_capacity(file: &[u8], opts: KvShardConfig) -> (r: bool) {
        let cap = decode_u64(&file[0..8]) as usize;
        let items = decode_u64(&file[8..16]);
        assert(file@.subrange(0, 8) =~= file@.subrange(0, 8));
        cap == 0 || items <= cap as u64
    }

    fn file_openable(file: &[u8], opts: KvShardConfig) -> (r: bool) {
        if file.len() == 0 {
            opts.value_size > 0
        } else {
            kv_file_openable(file)
        }
    }

    open spec fn file_items(file: Seq<u8>) -> Seq<Seq<u8>> {
        kv_file_values(file)
    }

    open spec fn reported_index(len: nat) -> u64 {
        len as u64
    }

    fn takes(&self, rows: &[&[u8]]) -> (r: bool) {
        if rows.len() as u128 + self.header.items_len as u128 > i64::MAX as u128 {
            return false;
        }
        values_fit_after(self.data.len(), self.value_size, rows)
    }

    fn fresh_takes(opts: KvShardConfig, rows: &[&[u8]]) -> (r: bool) {
        if rows.len() as u128 > i64::MAX as u128 {
            return false;
        }
        values_fit_after(40, opts.value_size, rows)
    }

    fn report_for(len: usize) -> (r: u64) {
        len as u64
    }

    fn config_room(opts: KvShardConfig) -> (r: Option<usize>) {
        let c = match opts.max_capacity {
            Some(m) => m,
            None => 0,
        } as usize;
        if c == 0 {
            None
        } else {
            Some(c)
        }
    }

    fn config_split(opts: KvShardConfig) -> (r: Option<u64>) {
        let c = match opts.max_capacity {
            Some(m) => m,
            None => 0,
        } as usize;
        if c == 0 {
            None
        } else {
            Some(c as u64)
        }
    }

    /// Opens the shard stored in `file`; an empty file gets a new header with
    /// no values, the configured capacity and value size, and the given or a
    /// fresh id.
    fn new(path: String, file: Vec<u8>, opts: KvShardConfig, uuid: Option<UuidBytes>) -> (r: Self)
        ensures
            r.id == r.header.id,
            r.max_capacity == capacity_of(r.header.max_capacity),
            r.value_size == r.header.value_size as usize,
            file@.len() == 0 ==> {
                &&& r.header.items_len == 0
                &&& r.header.max_capacity == opts.max_capacity
                &&& r.value_size == opts.value_size
            },
            file@.len() != 0 ==> {
                &&& r.data@ == file@
                &&& r.header.max_capacity == Some(from_le64(file@.subrange(0, 8)))
                &&& r.header.items_len == from_le64(file@.subrange(8, 16))
                &&& r.header.value_size == from_le64(file@.subrange(24, 32))
                &&& r.id@ == le_layout(file@.subrange(32, 48))
            },
    {
        let mut data = file;
        let header = KvShardHeader::new_from_file(
            &mut data,
            uuid,
            Some(0),
            opts.max_capacity,
            opts.value_size as u64,
        );
        let max_capacity = match header.max_capacity {
            Some(m) => m,
            None => 0,
        } as usize;
        proof {
            if file@.len() == 0 {
                lemma_le64(match opts.max_capacity {
                    Some(m) => m,
                    None => 0,
                });
                lemma_le64(0);
                lemma_le64(opts.value_size as u64);
                lemma_le_layout(header.id@);
            }
        }
        let r = Self {
            path,
            data,
            max_capacity,
            value_size: header.value_size as usize,
            id: header.id,
            header,
        };
        assert(file@.len() == 0 ==> r.values() =~= Seq::<Seq<u8>>::empty());
        r
    }

    /// Whether another value fits: always, without a capacity.
    fn has_space(&self) -> (r: bool) {
        if self.max_capacity == 0 {
            true
        } else {
            self.max_capacity as i64 > self.get_last_index() + 1
        }
    }

    /// The capacity, where there is one.
    fn breaking_point(&self) -> (r: Option<u64>) {
        if self.max_capacity > 0 {
            Some(self.max_capacity as u64)
        } else {
            None
        }
    }

    fn get_path(&self) -> (r: String) {
        self.path.clone()
    }

    /// Index of the last value, or -1 when there is none.
    fn get_last_index(&self) -> (r: i64) {
        if self.header.items_len == 0 {
            -1
        } else {
            (self.header.items_len - 1) as i64
        }
    }

    /// Value `index`; a value the file does not hold gives `UnknownEntry`.
    fn read_item_from_index(&self, index: usize) -> (r: Result<Vec<u8>, ShardErrors>)
        ensures
            r is Err ==> r == Err::<Vec<u8>, ShardErrors>(ShardErrors::UnknownEntry),
    {
        let ghost vs = self.value_size as int;
        let ghost n = self.header.items_len as int;
        proof {
            if index < n {
                lemma_mul_step(index as int, vs);
                lemma_mul_le(index + 1, n, vs);
            } else {
                lemma_mul_le(n, index as int, vs);
                lemma_mul_step(index as int, vs);
            }
        }
        match self.get_element(index) {
            None => Err(ShardErrors::UnknownEntry),
            Some(v) => Ok(v),
        }
    }

    /// Room left: unlimited without a capacity.
    fn available_space(&self) -> (r: AvailableSpace) {
        if self.max_capacity == 0 {
            AvailableSpace::Unlimited
        } else {
            let space = self.max_capacity - ((self.get_last_index() + 1) as usize);
            AvailableSpace::Fixed(space)
        }
    }

    /// Appends the values and counts them; gives the new count.
    fn insert_item(&mut self, data: &[&[u8]]) -> (r: Result<u64, ShardErrors>)
        ensures
            final(self).header.items_len == old(self).header.items_len + data@.len(),
            final(self).data@ == old(self).data@.subrange(0, 8) + le64(final(self).header.items_len)
                + old(self).data@.subrange(16, old(self).data@.len() as int) + flat(slices_view(data@)),
    {
        let ghost old_s = *self;
        proof {
            assert(0 <= self.header.items_len * self.value_size) by (nonlinear_arith);
        }
        let flat_items = flatten(data);
        let ghost before = self.data@;
        push_all(&mut self.data, flat_items.as_slice());
        let new_len = self.header.increment_len(Some(data.len() as u64), &mut self.data);
        proof {
            assert(self.data@ =~= before.subrange(0, 8) + le64(self.header.items_len) + before.subrange(
                16,
                before.len() as int,
            ) + flat(slices_view(data@)));
            let rows = slices_view(data@);
            lemma_kv_insert_then_get(old_s, *self, rows);
            let n0 = old_s.values().len() as int;
            assert forall|i: int| 0 <= i < self.values().len() implies #[trigger] self.values()[i] == (old_s.values()
                + rows)[i] by {
                if i >= n0 {
                    assert(self.values()[n0 + (i - n0)] == rows[i - n0]);
                }
            }
            assert(self.values() =~= old_s.values() + rows);
        }
        Ok(new_len)
    }

    /// The text form of the shard id.
    fn get_id(&self) -> (r: String) {
        uuid_to_string(&self.id)
    }
}

} // verus!

verus! {

proof fn lemma_mul_step(a: int, vs: int)
    requires
        0 <= a,
        0 <= vs,
    ensures
        (a + 1) * vs == a * vs + vs,
        0 <= a * vs,
{
    assert((a + 1) * vs == a * vs + vs) by (nonlinear_arith);
    assert(0 <= a * vs) by (nonlinear_arith)
        requires
            0 <= a,
            0 <= vs,
    ;
}

proof fn lemma_mul_le(a: int, b: int, vs: int)
    requires
        0 <= a <= b,
        0 <= vs,
    ensures
        a * vs <= b * vs,
{
    assert(a * vs <= b * vs) by (nonlinear_arith)
        requires
            0 <= a <= b,
            0 <= vs,
    ;
}

/// Rows all `vs` long lie one after another in their concatenation.
pub proof fn lemma_flat_uniform(s: Seq<Seq<u8>>, vs: int)
    requires
        0 <= vs,
        forall|j: int| 0 <= j < s.len() ==> #[trigger] s[j].len() == vs,
    ensures
        flat(s).len() == s.len() * vs,
        forall|j: int| 0 <= j < s.len() ==> #[trigger] flat(s).subrange(j * vs, j * vs + vs) == s[j],
    decreases s.len(),
{
    if s.len() > 0 {
        let p = s.drop_last();
        lemma_flat_uniform(p, vs);
        lemma_mul_step(p.len() as int, vs);
        assert forall|j: int| 0 <= j < s.len() implies #[trigger] flat(s).subrange(j * vs, j * vs + vs) == s[j] by {
            lemma_mul_step(j, vs);
            if j < p.len() {
                lemma_mul_le(j + 1, p.len() as int, vs);
                assert(flat(s).subrange(j * vs, j * vs + vs) =~= flat(p).subrange(j * vs, j * vs + vs));
                assert(p[j] == s[j]);
            } else {
                assert(flat(s).subrange(j * vs, j * vs + vs) =~= s.last());
            }
        }
    }
}

/// A key/value shard has room for another value exactly when it has no
/// capacity or holds fewer values than its capacity: one without a capacity
/// always has room. (A capacity beyond `i64::MAX` is left out: the room is
/// checked on it as an `i64`.)
pub proof fn lemma_kv_has_space(s: KvShard)
    requires
        s.inv(),
        s.max_capacity <= i64::MAX,
    ensures
        s.spec_capacity() is None ==> s.spec_has_space(),
        s.max_capacity == 0 ==> s.spec_capacity() is None && s.spec_has_space(),
        s.max_capacity > 0 ==> (s.spec_has_space() <==> s.header.items_len < s.max_capacity),
        s.spec_has_space() == (match s.spec_capacity() {
            Some(c) => s.spec_items().len() < c,
            None => true,
        }),
{
}

/// Reading after an insertion of values of the shard's value size: the new
/// values follow the old ones, which read as before.
pub proof fn lemma_kv_insert_then_get(old_s: KvShard, new_s: KvShard, rows: Seq<Seq<u8>>)
    requires
        old_s.wf(),
        old_s.data@.len() >= 16,
        forall|j: int| 0 <= j < rows.len() ==> #[trigger] rows[j].len() == old_s.value_size,
        new_s.header.items_len == old_s.header.items_len + rows.len(),
        new_s.header.value_size == old_s.header.value_size,
        new_s.value_size == old_s.value_size,
        new_s.data@ == old_s.data@.subrange(0, 8) + le64(new_s.header.items_len) + old_s.data@.subrange(
            16,
            old_s.data@.len() as int,
        ) + flat(rows),
    ensures
        new_s.wf(),
        new_s.values().len() == old_s.values().len() + rows.len(),
        forall|i: int| 0 <= i < old_s.values().len() ==> #[trigger] new_s.values()[i] == old_s.values()[i],
        forall|j: int| 0 <= j < rows.len() ==> #[trigger] new_s.values()[old_s.values().len() + j] == rows[j],
{
    let vs = old_s.value_size as int;
    let n0 = old_s.header.items_len as int;
    let l = old_s.data@.len() as int;
    lemma_le64(new_s.header.items_len);
    lemma_flat_uniform(rows, vs);
    lemma_mul_step(n0, vs);
    assert((n0 + rows.len()) * vs == n0 * vs + rows.len() * vs) by (nonlinear_arith);
    assert forall|p: int| 16 <= p < l implies #[trigger] new_s.data@[p] == old_s.data@[p] by {}
    assert forall|i: int| 0 <= i < old_s.values().len() implies #[trigger] new_s.values()[i] == old_s.values()[i] by {
        lemma_mul_step(i, vs);
        lemma_mul_le(i + 1, n0, vs);
        assert(new_s.values()[i] =~= old_s.values()[i]);
    }
    assert forall|j: int| 0 <= j < rows.len() implies #[trigger] new_s.values()[n0 + j] == rows[j] by {
        assert((n0 + j) * vs == n0 * vs + j * vs) by (nonlinear_arith);
        assert((n0 + j + 1) * vs == n0 * vs + j * vs + vs) by (nonlinear_arith);
        lemma_mul_step(j, vs);
        lemma_mul_le(j + 1, rows.len() as int, vs);
        assert(new_s.values()[n0 + j] =~= flat(rows).subrange(j * vs, j * vs + vs));
    }
}

} // verus!
