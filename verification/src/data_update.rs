//! Updating the rows of a data shard in place, and moving the rows that no
//! longer fit to a chain of shards.
use vstd::prelude::*;
use crate::bytes::{le64, from_le64, lemma_le64, zeros, slice_to_vec};
use crate::ids::{le_layout, lemma_le_layout, parse_uuid};
use crate::errors::ShardErrors;
use crate::config::DataShardConfig;
use crate::item::{
    ShardItem, ShardItemType, item_encoding, decoded_data, decoded_used_size, decoded_max_size, decoded_item_id,
    decoded_shard_id, decoded_offset, decoded_moved_id, decoded_moved_offset, type_byte, type_of_byte, lemma_type_byte,
    INNER_METADATA_LEN, ITEM_HEADER_LEN,
};
use crate::data_shard::{DataShard, item_readable};
use crate::data_shard_header::{offset_pos, slot_value, write_at};
use crate::map_shard::MapShard;
use crate::shard::{Shard, slices_view};

verus! {

/// `d` with `b` written over it at `p`.
pub open spec fn write_bytes(d: Seq<u8>, p: int, b: Seq<u8>) -> Seq<u8> {
    d.subrange(0, p) + b + d.subrange(p + b.len(), d.len() as int)
}

/// `d` with each write applied in turn.
pub open spec fn apply_writes(d: Seq<u8>, ws: Seq<(int, Seq<u8>)>) -> Seq<u8>
    decreases ws.len(),
{
    if ws.len() == 0 {
        d
    } else {
        let w = ws.last();
        write_bytes(apply_writes(d, ws.drop_last()), w.0, w.1)
    }
}

/// The header and data of an item stored in region `r`, with the given type,
/// used size, move and data: the ids, offset and size are written back as
/// reading `r` gives them.
pub open spec fn rewritten_bytes(
    r: Seq<u8>,
    t: ShardItemType,
    used: usize,
    moved_id: Option<Seq<u8>>,
    moved_offset: Option<usize>,
    data: Seq<u8>,
) -> Seq<u8> {
    seq![type_byte(t)] + le_layout(decoded_item_id(r)) + le64(INNER_METADATA_LEN) + le_layout(decoded_shard_id(r))
        + le64(decoded_offset(r) as u64) + le64(used as u64) + le64(decoded_max_size(r) as u64) + match moved_id {
        Some(u) => le_layout(u) + le64(moved_offset.unwrap() as u64),
        None => zeros(24),
    } + data
}

/// Region `r` once its data area starts with `d`, which fits.
pub open spec fn refreshed_bytes(r: Seq<u8>, d: Seq<u8>) -> Seq<u8> {
    rewritten_bytes(
        r,
        type_of_byte(r[0]),
        d.len() as usize,
        decoded_moved_id(r),
        decoded_moved_offset(r),
        d + decoded_data(r).subrange(d.len() as int, decoded_max_size(r) as int),
    )
}

/// Region `r` marked as moved to shard `target.0`, at index `target.1` there.
pub open spec fn moved_bytes(r: Seq<u8>, target: (Seq<u8>, usize)) -> Seq<u8> {
    rewritten_bytes(
        r,
        ShardItemType::Moved,
        decoded_used_size(r),
        Some(target.0),
        Some(target.1),
        decoded_data(r),
    )
}

/// The entries of an update: an index and new data.
pub open spec fn update_entries(data: Seq<(u64, &[u8])>) -> Seq<(u64, Seq<u8>)> {
    Seq::new(data.len(), |i: int| (data[i].0, data[i].1@))
}

/// The index an entry names, as the shard reads it.
pub open spec fn entry_index(e: (u64, Seq<u8>)) -> int {
    (e.0 as usize) as int
}

/// Whether an entry names an item in use that is not moved.
pub open spec fn live_entry(s: DataShard, e: (u64, Seq<u8>)) -> bool {
    &&& entry_index(e) < s.header.used()
    &&& type_of_byte(s.item_bytes(entry_index(e))[0]) != ShardItemType::Moved
}

/// Whether an entry's new data fits in its item's data area.
pub open spec fn entry_fits(s: DataShard, e: (u64, Seq<u8>)) -> bool {
    e.1.len() <= decoded_max_size(s.item_bytes(entry_index(e)))
}

/// The writes of the entries whose data fits: each item's region gets its
/// new data, in entry order.
pub open spec fn update_writes(s: DataShard, es: Seq<(u64, Seq<u8>)>) -> Seq<(int, Seq<u8>)>
    decreases es.len(),
{
    if es.len() == 0 {
        Seq::empty()
    } else {
        let p = update_writes(s, es.drop_last());
        let e = es.last();
        if live_entry(s, e) && entry_fits(s, e) {
            p.push((s.item_start(entry_index(e)), refreshed_bytes(s.item_bytes(entry_index(e)), e.1)))
        } else {
            p
        }
    }
}

/// The entries whose data does not fit, as (position, new data, region), in order.
pub open spec fn moved_entries(s: DataShard, es: Seq<(u64, Seq<u8>)>) -> Seq<(int, Seq<u8>, Seq<u8>)>
    decreases es.len(),
{
    if es.len() == 0 {
        Seq::empty()
    } else {
        let p = moved_entries(s, es.drop_last());
        let e = es.last();
        if live_entry(s, e) && !entry_fits(s, e) {
            p.push((s.item_start(entry_index(e)), e.1, s.item_bytes(entry_index(e))))
        } else {
            p
        }
    }
}

/// The rows that move to the chain: the new data of the entries that do not fit.
pub open spec fn moved_rows(s: DataShard, es: Seq<(u64, Seq<u8>)>) -> Seq<Seq<u8>> {
    Seq::new(moved_entries(s, es).len(), |k: int| moved_entries(s, es)[k].1)
}

/// The writes that mark moved items, with the shard and index each row went to.
pub open spec fn move_writes(m: Seq<(int, Seq<u8>, Seq<u8>)>, targets: Seq<(Seq<u8>, usize)>) -> Seq<(int, Seq<u8>)> {
    Seq::new(m.len(), |k: int| (m[k].0, moved_bytes(m[k].2, targets[k])))
}

/// Rewriting an item's region from its start with bytes that read as an
/// item of the same data area size keeps the shard well formed, and keeps
/// every other region.
pub proof fn lemma_rewrite_keeps_wf(old_s: DataShard, new_s: DataShard, i: int, b: Seq<u8>)
    requires
        old_s.wf(),
        0 <= i < old_s.header.used(),
        new_s.header == old_s.header,
        new_s.id == old_s.id,
        b.len() == ITEM_HEADER_LEN + decoded_max_size(old_s.item_bytes(i)),
        b[0] <= 2,
        from_le64(b.subrange(57, 65)) == decoded_max_size(old_s.item_bytes(i)),
        from_le64(b.subrange(49, 57)) <= decoded_max_size(old_s.item_bytes(i)),
        new_s.data@ == write_bytes(old_s.data@, old_s.item_start(i), b),
    ensures
        new_s.wf(),
        forall|j: int| 0 <= j < old_s.header.used() ==> #[trigger] new_s.item_start(j) == old_s.item_start(j),
        forall|j: int| 0 <= j < old_s.header.used() ==> #[trigger] new_s.item_end(j) == old_s.item_end(j),
        forall|j: int| 0 <= j < old_s.header.used() && j != i ==> #[trigger] new_s.item_bytes(j) == old_s.item_bytes(j),
        new_s.item_bytes(i) == b + old_s.item_bytes(i).subrange(b.len() as int, old_s.item_bytes(i).len() as int),
{
    let st = old_s.item_start(i);
    let en = old_s.item_end(i);
    let d = old_s.data@;
    let nd = new_s.data@;
    let r = old_s.item_bytes(i);
    assert(old_s.header.max_offset_positions <= st <= en <= d.len());
    assert(r.len() >= ITEM_HEADER_LEN + decoded_max_size(r));
    assert(nd.len() == d.len());
    assert forall|p: int| 0 <= p < d.len() && (p < st || p >= st + b.len()) implies #[trigger] nd[p] == d[p] by {
        if p < st {
            assert(nd[p] == d.subrange(0, st)[p]);
        } else {
            assert(nd[p] == d.subrange(st + b.len(), d.len() as int)[p - st - b.len()]);
        }
    }
    assert forall|k: int| 0 <= k < old_s.header.max_offsets implies #[trigger] slot_value(nd, k) == slot_value(d, k) by {
        assert(offset_pos(k) + 8 <= old_s.header.max_offset_positions);
        assert(nd.subrange(offset_pos(k), offset_pos(k) + 8) =~= d.subrange(offset_pos(k), offset_pos(k) + 8));
    }
    assert forall|j: int| 0 <= j < old_s.header.used() implies #[trigger] new_s.item_start(j) == old_s.item_start(j) by {
        assert(slot_value(nd, j) == slot_value(d, j));
    }
    assert forall|j: int| 0 <= j < old_s.header.used() implies #[trigger] new_s.item_end(j) == old_s.item_end(j) by {
        if j < old_s.header.last_offset_index {
            assert(slot_value(nd, j + 1) == slot_value(d, j + 1));
        }
    }
    assert forall|j: int| 0 <= j < old_s.header.used() && j != i implies #[trigger] new_s.item_bytes(j) == old_s.item_bytes(j) by {
        assert(new_s.item_start(j) == old_s.item_start(j));
        assert(new_s.item_end(j) == old_s.item_end(j));
        let sj = old_s.item_start(j);
        let ej = old_s.item_end(j);
        assert(old_s.header.max_offset_positions <= sj <= ej <= d.len());
        if j < i {
            assert(ej <= st);
        } else {
            assert(en <= sj);
        }
        assert(new_s.item_bytes(j) =~= old_s.item_bytes(j));
    }
    assert(new_s.item_start(i) == st);
    assert(new_s.item_end(i) == en);
    assert(new_s.item_bytes(i) =~= b + r.subrange(b.len() as int, r.len() as int));
    let nr = new_s.item_bytes(i);
    assert(nr.subrange(57, 65) =~= b.subrange(57, 65));
    assert(nr.subrange(49, 57) =~= b.subrange(49, 57));
    assert(item_readable(nr));
    assert(new_s.header.id == new_s.id);
    assert forall|j: int|
        #![trigger new_s.item_start(j)]
        0 <= j < new_s.header.used() implies {
            &&& new_s.header.max_offset_positions <= new_s.item_start(j) <= new_s.item_end(j) <= new_s.data@.len()
            &&& item_readable(new_s.item_bytes(j))
        } by {
        if j != i {
            assert(new_s.item_bytes(j) == old_s.item_bytes(j));
        }
    }
    assert forall|a: int, c: int|
        #![trigger new_s.item_end(a), new_s.item_start(c)]
        0 <= a < c < new_s.header.used() implies new_s.item_end(a) <= new_s.item_start(c) by {
        assert(new_s.item_end(a) == old_s.item_end(a));
        assert(new_s.item_start(c) == old_s.item_start(c));
        assert(old_s.item_end(a) <= old_s.item_start(c));
    }
}

/// The fields an item read from region `r` keeps from it.
pub open spec fn item_of_region(item: ShardItem, r: Seq<u8>) -> bool {
    &&& item.current_item_id@ == decoded_item_id(r)
    &&& item.current_shard_id@ == decoded_shard_id(r)
    &&& item.current_offset == decoded_offset(r)
    &&& item.max_size == decoded_max_size(r)
}

/// Where the fields of an encoded item lie.
pub proof fn lemma_encoding_layout(item: ShardItem)
    requires
        item.data@.len() == item.max_size,
        item.moved_shard_id is Some ==> item.moved_offset is Some,
    ensures
        item_encoding(item).len() == ITEM_HEADER_LEN + item.max_size,
        item_encoding(item)[0] == type_byte(item.shard_item_type),
        item_encoding(item).subrange(49, 57) == le64(item.used_size as u64),
        item_encoding(item).subrange(57, 65) == le64(item.max_size as u64),
{
    lemma_le64(item.current_offset as u64);
    lemma_le64(item.used_size as u64);
    lemma_le64(item.max_size as u64);
    lemma_le64(INNER_METADATA_LEN);
    lemma_le_layout(item.current_item_id@);
    lemma_le_layout(item.current_shard_id@);
    match item.moved_shard_id {
        Some(u) => {
            lemma_le_layout(u@);
            lemma_le64(item.moved_offset.unwrap() as u64);
        },
        None => {},
    }
    let s = item_encoding(item);
    assert(s.subrange(49, 57) =~= le64(item.used_size as u64));
    assert(s.subrange(57, 65) =~= le64(item.max_size as u64));
}

/// The indexes of the items that the writes of `update_writes` rewrite, in order.
pub open spec fn update_indexes(s: DataShard, es: Seq<(u64, Seq<u8>)>) -> Seq<int>
    decreases es.len(),
{
    if es.len() == 0 {
        Seq::empty()
    } else {
        let p = update_indexes(s, es.drop_last());
        let e = es.last();
        if live_entry(s, e) && entry_fits(s, e) {
            p.push(entry_index(e))
        } else {
            p
        }
    }
}

/// The indexes of the items whose rows move, in order.
pub open spec fn moved_indexes(s: DataShard, es: Seq<(u64, Seq<u8>)>) -> Seq<int>
    decreases es.len(),
{
    if es.len() == 0 {
        Seq::empty()
    } else {
        let p = moved_indexes(s, es.drop_last());
        let e = es.last();
        if live_entry(s, e) && !entry_fits(s, e) {
            p.push(entry_index(e))
        } else {
            p
        }
    }
}

/// What a rewrite of item `i` of `s` with bytes `b` needs: `b` reads as an
/// item with the same data area size and a used part within it.
pub open spec fn rewrite_ok(s: DataShard, i: int, b: Seq<u8>) -> bool {
    &&& 0 <= i < s.header.used()
    &&& b.len() == ITEM_HEADER_LEN + decoded_max_size(s.item_bytes(i))
    &&& b[0] <= 2
    &&& from_le64(b.subrange(57, 65)) == decoded_max_size(s.item_bytes(i))
    &&& from_le64(b.subrange(49, 57)) <= decoded_max_size(s.item_bytes(i))
}

/// A shard that keeps the layout of `s`: the same header, id and path,
/// the same item positions, and the same data area sizes.
pub open spec fn same_layout(s: DataShard, t: DataShard) -> bool {
    &&& t.wf()
    &&& t.header == s.header
    &&& t.id == s.id
    &&& t.path@ == s.path@
    &&& t.data@.len() == s.data@.len()
    &&& forall|j: int| 0 <= j < s.header.used() ==> #[trigger] t.item_start(j) == s.item_start(j)
    &&& forall|j: int| 0 <= j < s.header.used() ==> #[trigger] t.item_end(j) == s.item_end(j)
    &&& forall|j: int|
        0 <= j < s.header.used() ==> #[trigger] decoded_max_size(t.item_bytes(j)) == decoded_max_size(s.item_bytes(j))
}

proof fn lemma_rewrite_step(s: DataShard, t: DataShard, u: DataShard, i: int, b: Seq<u8>)
    requires
        s.wf(),
        same_layout(s, t),
        rewrite_ok(s, i, b),
        u.header == t.header,
        u.id == t.id,
        u.path@ == t.path@,
        u.data@ == write_bytes(t.data@, s.item_start(i), b),
    ensures
        same_layout(s, u),
{
    assert(t.item_start(i) == s.item_start(i));
    lemma_rewrite_keeps_wf(t, u, i, b);
    let r = t.item_bytes(i);
    assert(u.item_bytes(i).subrange(57, 65) =~= b.subrange(57, 65));
    assert forall|j: int| 0 <= j < s.header.used() implies #[trigger] decoded_max_size(u.item_bytes(j))
        == decoded_max_size(s.item_bytes(j)) by {
        if j != i {
            assert(u.item_bytes(j) == t.item_bytes(j));
        }
    }
}

/// The facts the first pass of `update_items` keeps of its lists.
pub open spec fn update_list_ok(s: DataShard, pre: Seq<(u64, Seq<u8>)>, upd: Seq<(usize, ShardItem)>) -> bool {
    &&& upd.len() == update_writes(s, pre).len()
    &&& upd.len() == update_indexes(s, pre).len()
    &&& forall|k: int|
        0 <= k < upd.len() ==> {
            let w = update_writes(s, pre)[k];
            let j = update_indexes(s, pre)[k];
            &&& (#[trigger] upd[k]).0 == w.0
            &&& item_encoding(upd[k].1) == w.1
            &&& upd[k].1.moved_shard_id is Some ==> upd[k].1.moved_offset is Some
            &&& w.0 == s.item_start(j)
            &&& rewrite_ok(s, j, w.1)
        }
}

/// An item to move, read from region `r`.
pub open spec fn move_item_ok(it: ShardItem, r: Seq<u8>) -> bool {
    &&& item_of_region(it, r)
    &&& it.shard_item_type == ShardItemType::Moved
    &&& it.used_size == decoded_used_size(r)
    &&& it.data@ == decoded_data(r)
    &&& it.used_size <= it.max_size
    &&& it.data@.len() == it.max_size
}

pub open spec fn move_list_ok(s: DataShard, pre: Seq<(u64, Seq<u8>)>, mov: Seq<(usize, Vec<u8>, ShardItem)>) -> bool {
    &&& mov.len() == moved_entries(s, pre).len()
    &&& mov.len() == moved_indexes(s, pre).len()
    &&& forall|k: int|
        0 <= k < mov.len() ==> {
            let m = moved_entries(s, pre)[k];
            let j = moved_indexes(s, pre)[k];
            &&& (#[trigger] mov[k]).0 == m.0
            &&& mov[k].1@ == m.1
            &&& m.0 == s.item_start(j)
            &&& m.2 == s.item_bytes(j)
            &&& 0 <= j < s.header.used()
            &&& move_item_ok(mov[k].2, m.2)
        }
}

proof fn lemma_lists_skip(
    s: DataShard,
    pre: Seq<(u64, Seq<u8>)>,
    e: (u64, Seq<u8>),
    upd: Seq<(usize, ShardItem)>,
    mov: Seq<(usize, Vec<u8>, ShardItem)>,
)
    requires
        update_list_ok(s, pre, upd),
        move_list_ok(s, pre, mov),
        !live_entry(s, e),
    ensures
        update_list_ok(s, pre.push(e), upd),
        move_list_ok(s, pre.push(e), mov),
{
    lemma_entries_step(s, pre, e);
}

proof fn lemma_lists_update(
    s: DataShard,
    pre: Seq<(u64, Seq<u8>)>,
    e: (u64, Seq<u8>),
    upd: Seq<(usize, ShardItem)>,
    mov: Seq<(usize, Vec<u8>, ShardItem)>,
    x: (usize, ShardItem),
)
    requires
        update_list_ok(s, pre, upd),
        move_list_ok(s, pre, mov),
        live_entry(s, e),
        entry_fits(s, e),
        x.0 == s.item_start(entry_index(e)),
        item_encoding(x.1) == refreshed_bytes(s.item_bytes(entry_index(e)), e.1),
        x.1.moved_shard_id is Some ==> x.1.moved_offset is Some,
        rewrite_ok(s, entry_index(e), refreshed_bytes(s.item_bytes(entry_index(e)), e.1)),
    ensures
        update_list_ok(s, pre.push(e), upd.push(x)),
        move_list_ok(s, pre.push(e), mov),
{
    lemma_entries_step(s, pre, e);
    let n = upd.len() as int;
    assert forall|k: int| 0 <= k < upd.push(x).len() implies {
        let w = update_writes(s, pre.push(e))[k];
        let j = update_indexes(s, pre.push(e))[k];
        &&& (#[trigger] upd.push(x)[k]).0 == w.0
        &&& item_encoding(upd.push(x)[k].1) == w.1
        &&& upd.push(x)[k].1.moved_shard_id is Some ==> upd.push(x)[k].1.moved_offset is Some
        &&& w.0 == s.item_start(j)
        &&& rewrite_ok(s, j, w.1)
    } by {
        if k < n {
            assert(upd.push(x)[k] == upd[k]);
        }
    }
}

proof fn lemma_lists_move(
    s: DataShard,
    pre: Seq<(u64, Seq<u8>)>,
    e: (u64, Seq<u8>),
    upd: Seq<(usize, ShardItem)>,
    mov: Seq<(usize, Vec<u8>, ShardItem)>,
    x: (usize, Vec<u8>, ShardItem),
)
    requires
        update_list_ok(s, pre, upd),
        move_list_ok(s, pre, mov),
        live_entry(s, e),
        !entry_fits(s, e),
        0 <= entry_index(e) < s.header.used(),
        x.0 == s.item_start(entry_index(e)),
        x.1@ == e.1,
        move_item_ok(x.2, s.item_bytes(entry_index(e))),
    ensures
        update_list_ok(s, pre.push(e), upd),
        move_list_ok(s, pre.push(e), mov.push(x)),
{
    lemma_entries_step(s, pre, e);
    let n = mov.len() as int;
    assert forall|k: int| 0 <= k < mov.push(x).len() implies {
        let m = moved_entries(s, pre.push(e))[k];
        let j = moved_indexes(s, pre.push(e))[k];
        &&& (#[trigger] mov.push(x)[k]).0 == m.0
        &&& mov.push(x)[k].1@ == m.1
        &&& m.0 == s.item_start(j)
        &&& m.2 == s.item_bytes(j)
        &&& 0 <= j < s.header.used()
        &&& move_item_ok(mov.push(x)[k].2, m.2)
    } by {
        if k < n {
            assert(mov.push(x)[k] == mov[k]);
        }
    }
}

/// How the writes and moves of an update grow by one entry.
proof fn lemma_entries_step(s: DataShard, pre: Seq<(u64, Seq<u8>)>, e: (u64, Seq<u8>))
    ensures
        update_writes(s, pre.push(e)) == if live_entry(s, e) && entry_fits(s, e) {
            update_writes(s, pre).push((s.item_start(entry_index(e)), refreshed_bytes(s.item_bytes(entry_index(e)), e.1)))
        } else {
            update_writes(s, pre)
        },
        update_indexes(s, pre.push(e)) == if live_entry(s, e) && entry_fits(s, e) {
            update_indexes(s, pre).push(entry_index(e))
        } else {
            update_indexes(s, pre)
        },
        moved_entries(s, pre.push(e)) == if live_entry(s, e) && !entry_fits(s, e) {
            moved_entries(s, pre).push((s.item_start(entry_index(e)), e.1, s.item_bytes(entry_index(e))))
        } else {
            moved_entries(s, pre)
        },
        moved_indexes(s, pre.push(e)) == if live_entry(s, e) && !entry_fits(s, e) {
            moved_indexes(s, pre).push(entry_index(e))
        } else {
            moved_indexes(s, pre)
        },
{
    assert(pre.push(e).drop_last() =~= pre);
    assert(pre.push(e).last() == e);
}

/// How an update that stopped at its `k`th move leaves the shard and the
/// chain: the fitting updates and the first `k` moves made, those moves held
/// where `targets` says, and the `k`th moved row refused by the chain as it
/// then stands.
pub open spec fn update_stopped(
    old_s: DataShard,
    old_map: MapShard<DataShard, DataShardConfig>,
    new_s: DataShard,
    new_map: MapShard<DataShard, DataShardConfig>,
    es: Seq<(u64, Seq<u8>)>,
    k: int,
    targets: Seq<(Seq<u8>, usize)>,
) -> bool {
    let rows = moved_rows(old_s, es);
    &&& 0 <= k < rows.len()
    &&& targets.len() == k
    &&& new_map.all_items() == old_map.all_items() + rows.subrange(0, k)
    &&& !new_map.takes_one(rows[k])
    &&& new_s.data@ == apply_writes(
        apply_writes(old_s.data@, update_writes(old_s, es)),
        move_writes(moved_entries(old_s, es).subrange(0, k), targets),
    )
    &&& forall|q: int| 0 <= q < k ==> new_map.holds_row((#[trigger] targets[q]).0, targets[q].1 as int, rows[q])
}

impl DataShard {
    /// Updates rows in place. Each entry names an item by index and gives
    /// its new data; entries whose index is not in use, or whose item is
    /// already moved, are skipped. New data that fits the item's data area
    /// is written into it; an item whose new data does not fit is marked
    /// moved, its new data goes to `map_shard` as a new row, and the item
    /// records the master that took it and its index there. The items are
    /// read before any is written: first the fitting updates are written,
    /// in entry order, then the moves. A move that the chain, as it then
    /// stands, cannot take stops the update with `FailedUpdate`, the writes
    /// and moves before it made.
    #[verifier::rlimit(60)]
    pub fn update_items(&mut self, data: Vec<(u64, &[u8])>, map_shard: &mut MapShard<DataShard, DataShardConfig>) -> (r: Result<(), ShardErrors>)
        requires
            old(self).wf(),
            old(map_shard).inv(),
        ensures
            final(self).wf(),
            final(self).header == old(self).header,
            final(self).id == old(self).id,
            final(self).path@ == old(self).path@,
            final(map_shard).inv(),
            r is Ok ==> final(map_shard).all_items() == old(map_shard).all_items() + moved_rows(
                *old(self),
                update_entries(data@),
            ),
            r is Ok ==> exists|targets: Seq<(Seq<u8>, usize)>|
                {
                    &&& targets.len() == moved_entries(*old(self), update_entries(data@)).len()
                    &&& final(self).data@ == apply_writes(
                        apply_writes(old(self).data@, update_writes(*old(self), update_entries(data@))),
                        move_writes(moved_entries(*old(self), update_entries(data@)), targets),
                    )
                    &&& forall|k: int|
                        0 <= k < targets.len() ==> final(map_shard).holds_row(
                            (#[trigger] targets[k]).0,
                            targets[k].1 as int,
                            moved_rows(*old(self), update_entries(data@))[k],
                        )
                },
            r is Err ==> r == Err::<(), ShardErrors>(ShardErrors::FailedUpdate),
            r is Err ==> exists|k: int, targets: Seq<(Seq<u8>, usize)>|
                #[trigger] update_stopped(*old(self), *old(map_shard), *final(self), *final(map_shard), update_entries(data@), k, targets),
    {
        let ghost old_s = *self;
        let ghost es = update_entries(data@);
        let mut items_to_update: Vec<(usize, ShardItem)> = Vec::new();
        let mut items_to_move: Vec<(usize, Vec<u8>, ShardItem)> = Vec::new();
        let mut i: usize = 0;
        while i < data.len()
            invariant
                i <= data@.len(),
                *self == old_s,
                old_s.wf(),
                es == update_entries(data@),
                update_list_ok(old_s, es.subrange(0, i as int), items_to_update@),
                move_list_ok(old_s, es.subrange(0, i as int), items_to_move@),
            decreases data@.len() - i,
        {
            let (index, update_data) = data[i];
            let ghost pre = es.subrange(0, i as int);
            let ghost e = es[i as int];
            proof {
                assert(es.subrange(0, i + 1) =~= pre.push(e));
                assert(e == (index, update_data@));
                lemma_entries_step(old_s, pre, e);
            }
            let ghost j = entry_index(e);
            match DataShard::read_item_from_index(self, index as usize) {
                Ok(mut res) => {
                    let ghost region = self.item_bytes(j);
                    proof {
                        assert(item_readable(region));
                        assert(old_s.header.max_offset_positions <= old_s.item_start(j) <= old_s.item_end(j) <= old_s.data@.len());
                    }
                    if !res.shard_item_type.is_moved() {
                        assert((index as usize) < self.header.used());
                        assert(res.internal_pos() == Some(self.item_start((index as usize) as int) as usize));
                        assert(j == (index as usize) as int);
                        let _file_len = self.data.len();
                        let ghost pos_before = res.internal_pos();
                        res.update(update_data);
                        let ip = res.get_internal_pos();
                        assert(ip == pos_before);
                        let internal_pos = ip.unwrap();
                        assert(old_s.item_start(j) <= old_s.data@.len());
                        assert(internal_pos == old_s.item_start(j));
                        if res.shard_item_type.is_moved() {
                            let x = (internal_pos, slice_to_vec(update_data), res);
                            proof {
                                lemma_lists_move(old_s, pre, e, items_to_update@, items_to_move@, x);
                            }
                            items_to_move.push(x);
                        } else {
                            proof {
                                lemma_encoding_layout(res);
                                lemma_le64(res.used_size as u64);
                                lemma_le64(res.max_size as u64);
                                lemma_type_byte(res.shard_item_type);
                                assert(res.data@ =~= update_data@ + decoded_data(region).subrange(
                                    update_data@.len() as int,
                                    decoded_max_size(region) as int,
                                ));
                                assert(item_encoding(res) =~= refreshed_bytes(region, update_data@));
                                lemma_lists_update(old_s, pre, e, items_to_update@, items_to_move@, (internal_pos, res));
                            }
                            items_to_update.push((internal_pos, res));
                        }
                    } else {
                        proof {
                            lemma_lists_skip(old_s, pre, e, items_to_update@, items_to_move@);
                        }
                    }
                },
                Err(_) => {
                    proof {
                        lemma_lists_skip(old_s, pre, e, items_to_update@, items_to_move@);
                    }
                },
            }
            i = i + 1;
        }
        assert(es.subrange(0, data@.len() as int) =~= es);
        let ghost uw = update_writes(old_s, es);
        let ghost ui = update_indexes(old_s, es);
        let mut k: usize = 0;
        while k < items_to_update.len()
            invariant
                k <= items_to_update@.len(),
                items_to_update@.len() == uw.len(),
                items_to_update@.len() == ui.len(),
                forall|q: int|
                    0 <= q < items_to_update@.len() ==> {
                        &&& (#[trigger] items_to_update@[q]).0 == uw[q].0
                        &&& item_encoding(items_to_update@[q].1) == uw[q].1
                        &&& items_to_update@[q].1.moved_shard_id is Some ==> items_to_update@[q].1.moved_offset is Some
                        &&& uw[q].0 == old_s.item_start(ui[q])
                        &&& rewrite_ok(old_s, ui[q], uw[q].1)
                    },
                old_s.wf(),
                same_layout(old_s, *self),
                self.data@ == apply_writes(old_s.data@, uw.subrange(0, k as int)),
            decreases items_to_update@.len() - k,
        {
            let ghost before = *self;
            let offset = items_to_update[k].0;
            let bytes = items_to_update[k].1.to_vec();
            proof {
                let jj = ui[k as int];
                assert(old_s.header.max_offset_positions <= old_s.item_start(jj) <= old_s.item_end(jj) <= old_s.data@.len());
                assert(old_s.item_bytes(jj).len() >= ITEM_HEADER_LEN + decoded_max_size(old_s.item_bytes(jj)));
            }
            write_at(&mut self.data, bytes.as_slice(), offset);
            proof {
                lemma_rewrite_step(old_s, before, *self, ui[k as int], uw[k as int].1);
                assert(uw.subrange(0, k + 1).drop_last() =~= uw.subrange(0, k as int));
            }
            k = k + 1;
        }
        assert(uw.subrange(0, uw.len() as int) =~= uw);
        let ghost mid = self.data@;
        let ghost me = moved_entries(old_s, es);
        let ghost mi = moved_indexes(old_s, es);
        let ghost rows = moved_rows(old_s, es);
        let ghost old_map = *map_shard;
        let ghost moving = items_to_move@;
        let ghost mut targets: Seq<(Seq<u8>, usize)> = Seq::empty();
        let n_move = items_to_move.len();
        let mut k: usize = 0;
        while k < n_move
            invariant
                k <= n_move,
                n_move == moving.len(),
                moving.len() == me.len(),
                moving.len() == mi.len(),
                items_to_move@ == moving.subrange(k as int, moving.len() as int),
                rows == moved_rows(old_s, es),
                forall|q: int|
                    0 <= q < moving.len() ==> {
                        let m = me[q];
                        let j = mi[q];
                        let it = (#[trigger] moving[q]).2;
                        &&& moving[q].0 == m.0
                        &&& moving[q].1@ == m.1
                        &&& m.0 == old_s.item_start(j)
                        &&& m.2 == old_s.item_bytes(j)
                        &&& 0 <= j < old_s.header.used()
                        &&& item_of_region(it, m.2)
                        &&& it.shard_item_type == ShardItemType::Moved
                        &&& it.used_size == decoded_used_size(m.2)
                        &&& it.data@ == decoded_data(m.2)
                        &&& it.used_size <= it.max_size
                        &&& it.data@.len() == it.max_size
                    },
                old_s.wf(),
                same_layout(old_s, *self),
                map_shard.inv(),
                targets.len() == k,
                self.data@ == apply_writes(mid, move_writes(me.subrange(0, k as int), targets)),
                mid == apply_writes(old_s.data@, uw),
                uw == update_writes(old_s, es),
                map_shard.all_items() == old_map.all_items() + rows.subrange(0, k as int),
                forall|q: int| 0 <= q < k ==> map_shard.holds_row((#[trigger] targets[q]).0, targets[q].1 as int, rows[q]),
                old_map == *old(map_shard),
                old_s == *old(self),
                me == moved_entries(old_s, es),
                es == update_entries(data@),
            decreases n_move - k,
        {
            let ghost before = *self;
            assert(items_to_move@[0] == moving[k as int]);
            let (offset, new_item, mut moved_item) = items_to_move.remove(0);
            if !map_shard.takes_row(new_item.as_slice()) {
                proof {
                    assert(new_item@ == rows[k as int]);
                    assert(update_stopped(old_s, old_map, *self, *map_shard, es, k as int, targets));
                }
                return Err(ShardErrors::FailedUpdate);
            }
            let row: &[u8] = new_item.as_slice();
            let one: [&[u8]; 1] = [row];
            proof {
                assert(slices_view(one@) =~= seq![row@]);
            }
            let ghost map_before = *map_shard;
            map_shard.insert_rows(one.as_slice());
            let id_text = map_shard.current_master_shard.get_id();
            let shard_id = parse_uuid(id_text.as_str()).unwrap();
            let local = map_shard.current_master_shard.get_last_index();
            proof {
                let m = map_shard.current_master_shard;
                let pk = map_shard.past_master_shards@.len() as int;
                assert(map_shard.shards()[pk] == m);
                assert(m.spec_items()[local as int] == row@);
                assert(map_shard.holds_row(shard_id@, local as int, row@));
                assert forall|q: int| 0 <= q < k implies map_shard.holds_row((#[trigger] targets[q]).0, targets[q].1 as int, rows[q]) by {
                    assert(map_before.holds_row(targets[q].0, targets[q].1 as int, rows[q]));
                }
            }
            moved_item.moved_shard_id = Some(shard_id);
            moved_item.moved_offset = Some(local as usize);
            let ghost target = (shard_id@, local as usize);
            proof {
                lemma_encoding_layout(moved_item);
                lemma_le64(moved_item.used_size as u64);
                lemma_le64(moved_item.max_size as u64);
                lemma_type_byte(moved_item.shard_item_type);
                assert(item_encoding(moved_item) =~= moved_bytes(me[k as int].2, target));
            }
            let bytes = moved_item.to_vec();
            let ghost jj = mi[k as int];
            proof {
                assert(old_s.header.max_offset_positions <= old_s.item_start(jj) <= old_s.item_end(jj) <= old_s.data@.len());
            }
            write_at(&mut self.data, bytes.as_slice(), offset);
            proof {
                lemma_rewrite_step(old_s, before, *self, jj, bytes@);
                let t2 = targets.push(target);
                let w2 = move_writes(me.subrange(0, k + 1), t2);
                assert(w2.drop_last() =~= move_writes(me.subrange(0, k as int), targets));
                assert(w2.last() == (me[k as int].0, moved_bytes(me[k as int].2, target)));
                assert(rows[k as int] == row@);
                assert forall|q: int| 0 <= q < k + 1 implies map_shard.holds_row((#[trigger] t2[q]).0, t2[q].1 as int, rows[q]) by {
                    if q < k {
                        assert(t2[q] == targets[q]);
                    }
                }
                targets = t2;
                assert(rows.subrange(0, k + 1) =~= rows.subrange(0, k as int).push(row@));
                assert(moving.subrange(k + 1, moving.len() as int) =~= moving.subrange(k as int, moving.len() as int).remove(0));
            }
            k = k + 1;
        }
        assert(me.subrange(0, n_move as int) =~= me);
        Ok(())
    }
}

} // verus!
