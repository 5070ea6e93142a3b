//! Temporary shards in front of a chain: rows are written to small
//! temporary shards first and reconciled into the chain, in order, when a
//! temporary shard fills up or on request.
use vstd::prelude::*;
use crate::errors::ShardErrors;
use crate::ids::{new_uuid_v4, uuid_to_string, uuid_text};
use crate::map_shard::{MapShard, DataWithIndex, concat_rows, shape_after, single_position, lemma_shape_after_add};
use crate::shard::{Shard, ShardConfig, TempShardConfig, slices_view, insert_outcome};
use crate::text::{join_path, join_spec, chars_of, string_of, push_text};

verus! {

/// The index of the first `true`, or the length where there is none.
pub open spec fn first_true(flags: Seq<bool>) -> int
    decreases flags.len(),
{
    if flags.len() == 0 {
        0
    } else if first_true(flags.drop_last()) < flags.len() - 1 {
        first_true(flags.drop_last())
    } else if flags.last() {
        flags.len() - 1
    } else {
        flags.len() as int
    }
}

pub proof fn lemma_first_true(flags: Seq<bool>)
    ensures
        0 <= first_true(flags) <= flags.len(),
        first_true(flags) < flags.len() ==> flags[first_true(flags)],
        forall|i: int| 0 <= i < first_true(flags) ==> !flags[i],
    decreases flags.len(),
{
    if flags.len() > 0 {
        lemma_first_true(flags.drop_last());
        assert forall|i: int| 0 <= i < first_true(flags) implies !flags[i] by {
            if i < flags.len() - 1 {
                assert(flags.drop_last()[i] == flags[i]);
            }
        }
    }
}

/// Temporary shards, the chain they are reconciled into, and the rows
/// reconciled so far, batch by batch, not yet handed on.
pub struct TempMapShard<S: Shard<Opts>, Opts: ShardConfig, TempOpts: TempShardConfig<Opts>> {
    pub folder: String,
    pub prefix: String,
    pub parent_shard: MapShard<S, Opts>,
    pub temp_shards: Vec<S>,
    pub temp_opts: TempOpts,
    pub reconciled: Vec<Vec<DataWithIndex>>,
}

/// What a reconciliation hands on: the rows, in order.
pub open spec fn batch_rows(b: Seq<DataWithIndex>) -> Seq<Seq<u8>> {
    Seq::new(b.len(), |k: int| b[k].data@)
}

impl<S: Shard<Opts>, Opts: ShardConfig, TempOpts: TempShardConfig<Opts>> TempMapShard<S, Opts, TempOpts> {
    /// The rows of each temporary shard, in order.
    pub open spec fn temp_items(&self) -> Seq<Seq<Seq<u8>>> {
        Seq::new(self.temp_shards@.len(), |k: int| self.temp_shards@[k].spec_items())
    }

    /// Which temporary shards have space.
    pub open spec fn space_flags(&self) -> Seq<bool> {
        Seq::new(self.temp_shards@.len(), |k: int| self.temp_shards@[k].spec_has_space())
    }

    /// The chain and every temporary shard keep their invariants, and new
    /// temporary shards can be made.
    pub open spec fn inv(&self) -> bool {
        &&& self.parent_shard.inv()
        &&& forall|k: int| 0 <= k < self.temp_shards@.len() ==> (#[trigger] self.temp_shards@[k]).inv()
        &&& S::openable(Seq::empty(), self.temp_opts.spec_config())
    }

    /// No temporary shard yet, in front of `parent_shard`.
    pub fn new(folder: String, prefix: &str, parent_shard: MapShard<S, Opts>, temp_opts: TempOpts) -> (r: Self)
        ensures
            r.folder@ == folder@,
            r.prefix@ == prefix@,
            r.parent_shard == parent_shard,
            r.temp_shards@.len() == 0,
            r.temp_opts == temp_opts,
            r.reconciled@.len() == 0,
    {
        TempMapShard {
            folder,
            prefix: string_of(chars_of(prefix).as_slice()),
            parent_shard,
            temp_shards: Vec::new(),
            temp_opts,
            reconciled: Vec::new(),
        }
    }

    /// A new, empty temporary shard named by the prefix and a fresh id.
    fn create_shard(&self) -> (r: S)
        requires
            S::openable(Seq::empty(), self.temp_opts.spec_config()),
        ensures
            r.inv(),
            r.spec_items().len() == 0,
            r.spec_capacity() == S::config_capacity(self.temp_opts.spec_config()),
            forall|rows: Seq<Seq<u8>>| #[trigger] r.accepts(rows) == S::fresh_accepts(self.temp_opts.spec_config(), rows),
            forall|n: nat| #[trigger] r.recorded(n) == S::fresh_recorded(self.temp_opts.spec_config(), n),
            exists|id: Seq<u8>| r.spec_path() == join_spec(self.folder@, self.prefix@ + uuid_text(id)),
    {
        let id = new_uuid_v4();
        let mut name = string_of(chars_of(self.prefix.as_str()).as_slice());
        let id_text = uuid_to_string(&id);
        push_text(&mut name, chars_of(id_text.as_str()).as_slice());
        let shard_path = join_path(self.folder.as_str(), name.as_str());
        S::new(shard_path, Vec::new(), self.temp_opts.to_config(), None)
    }

    /// Inserts every row of `from` into `target`, one at a time, and gives
    /// each row with the position `target` gave it. A row that `target`
    /// does not take stops the reconciliation with `ErrorAddingEntry`,
    /// the rows before it inserted.
    fn reconcile(from: &S, target: &mut MapShard<S, Opts>) -> (r: Result<Vec<DataWithIndex>, ShardErrors>)
        requires
            from.inv(),
            old(target).inv(),
        ensures
            final(target).inv(),
            final(target).config == old(target).config,
            r matches Ok(v) ==> {
                &&& final(target).all_items() == old(target).all_items() + from.spec_items()
                &&& batch_rows(v@) == from.spec_items()
                &&& final(target).shape() == shape_after::<S, Opts>(
                    old(target).config,
                    old(target).shape(),
                    v@.len(),
                )
                &&& forall|k: int|
                    0 <= k < v@.len() ==> (#[trigger] v@[k]).index == single_position::<S, Opts>(
                        old(target).config,
                        shape_after::<S, Opts>(old(target).config, old(target).shape(), k as nat),
                    )
            },
            r matches Err(e) ==> e == ShardErrors::ErrorAddingEntry && exists|k: int|
                0 <= k < from.spec_items().len() && final(target).all_items() == old(target).all_items()
                    + from.spec_items().subrange(0, k) && !final(target).takes_one(from.spec_items()[k]),
    {
        proof {
            from.lemma_sizes();
        }
        let ghost items = from.spec_items();
        let ghost start = target.all_items();
        let ghost start_shape = target.shape();
        let last = from.get_last_index();
        let n: usize = if last < 0 {
            0
        } else {
            last as usize + 1
        };
        let mut out: Vec<DataWithIndex> = Vec::new();
        let mut i: usize = 0;
        while i < n
            invariant
                i <= n,
                n == items.len(),
                items == from.spec_items(),
                from.inv(),
                forall|k: int| 0 <= k < items.len() ==> #[trigger] from.readable(k),
                target.inv(),
                target.config == old(target).config,
                start == old(target).all_items(),
                target.all_items() == start + items.subrange(0, i as int),
                batch_rows(out@) == items.subrange(0, i as int),
                start_shape == old(target).shape(),
                out@.len() == i,
                target.shape() == shape_after::<S, Opts>(target.config, start_shape, i as nat),
                forall|k: int|
                    0 <= k < i ==> (#[trigger] out@[k]).index == single_position::<S, Opts>(
                        target.config,
                        shape_after::<S, Opts>(target.config, start_shape, k as nat),
                    ),
            decreases n - i,
        {
            assert(from.readable(i as int));
            let item = match from.read_item_from_index(i) {
                Ok(v) => v,
                Err(_) => {
                    return Err(ShardErrors::ErrorAddingEntry);
                },
            };
            if !target.takes_row(item.as_slice()) {
                return Err(ShardErrors::ErrorAddingEntry);
            }
            let one: [&[u8]; 1] = [item.as_slice()];
            proof {
                assert(slices_view(one@) =~= seq![item@]);
            }
            let ghost target_before = *target;
            let pos = target.insert_rows(one.as_slice());
            let ghost before = out@;
            out.push(DataWithIndex { data: item, index: pos as u64 });
            proof {
                assert(pos == single_position::<S, Opts>(target.config, target_before.shape()));
                assert(target.shape() == shape_after::<S, Opts>(target.config, start_shape, (i + 1) as nat));
                assert forall|k: int| 0 <= k < i + 1 implies (#[trigger] out@[k]).index == single_position::<S, Opts>(
                    target.config,
                    shape_after::<S, Opts>(target.config, start_shape, k as nat),
                ) by {
                    if k < i {
                        assert(out@[k] == before[k]);
                    }
                }
                assert(items.subrange(0, i + 1) =~= items.subrange(0, i as int).push(items[i as int]));
                assert(batch_rows(out@) =~= batch_rows(before).push(items[i as int]));
            }
            i = i + 1;
        }
        assert(items.subrange(0, n as int) =~= items);
        Ok(out)
    }

    /// The temporary shard that `reconcile_specific` takes for `shard_position`:
    /// the given one, or the last.
    pub open spec fn chosen_position(&self, shard_position: Option<usize>) -> int {
        match shard_position {
            Some(p) => p as int,
            None => self.temp_shards@.len() - 1,
        }
    }

    /// Reconciles one temporary shard, the given one or the last, into the
    /// chain and drops it; the reconciled rows are kept for handing on. A
    /// position with no temporary shard changes nothing.
    #[verifier::spinoff_prover]
    pub fn reconcile_specific(&mut self, shard_position: Option<usize>) -> (r: Result<(), ShardErrors>)
        requires
            old(self).inv(),
        ensures
            final(self).inv(),
            final(self).temp_opts == old(self).temp_opts,
            final(self).folder == old(self).folder,
            final(self).prefix == old(self).prefix,
            ({
                let p = old(self).chosen_position(shard_position);
                &&& !(0 <= p < old(self).temp_shards@.len()) ==> {
                    &&& r is Ok
                    &&& final(self).temp_items() == old(self).temp_items()
                    &&& final(self).parent_shard == old(self).parent_shard
                    &&& final(self).reconciled@ == old(self).reconciled@
                }
                &&& 0 <= p < old(self).temp_shards@.len() && r is Ok ==> {
                    &&& final(self).parent_shard.all_items() == old(self).parent_shard.all_items()
                        + old(self).temp_items()[p]
                    &&& final(self).temp_items() == old(self).temp_items().remove(p)
                    &&& final(self).reconciled@.len() == old(self).reconciled@.len() + 1
                    &&& batch_rows(final(self).reconciled@.last()@) == old(self).temp_items()[p]
                    &&& final(self).reconciled@.drop_last() == old(self).reconciled@
                    &&& final(self).parent_shard.shape() == shape_after::<S, Opts>(
                        old(self).parent_shard.config,
                        old(self).parent_shard.shape(),
                        old(self).temp_items()[p].len(),
                    )
                    &&& forall|k: int|
                        0 <= k < final(self).reconciled@.last()@.len() ==> (#[trigger] final(self).reconciled@.last()@[k]).index
                            == single_position::<S, Opts>(
                            old(self).parent_shard.config,
                            shape_after::<S, Opts>(old(self).parent_shard.config, old(self).parent_shard.shape(), k as nat),
                        )
                }
                &&& r is Err ==> {
                    &&& r == Err::<(), ShardErrors>(ShardErrors::ErrorAddingEntry)
                    &&& 0 <= p < old(self).temp_shards@.len()
                    &&& exists|k: int|
                        0 <= k < old(self).temp_items()[p].len() && final(self).parent_shard.all_items()
                            == old(self).parent_shard.all_items() + old(self).temp_items()[p].subrange(0, k)
                            && !final(self).parent_shard.takes_one(#[trigger] old(self).temp_items()[p][k])
                }
            }),
    {
        let len = self.temp_shards.len();
        let index = match shard_position {
            Some(p) => p,
            None => {
                if len == 0 {
                    return Ok(());
                }
                len - 1
            },
        };
        if index >= len {
            return Ok(());
        }
        let ghost old_items = self.temp_items();
        let ghost from_items = self.temp_shards@[index as int].spec_items();
        let batch = match Self::reconcile(&self.temp_shards[index], &mut self.parent_shard) {
            Ok(b) => b,
            Err(e) => {
                proof {
                    let k = choose|k: int|
                        0 <= k < from_items.len() && self.parent_shard.all_items() == old(self).parent_shard.all_items()
                            + from_items.subrange(0, k) && !self.parent_shard.takes_one(from_items[k]);
                    assert(old_items[index as int] == from_items);
                    assert(!self.parent_shard.takes_one(old_items[index as int][k]));
                }
                return Err(e);
            },
        };
        self.reconciled.push(batch);
        self.temp_shards.remove(index);
        proof {
            assert(self.temp_items() =~= old_items.remove(index as int));
        }
        Ok(())
    }

    /// Reconciles every temporary shard into the chain, in order, and drops
    /// them; the reconciled rows are kept for handing on, a batch per shard.
    pub fn reconcile_all(&mut self) -> (r: Result<(), ShardErrors>)
        requires
            old(self).inv(),
        ensures
            final(self).inv(),
            final(self).temp_opts == old(self).temp_opts,
            final(self).folder == old(self).folder,
            final(self).prefix == old(self).prefix,
            r is Ok ==> {
                &&& final(self).parent_shard.all_items() == old(self).parent_shard.all_items() + concat_rows(
                    old(self).temp_items(),
                )
                &&& final(self).temp_shards@.len() == 0
                &&& final(self).reconciled@.len() == old(self).reconciled@.len() + old(self).temp_shards@.len()
                &&& forall|k: int|
                    0 <= k < old(self).temp_shards@.len() ==> batch_rows(
                        #[trigger] final(self).reconciled@[old(self).reconciled@.len() + k]@,
                    ) == old(self).temp_items()[k]
                &&& final(self).reconciled@.subrange(0, old(self).reconciled@.len() as int) == old(self).reconciled@
                &&& final(self).parent_shard.shape() == shape_after::<S, Opts>(
                    old(self).parent_shard.config,
                    old(self).parent_shard.shape(),
                    concat_rows(old(self).temp_items()).len(),
                )
                &&& forall|b: int, k: int|
                    0 <= b < old(self).temp_shards@.len() && 0 <= k < final(self).reconciled@[old(self).reconciled@.len()
                        + b]@.len() ==> (#[trigger] final(self).reconciled@[old(self).reconciled@.len() + b]@[k]).index
                        == single_position::<S, Opts>(
                        old(self).parent_shard.config,
                        shape_after::<S, Opts>(
                            old(self).parent_shard.config,
                            old(self).parent_shard.shape(),
                            concat_rows(old(self).temp_items().subrange(0, b)).len() + k as nat,
                        ),
                    )
            },
            r is Err ==> r == Err::<(), ShardErrors>(ShardErrors::ErrorAddingEntry),
            r is Err ==> exists|i: int, k: int|
                0 <= i < old(self).temp_shards@.len() && 0 <= k < old(self).temp_items()[i].len()
                    && final(self).parent_shard.all_items() == old(self).parent_shard.all_items() + concat_rows(
                    old(self).temp_items().subrange(0, i),
                ) + old(self).temp_items()[i].subrange(0, k) && !final(self).parent_shard.takes_one(
                    #[trigger] old(self).temp_items()[i][k],
                ),
    {
        let ghost items = self.temp_items();
        let ghost start = self.parent_shard.all_items();
        let ghost r0 = self.reconciled@.len();
        let ghost s0 = self.parent_shard.shape();
        let ghost config = self.parent_shard.config;
        let n = self.temp_shards.len();
        let mut i: usize = 0;
        while i < n
            invariant
                i <= n,
                n == self.temp_shards@.len(),
                items == self.temp_items(),
                self.inv(),
                self.temp_opts == old(self).temp_opts,
                self.folder == old(self).folder,
                self.prefix == old(self).prefix,
                items == old(self).temp_items(),
                start == old(self).parent_shard.all_items(),
                r0 == old(self).reconciled@.len(),
                self.parent_shard.all_items() == start + concat_rows(items.subrange(0, i as int)),
                self.reconciled@.len() == r0 + i,
                forall|k: int| 0 <= k < i ==> batch_rows(#[trigger] self.reconciled@[r0 + k]@) == items[k],
                s0 == old(self).parent_shard.shape(),
                config == old(self).parent_shard.config,
                self.parent_shard.config == config,
                self.reconciled@.subrange(0, r0 as int) == old(self).reconciled@,
                self.parent_shard.shape() == shape_after::<S, Opts>(
                    config,
                    s0,
                    concat_rows(items.subrange(0, i as int)).len(),
                ),
                forall|b: int, k: int|
                    0 <= b < i && 0 <= k < self.reconciled@[r0 + b]@.len() ==> (#[trigger] self.reconciled@[r0
                        + b]@[k]).index == single_position::<S, Opts>(
                        config,
                        shape_after::<S, Opts>(config, s0, concat_rows(items.subrange(0, b)).len() + k as nat),
                    ),
            decreases n - i,
        {
            let ghost from_items = self.temp_shards@[i as int].spec_items();
            let ghost mid = self.parent_shard.all_items();
            let batch = match Self::reconcile(&self.temp_shards[i], &mut self.parent_shard) {
                Ok(b) => b,
                Err(e) => {
                    proof {
                        let k = choose|k: int|
                            0 <= k < from_items.len() && self.parent_shard.all_items() == mid + from_items.subrange(0, k)
                                && !self.parent_shard.takes_one(from_items[k]);
                        assert(items[i as int] == from_items);
                        assert(!self.parent_shard.takes_one(items[i as int][k]));
                        assert(self.parent_shard.all_items() == old(self).parent_shard.all_items() + concat_rows(
                            old(self).temp_items().subrange(0, i as int),
                        ) + old(self).temp_items()[i as int].subrange(0, k));
                        assert(!self.parent_shard.takes_one(old(self).temp_items()[i as int][k]));
                        assert(items.len() == self.temp_shards@.len());
                        assert(old(self).temp_items().len() == old(self).temp_shards@.len());
                        assert(0 <= i < old(self).temp_shards@.len());
                        assert(0 <= k < old(self).temp_items()[i as int].len());
                    }
                    return Err(e);
                },
            };
            let ghost before = self.reconciled@;
            let ghost t_i = concat_rows(items.subrange(0, i as int)).len();
            let ghost bv = batch@;
            self.reconciled.push(batch);
            proof {
                assert(items.subrange(0, i + 1).drop_last() =~= items.subrange(0, i as int));
                assert(items.subrange(0, i + 1).last() == items[i as int]);
                assert(bv.len() == items[i as int].len()) by {
                    assert(batch_rows(bv).len() == bv.len());
                }
                lemma_shape_after_add::<S, Opts>(config, s0, t_i, bv.len());
                assert(concat_rows(items.subrange(0, i + 1)).len() == t_i + bv.len());
                assert(self.reconciled@.subrange(0, r0 as int) =~= before.subrange(0, r0 as int));
                assert forall|b: int, k: int|
                    0 <= b < i + 1 && 0 <= k < self.reconciled@[r0 + b]@.len() implies (#[trigger] self.reconciled@[r0
                        + b]@[k]).index == single_position::<S, Opts>(
                        config,
                        shape_after::<S, Opts>(config, s0, concat_rows(items.subrange(0, b)).len() + k as nat),
                    ) by {
                    if b < i {
                        assert(self.reconciled@[r0 + b] == before[r0 + b]);
                    } else {
                        assert(self.reconciled@[r0 + b]@ == bv);
                        lemma_shape_after_add::<S, Opts>(config, s0, t_i, k as nat);
                    }
                }
                assert forall|k: int| 0 <= k < i + 1 implies batch_rows(#[trigger] self.reconciled@[r0 + k]@) == items[k] by {
                    if k < i {
                        assert(self.reconciled@[r0 + k] == before[r0 + k]);
                    }
                }
            }
            i = i + 1;
        }
        assert(items.subrange(0, n as int) =~= items);
        self.temp_shards.clear();
        Ok(())
    }

    /// Hands on the reconciled batches, oldest first, and forgets them.
    pub fn take_reconciled(&mut self) -> (r: Vec<Vec<DataWithIndex>>)
        ensures
            r@ == old(self).reconciled@,
            final(self).reconciled@.len() == 0,
            final(self).parent_shard == old(self).parent_shard,
            final(self).temp_shards == old(self).temp_shards,
            final(self).temp_opts == old(self).temp_opts,
            final(self).folder == old(self).folder,
            final(self).prefix == old(self).prefix,
    {
        let mut out: Vec<Vec<DataWithIndex>> = Vec::new();
        std::mem::swap(&mut out, &mut self.reconciled);
        out
    }


    /// Appends the rows to the first temporary shard that has space. Where
    /// none has, the last one is reconciled into the chain and dropped, and a
    /// new temporary shard takes the rows. The chosen shard's insertion
    /// answers, with what it records, as `Shard::insert_item` says; rows it
    /// does not take at all (past the sizes a file can have) give
    /// `OutOfPositions` and are not written. A reconciliation that fails
    /// gives `ErrorAddingEntry`.
    pub fn raw_insert_rows(&mut self, data: &[&[u8]]) -> (r: Result<u64, ShardErrors>)
        requires
            old(self).inv(),
        ensures
            final(self).inv(),
            final(self).temp_opts == old(self).temp_opts,
            final(self).folder == old(self).folder,
            final(self).prefix == old(self).prefix,
            ({
                let j = first_true(old(self).space_flags());
                let rows = slices_view(data@);
                let n = old(self).temp_shards@.len();
                &&& j < n ==> {
                    &&& final(self).parent_shard == old(self).parent_shard
                    &&& final(self).reconciled@ == old(self).reconciled@
                    &&& final(self).temp_items().len() == n
                    &&& forall|k: int|
                        0 <= k < n && k != j ==> #[trigger] final(self).temp_items()[k] == old(self).temp_items()[k]
                    &&& old(self).temp_shards@[j].accepts(rows) ==> insert_outcome::<S, Opts>(
                        old(self).temp_items()[j],
                        old(self).temp_shards@[j].recorded(rows.len()),
                        final(self).temp_items()[j],
                        rows,
                        r,
                    )
                    &&& !old(self).temp_shards@[j].accepts(rows) ==> {
                        &&& r == Err::<u64, ShardErrors>(ShardErrors::OutOfPositions)
                        &&& final(self).temp_items() == old(self).temp_items()
                    }
                }
                &&& j == n && r != Err::<u64, ShardErrors>(ShardErrors::ErrorAddingEntry) ==> {
                    let kept = if n > 0 {
                        old(self).temp_items().drop_last()
                    } else {
                        old(self).temp_items()
                    };
                    &&& final(self).parent_shard.all_items() == old(self).parent_shard.all_items() + if n > 0 {
                        old(self).temp_items().last()
                    } else {
                        Seq::empty()
                    }
                    &&& final(self).temp_items().len() == kept.len() + 1
                    &&& final(self).temp_items().drop_last() == kept
                    &&& S::fresh_accepts(old(self).temp_opts.spec_config(), rows) ==> insert_outcome::<S, Opts>(
                        Seq::empty(),
                        S::fresh_recorded(old(self).temp_opts.spec_config(), rows.len()),
                        final(self).temp_items().last(),
                        rows,
                        r,
                    )
                    &&& !S::fresh_accepts(old(self).temp_opts.spec_config(), rows) ==> {
                        &&& r == Err::<u64, ShardErrors>(ShardErrors::OutOfPositions)
                        &&& final(self).temp_items().last().len() == 0
                    }
                }
                &&& r == Err::<u64, ShardErrors>(ShardErrors::ErrorAddingEntry) ==> {
                    &&& j == n && n > 0
                    &&& exists|k: int|
                        0 <= k < old(self).temp_items()[n - 1].len() && final(self).parent_shard.all_items()
                            == old(self).parent_shard.all_items() + old(self).temp_items()[n - 1].subrange(0, k)
                            && !final(self).parent_shard.takes_one(#[trigger] old(self).temp_items()[n - 1][k])
                }
            }),
    {
        let ghost flags = self.space_flags();
        let ghost old_items = self.temp_items();
        proof {
            lemma_first_true(flags);
        }
        let n = self.temp_shards.len();
        let mut i: usize = 0;
        while i < n && !self.temp_shards[i].has_space()
            invariant
                i <= n,
                n == self.temp_shards@.len(),
                flags == self.space_flags(),
                self.inv(),
                *self == *old(self),
                forall|k: int| 0 <= k < i ==> !flags[k],
            decreases n - i,
        {
            i = i + 1;
        }
        proof {
            if i < n {
                assert(flags[i as int]);
            }
            assert(i == first_true(flags)) by {
                if first_true(flags) < i {
                    assert(!flags[first_true(flags)]);
                }
            }
        }
        let shard_index: usize = if i < n {
            i
        } else {
            match self.reconcile_specific(None) {
                Ok(()) => {},
                Err(e) => {
                    return Err(e);
                },
            }
            let shard = self.create_shard();
            assert(shard.spec_items() =~= Seq::<Seq<u8>>::empty());
            let ghost kept = self.temp_items();
            self.temp_shards.push(shard);
            proof {
                assert(self.temp_items() =~= kept.push(Seq::empty()));
                if n > 0 {
                    assert(kept =~= old_items.remove(n - 1));
                    assert(old_items.remove(n - 1) =~= old_items.drop_last());
                }
            }
            self.temp_shards.len() - 1
        };
        let ghost mid_items = self.temp_items();
        let ghost mid_shards = self.temp_shards@;
        let ghost rows = slices_view(data@);
        let mut shard = self.temp_shards.remove(shard_index);
        assert(shard == mid_shards[shard_index as int]);
        let takes = shard.takes(data);
        proof {
            if i >= n {
                assert(shard.spec_items().len() == 0);
                assert(shard.accepts(rows) == S::fresh_accepts(self.temp_opts.spec_config(), rows));
                assert(shard.recorded(rows.len()) == S::fresh_recorded(self.temp_opts.spec_config(), rows.len()));
            } else {
                assert(shard == old(self).temp_shards@[i as int]);
            }
        }
        if !takes {
            self.temp_shards.insert(shard_index, shard);
            proof {
                assert(self.temp_items() =~= mid_items);
            }
            return Err(ShardErrors::OutOfPositions);
        }
        let ghost before = shard;
        let r = shard.insert_item(data);
        self.temp_shards.insert(shard_index, shard);
        proof {
            assert(self.temp_items() =~= mid_items.update(shard_index as int, shard.spec_items()));
            assert(mid_items[shard_index as int] == before.spec_items());
            before.lemma_recorded(rows.len());
            if i >= n {
                assert(before.spec_items() =~= Seq::<Seq<u8>>::empty());
                assert(self.temp_items().last() == shard.spec_items());
                assert(self.temp_items().drop_last() =~= mid_items.drop_last());
            } else {
                assert(mid_items == old(self).temp_items());
                assert(before == old(self).temp_shards@[i as int]);
            }
        }
        r
    }

}

} // verus!
