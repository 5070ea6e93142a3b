//! A chain of shards that behaves as one: rows go to the current master
//! shard, and a full master is put behind the others and replaced by a new one.
//!
//! Shard files are named `<prefix><uuid>_<number>.data`; the number orders the
//! shards of a chain.
use vstd::prelude::*;
use crate::ids::{
    UuidBytes, uuid_text, uuid_to_string, lemma_uuid_text_chars, is_hex_text_char, new_uuid_v4,
    parse_uuid, uuid_parse,
};
use crate::bytes::slice_to_vec;
use crate::errors::ShardErrors;
use crate::shard::{AvailableSpace, Shard, ShardConfig, slices_view, opened_items, opened_limits, file_fits};
use crate::text::{
    chars_of, string_of, push_text, string_push, file_name, file_name_spec, stem, stem_spec,
    split_chars, split_spec, parse_usize, parse_usize_spec, decimal, usize_to_decimal,
    lemma_decimal, has_char, lemma_split_extend, lemma_split_has_sep, lemma_last_index_extend,
    lemma_first_index_at, last_index_of, lemma_last_index_of, join_spec, join_path, same_text,
};

verus! {

/// The suffix of shard file names.
pub open spec fn data_suffix() -> Seq<char> {
    seq!['.', 'd', 'a', 't', 'a']
}

/// The file name of shard `number` of a chain, with id `id`.
pub open spec fn shard_name(prefix: Seq<char>, id: Seq<u8>, number: nat) -> Seq<char> {
    prefix + uuid_text(id) + seq!['_'] + decimal(number) + data_suffix()
}

/// What a shard file path says of its shard: its number and the id text, read
/// from the file name up to its first `.`, cut at every `_`, as the last part
/// and the one before it.
pub open spec fn signature_spec(path: Seq<char>) -> Option<(usize, Seq<char>)> {
    match file_name_spec(path) {
        None => None,
        Some(name) => {
            let parts = split_spec(stem_spec(name), '_');
            if parts.len() < 3 {
                None
            } else {
                match parse_usize_spec(parts.last()) {
                    None => None,
                    Some(n) => Some((n, parts[parts.len() - 2])),
                }
            }
        },
    }
}

/// The part of a prefix after its last `/`: the part of it that stands in
/// a shard's file name.
pub open spec fn name_tail(prefix: Seq<char>) -> Seq<char> {
    prefix.subrange(last_index_of(prefix, '/') + 1, prefix.len() as int)
}

/// The prefixes that shard names can be read back from: the part after
/// their last `/` holds a `_` and no `.`.
pub open spec fn prefix_ok(prefix: Seq<char>) -> bool {
    &&& has_char(name_tail(prefix), '_')
    &&& !has_char(name_tail(prefix), '.')
}

/// The file name of shard `number` with id `id`.
pub fn generate_shard_name(shard_prefix: &str, maybe_new_shard_id: &UuidBytes, number: usize) -> (r: String)
    ensures
        r@ == shard_name(shard_prefix@, maybe_new_shard_id@, number as nat),
{
    let mut name = string_of(chars_of(shard_prefix).as_slice());
    let id_text = uuid_to_string(maybe_new_shard_id);
    push_text(&mut name, chars_of(id_text.as_str()).as_slice());
    string_push(&mut name, '_');
    push_text(&mut name, usize_to_decimal(number).as_slice());
    string_push(&mut name, '.');
    string_push(&mut name, 'd');
    string_push(&mut name, 'a');
    string_push(&mut name, 't');
    string_push(&mut name, 'a');
    assert(name@ =~= shard_name(shard_prefix@, maybe_new_shard_id@, number as nat));
    name
}

/// Reads the number and id text of a shard from its path, which is handed back.
pub fn extract_shard_signature(path: String) -> (r: Option<(usize, String, String)>)
    ensures
        match r {
            None => signature_spec(path@) is None,
            Some((n, id, p)) => signature_spec(path@) == Some((n, id@)) && p@ == path@,
        },
{
    let chars = chars_of(path.as_str());
    let name = match file_name(chars.as_slice()) {
        None => return None,
        Some(n) => n,
    };
    let st = stem(name.as_slice());
    let parts = split_chars(st.as_slice(), '_');
    if parts.len() < 3 {
        return None;
    }
    let last = parts.len() - 1;
    let number = match parse_usize(parts[last].as_slice()) {
        None => return None,
        Some(n) => n,
    };
    let uuid = string_of(parts[last - 1].as_slice());
    Some((number, uuid, path))
}

/// The characters of a shard name other than its prefix: no `/`, `.` or `_`.
proof fn lemma_name_tail_chars(id: Seq<u8>, number: nat)
    requires
        id.len() == 16,
    ensures
        !has_char(uuid_text(id), '/'),
        !has_char(uuid_text(id), '.'),
        !has_char(uuid_text(id), '_'),
        !has_char(decimal(number), '/'),
        !has_char(decimal(number), '.'),
        !has_char(decimal(number), '_'),
{
    lemma_uuid_text_chars(id);
    lemma_decimal(number);
    let u = uuid_text(id);
    assert forall|i: int| 0 <= i < u.len() implies u[i] != '/' && u[i] != '.' && u[i] != '_' by {
        assert(is_hex_text_char(u[i]));
    }
}

/// The last `c` of `s` is at `k` where `s[k]` is `c` and none follows.
proof fn lemma_last_index_at(s: Seq<char>, c: char, k: int)
    requires
        -1 <= k < s.len(),
        k >= 0 ==> s[k] == c,
        forall|i: int| k < i < s.len() ==> s[i] != c,
    ensures
        last_index_of(s, c) == k,
{
    lemma_last_index_of(s, c);
    let li = last_index_of(s, c);
    if li < k {
        assert(s[k] != c);
    }
    if li > k {
        assert(s[li] == c);
    }
}

/// The last `c` of `a + b`, where `a` is empty or ends with `c`: the last
/// of `b`, counted from the start of `a + b`.
proof fn lemma_last_index_after(a: Seq<char>, b: Seq<char>, c: char)
    requires
        a.len() > 0 ==> a.last() == c,
    ensures
        last_index_of(a + b, c) == a.len() + last_index_of(b, c),
{
    lemma_last_index_of(b, c);
    let lb = last_index_of(b, c);
    let s = a + b;
    if lb >= 0 {
        assert(s[a.len() + lb] == b[lb]);
    } else if a.len() > 0 {
        assert(s[a.len() - 1] == a.last());
    }
    assert forall|i: int| a.len() + lb < i < s.len() implies s[i] != c by {
        assert(s[i] == b[i - a.len()]);
    }
    lemma_last_index_at(s, c, a.len() + lb);
}

/// The characters of a shard name after its prefix.
spec fn name_rest(id: Seq<u8>, number: nat) -> Seq<char> {
    uuid_text(id) + seq!['_'] + decimal(number) + data_suffix()
}

/// No `/` follows the prefix in a shard name.
proof fn lemma_name_rest(id: Seq<u8>, number: nat)
    requires
        id.len() == 16,
    ensures
        !has_char(name_rest(id, number), '/'),
        forall|prefix: Seq<char>| #[trigger] shard_name(prefix, id, number) == prefix + name_rest(id, number),
{
    lemma_name_tail_chars(id, number);
    let u = uuid_text(id);
    let d = decimal(number);
    let e = data_suffix();
    let rest = name_rest(id, number);
    assert forall|prefix: Seq<char>| #[trigger] shard_name(prefix, id, number) == prefix + rest by {
        assert(shard_name(prefix, id, number) =~= prefix + rest);
    }
    if has_char(rest, '/') {
        let i = choose|i: int| 0 <= i < rest.len() && rest[i] == '/';
        if i < u.len() {
            assert(u[i] == '/');
        } else if i == u.len() {
        } else if i < u.len() + 1 + d.len() {
            assert(d[i - u.len() - 1] == '/');
        } else {
            assert(e[i - u.len() - 1 - d.len()] == '/');
        }
    }
}

/// The file name of a shard is its name with the prefix cut to its part
/// after the last `/`.
proof fn lemma_shard_file_name(folder: Seq<char>, prefix: Seq<char>, id: Seq<u8>, number: nat)
    requires
        prefix_ok(prefix),
        id.len() == 16,
    ensures
        file_name_spec(join_spec(folder, shard_name(prefix, id, number))) == Some(
            shard_name(name_tail(prefix), id, number),
        ),
{
    let t = name_tail(prefix);
    let li = last_index_of(prefix, '/');
    lemma_last_index_of(prefix, '/');
    lemma_name_rest(id, number);
    let rest = name_rest(id, number);
    let name = shard_name(prefix, id, number);
    assert(name == prefix + rest);
    assert(shard_name(t, id, number) == t + rest);
    assert(t.len() > 0 && t[0] != '.') by {
        let c = choose|i: int| 0 <= i < t.len() && t[i] == '_';
        if t[0] == '.' {
            assert(has_char(t, '.'));
        }
    }
    // The name's last `/` is the prefix's.
    lemma_last_index_extend(prefix, rest, '/');
    assert(last_index_of(name, '/') == li);
    let path = join_spec(folder, name);
    let a = if name.len() > 0 && name[0] == '/' {
        Seq::<char>::empty()
    } else if folder.len() == 0 || folder.last() == '/' {
        folder
    } else {
        folder + seq!['/']
    };
    assert(path =~= a + name);
    assert(a.len() > 0 ==> a.last() == '/');
    lemma_last_index_after(a, name, '/');
    assert(path.subrange(a.len() + li + 1, path.len() as int) =~= t + rest);
    assert((t + rest)[0] == t[0]);
    assert(t + rest != seq!['.'] && t + rest != seq!['.', '.']) by {
        if t + rest == seq!['.'] || t + rest == seq!['.', '.'] {
            assert((t + rest)[0] == '.');
        }
    }
}

/// What the stem of a shard name is cut into at each `_`, for a prefix
/// with a `_` and no `.` or `/`: the number last, and before it the id's
/// text after the part of the prefix that follows its last `_`.
proof fn lemma_shard_name_parts(prefix: Seq<char>, id: Seq<u8>, number: nat)
    requires
        has_char(prefix, '_'),
        !has_char(prefix, '.'),
        id.len() == 16,
        number <= usize::MAX,
    ensures
        ({
            let parts = split_spec(stem_spec(shard_name(prefix, id, number)), '_');
            &&& parts.len() >= 3
            &&& parse_usize_spec(parts.last()) == Some(number as usize)
            &&& parts[parts.len() - 2] == split_spec(prefix, '_').last() + uuid_text(id)
        }),
{
    let u = uuid_text(id);
    let d = decimal(number);
    let e = data_suffix();
    let name = shard_name(prefix, id, number);
    lemma_name_tail_chars(id, number);
    lemma_decimal(number);
    let pu = prefix + u;
    let pu_ = pu + seq!['_'];
    let a2 = pu_ + d;
    assert(name =~= a2 + e);
    // The stem ends before the suffix.
    assert(!has_char(a2, '.')) by {
        if has_char(a2, '.') {
            let i = choose|i: int| 0 <= i < a2.len() && a2[i] == '.';
            if i < prefix.len() {
                assert(prefix[i] == '.');
            } else if i < pu.len() {
                assert(u[i - prefix.len()] == '.');
            } else if i == pu.len() {
            } else {
                assert(d[i - pu_.len()] == '.');
            }
        }
    }
    lemma_first_index_at(a2, e, '.');
    assert(stem_spec(name) =~= a2);
    // The parts.
    lemma_split_extend(prefix, u, '_');
    lemma_split_has_sep(prefix, '_');
    let sp = split_spec(prefix, '_');
    let spu = split_spec(pu, '_');
    assert(pu_.drop_last() =~= pu);
    assert(pu_.last() == '_');
    assert(split_spec(pu_, '_') == spu.push(Seq::<char>::empty()));
    lemma_split_extend(pu_, d, '_');
    let parts = split_spec(a2, '_');
    assert(parts.len() == sp.len() + 1);
    assert(parts.last() =~= d);
    assert(parts[parts.len() - 2] == sp.last() + u);
    assert(d[0] != '+');
    assert(parse_usize_spec(d) == Some(number as usize));
}

/// A shard name is read back as its number and, for the id text, the id's
/// text after the part of the prefix's file-name part (after its last `/`)
/// that follows its last `_`.
pub proof fn lemma_shard_name_signature(folder: Seq<char>, prefix: Seq<char>, id: Seq<u8>, number: nat)
    requires
        prefix_ok(prefix),
        id.len() == 16,
        number <= usize::MAX,
    ensures
        signature_spec(join_spec(folder, shard_name(prefix, id, number))) == Some(
            (number as usize, split_spec(name_tail(prefix), '_').last() + uuid_text(id)),
        ),
{
    lemma_shard_file_name(folder, prefix, id, number);
    lemma_shard_name_parts(name_tail(prefix), id, number);
}

} // verus!

verus! {

/// The rows of a list of shards, one shard after another.
pub open spec fn concat_rows(s: Seq<Seq<Seq<u8>>>) -> Seq<Seq<u8>>
    decreases s.len(),
{
    if s.len() == 0 {
        Seq::empty()
    } else {
        concat_rows(s.drop_last()) + s.last()
    }
}

/// Room left in a shard holding `len` rows of at most `cap`; `None`: no limit.
pub open spec fn free_rows(len: nat, cap: Option<nat>) -> Option<int> {
    match cap {
        Some(c) => Some(c - len),
        None => None,
    }
}

/// Whether a shard with this room takes no more rows.
pub open spec fn is_full(free: Option<int>) -> bool {
    free matches Some(f) && f <= 0
}

/// What `raw_insert_rows` returns for `n` rows given to a master holding
/// `len` rows of at most `cap`, with breaking point `bp`, behind `past`
/// earlier shards: for each master that takes some of the rows, the index
/// that master reports for its last row, plus `past * bp` where the master
/// has a breaking point; the sum over the masters, in turn. A full master is
/// put behind the others first, and so is each master that runs out of room.
pub open spec fn fill_position<S: Shard<Opts>, Opts: ShardConfig>(
    config: Opts,
    len: nat,
    cap: Option<nat>,
    bp: Option<u64>,
    past: nat,
    n: nat,
) -> int
    decreases n, (if is_full(free_rows(len, cap)) {
        1int
    } else {
        0int
    }),
{
    if S::config_capacity(config) == Some(0nat) {
        0
    } else if is_full(free_rows(len, cap)) {
        fill_position::<S, Opts>(config, 0, S::config_capacity(config), S::config_breaking_point(config), past + 1, n)
    } else {
        let up_to: nat = match free_rows(len, cap) {
            Some(f) => if f < n {
                f as nat
            } else {
                n
            },
            None => n,
        };
        let local = S::reported_index(len + up_to) as int;
        let pos = match bp {
            Some(b) => past * b + local,
            None => local,
        };
        if n > up_to {
            pos + fill_position::<S, Opts>(
                config,
                0,
                S::config_capacity(config),
                S::config_breaking_point(config),
                past + 1,
                (n - up_to) as nat,
            )
        } else {
            pos
        }
    }
}

/// How `raw_insert_rows` leaves the chain when it starts as `fill_position`
/// says: the row count, capacity and breaking point of the last master, and
/// the number of shards behind it.
pub open spec fn fill_shape<S: Shard<Opts>, Opts: ShardConfig>(
    config: Opts,
    len: nat,
    cap: Option<nat>,
    bp: Option<u64>,
    past: nat,
    n: nat,
) -> (nat, Option<nat>, Option<u64>, nat)
    decreases n, (if is_full(free_rows(len, cap)) {
        1int
    } else {
        0int
    }),
{
    if S::config_capacity(config) == Some(0nat) {
        (len, cap, bp, past)
    } else if is_full(free_rows(len, cap)) {
        fill_shape::<S, Opts>(config, 0, S::config_capacity(config), S::config_breaking_point(config), past + 1, n)
    } else {
        let up_to: nat = match free_rows(len, cap) {
            Some(f) => if f < n {
                f as nat
            } else {
                n
            },
            None => n,
        };
        if n > up_to {
            fill_shape::<S, Opts>(
                config,
                0,
                S::config_capacity(config),
                S::config_breaking_point(config),
                past + 1,
                (n - up_to) as nat,
            )
        } else {
            (len + up_to, cap, bp, past)
        }
    }
}

/// The shape of a chain after `k` rows were inserted one at a time into a
/// chain of shape `shape`.
pub open spec fn shape_after<S: Shard<Opts>, Opts: ShardConfig>(
    config: Opts,
    shape: (nat, Option<nat>, Option<u64>, nat),
    k: nat,
) -> (nat, Option<nat>, Option<u64>, nat)
    decreases k,
{
    if k == 0 {
        shape
    } else {
        let s = shape_after::<S, Opts>(config, shape, (k - 1) as nat);
        fill_shape::<S, Opts>(config, s.0, s.1, s.2, s.3, 1)
    }
}

/// Inserting `a` rows one at a time, then `b` more, is inserting `a + b`.
pub proof fn lemma_shape_after_add<S: Shard<Opts>, Opts: ShardConfig>(
    config: Opts,
    shape: (nat, Option<nat>, Option<u64>, nat),
    a: nat,
    b: nat,
)
    ensures
        shape_after::<S, Opts>(config, shape_after::<S, Opts>(config, shape, a), b) == shape_after::<S, Opts>(
            config,
            shape,
            a + b,
        ),
    decreases b,
{
    if b > 0 {
        lemma_shape_after_add::<S, Opts>(config, shape, a, (b - 1) as nat);
        assert((a + b - 1) as nat == a + (b - 1) as nat);
    }
}

/// The position a chain of shape `shape` gives a row inserted alone.
pub open spec fn single_position<S: Shard<Opts>, Opts: ShardConfig>(
    config: Opts,
    shape: (nat, Option<nat>, Option<u64>, nat),
) -> int {
    fill_position::<S, Opts>(config, shape.0, shape.1, shape.2, shape.3, 1)
}

pub proof fn lemma_fill_position_nonneg<S: Shard<Opts>, Opts: ShardConfig>(
    config: Opts,
    len: nat,
    cap: Option<nat>,
    bp: Option<u64>,
    past: nat,
    n: nat,
)
    ensures
        fill_position::<S, Opts>(config, len, cap, bp, past, n) >= 0,
    decreases n, (if is_full(free_rows(len, cap)) {
        1int
    } else {
        0int
    }),
{
    if S::config_capacity(config) == Some(0nat) {
    } else if is_full(free_rows(len, cap)) {
        lemma_fill_position_nonneg::<S, Opts>(config, 0, S::config_capacity(config), S::config_breaking_point(config), past + 1, n);
    } else {
        let up_to: nat = match free_rows(len, cap) {
            Some(f) => if f < n {
                f as nat
            } else {
                n
            },
            None => n,
        };
        match bp {
            Some(b) => {
                assert(past * b >= 0) by (nonlinear_arith);
            },
            None => {},
        }
        if n > up_to {
            lemma_fill_position_nonneg::<S, Opts>(
                config,
                0,
                S::config_capacity(config),
                S::config_breaking_point(config),
                past + 1,
                (n - up_to) as nat,
            );
        }
    }
}

/// A row handed to a chain, with the position the chain gave it.
#[derive(Debug, Clone, PartialEq, Eq)]
pub struct DataWithIndex {
    pub data: Vec<u8>,
    pub index: u64,
}

/// A chain of shards: the past masters in the order they were put behind,
/// each under the id text read from its file name, and the current master.
pub struct MapShard<S: Shard<Opts>, Opts: ShardConfig> {
    pub current_master_shard: S,
    pub past_master_shards: Vec<(String, S)>,
    pub shard_prefix: String,
    pub shards_folder: String,
    pub config: Opts,
}

impl<S: Shard<Opts>, Opts: ShardConfig> MapShard<S, Opts> {
    /// The rows of each past master, in order.
    pub open spec fn past_items(&self) -> Seq<Seq<Seq<u8>>> {
        Seq::new(self.past_master_shards@.len(), |k: int| self.past_master_shards@[k].1.spec_items())
    }

    /// All rows: those of the past masters in order, then the master's.
    pub open spec fn all_items(&self) -> Seq<Seq<u8>> {
        concat_rows(self.past_items()) + self.current_master_shard.spec_items()
    }

    /// The number in the master's file name.
    pub open spec fn master_number(&self) -> nat {
        (signature_spec(self.current_master_shard.spec_path())->0).0 as nat
    }

    /// Every shard keeps its own invariant, the master's file name can be
    /// read back, and new masters can be made and take rows.
    pub open spec fn inv(&self) -> bool {
        &&& self.current_master_shard.inv()
        &&& forall|k: int| 0 <= k < self.past_master_shards@.len() ==> (#[trigger] self.past_master_shards@[k]).1.inv()
        &&& self.current_master_shard.spec_capacity() matches Some(c) ==> self.current_master_shard.spec_items().len()
            <= c
        &&& signature_spec(self.current_master_shard.spec_path()) is Some
        &&& prefix_ok(self.shard_prefix@)
        &&& S::openable(Seq::empty(), self.config)
        &&& S::config_capacity(self.config) != Some(0nat)
    }

    /// What inserting `n` rows returns, a new master being made first or not.
    pub open spec fn insert_position(&self, n: nat, create_new_shard: bool) -> int {
        if create_new_shard {
            fill_position::<S, Opts>(
                self.config,
                0,
                S::config_capacity(self.config),
                S::config_breaking_point(self.config),
                self.past_master_shards@.len() + 1,
                n,
            )
        } else {
            fill_position::<S, Opts>(
                self.config,
                self.current_master_shard.spec_items().len(),
                self.current_master_shard.spec_capacity(),
                self.current_master_shard.spec_breaking_point(),
                self.past_master_shards@.len(),
                n,
            )
        }
    }

    /// The row count, capacity and breaking point of the master, and the
    /// number of shards behind it.
    pub open spec fn shape(&self) -> (nat, Option<nat>, Option<u64>, nat) {
        (
            self.current_master_shard.spec_items().len(),
            self.current_master_shard.spec_capacity(),
            self.current_master_shard.spec_breaking_point(),
            self.past_master_shards@.len(),
        )
    }

    /// How inserting `n` rows leaves the chain; see `insert_position`.
    pub open spec fn insert_shape(&self, n: nat, create_new_shard: bool) -> (nat, Option<nat>, Option<u64>, nat) {
        if create_new_shard {
            fill_shape::<S, Opts>(
                self.config,
                0,
                S::config_capacity(self.config),
                S::config_breaking_point(self.config),
                self.past_master_shards@.len() + 1,
                n,
            )
        } else {
            fill_shape::<S, Opts>(
                self.config,
                self.current_master_shard.spec_items().len(),
                self.current_master_shard.spec_capacity(),
                self.current_master_shard.spec_breaking_point(),
                self.past_master_shards@.len(),
                n,
            )
        }
    }

    /// The shards of the chain: the past masters in order, then the master.
    pub open spec fn shards(&self) -> Seq<S> {
        Seq::new(
            self.past_master_shards@.len() + 1,
            |k: int|
                if k < self.past_master_shards@.len() {
                    self.past_master_shards@[k].1
                } else {
                    self.current_master_shard
                },
        )
    }

    /// Whether a shard of the chain with id `id` holds `row` at `index`.
    pub open spec fn holds_row(&self, id: Seq<u8>, index: int, row: Seq<u8>) -> bool {
        exists|k: int|
            0 <= k < self.shards().len() && (#[trigger] self.shards()[k]).spec_id() == id && 0 <= index
                < self.shards()[k].spec_items().len() && self.shards()[k].spec_items()[index] == row
    }

    /// Whether a shard of the chain has the id of `s` and rows that start with those of `s`.
    pub open spec fn keeps_shard(&self, s: S) -> bool {
        exists|k: int|
            0 <= k < self.shards().len() && (#[trigger] self.shards()[k]).spec_id() == s.spec_id()
                && s.spec_items().len() <= self.shards()[k].spec_items().len() && self.shards()[k].spec_items().subrange(
                0,
                s.spec_items().len() as int,
            ) == s.spec_items()
    }

    /// Whether the master takes no more rows.
    pub open spec fn master_full(&self) -> bool {
        is_full(free_rows(self.current_master_shard.spec_items().len(), self.current_master_shard.spec_capacity()))
    }

    fn breaking_point(&self) -> (r: Option<u64>)
        ensures
            r == self.current_master_shard.spec_breaking_point(),
    {
        self.current_master_shard.breaking_point()
    }

    /// Appends the rows, as many as fit to the master and the rest to new
    /// masters, each made when the one before is full and put behind the
    /// others; with `create_new_shard`, a new master is made first. Returns
    /// what `insert_position` says.
    #[verifier::rlimit(40)]
    pub fn raw_insert_rows(&mut self, data: &[&[u8]], create_new_shard: bool) -> (r: usize)
        requires
            old(self).inv(),
            !create_new_shard ==> old(self).current_master_shard.accepts(slices_view(data@)),
            S::fresh_accepts(old(self).config, slices_view(data@)),
            old(self).master_number() + data@.len() + 1 <= usize::MAX,
            old(self).insert_position(data@.len(), create_new_shard) <= usize::MAX,
        ensures
            final(self).inv(),
            final(self).all_items() == old(self).all_items() + slices_view(data@),
            data@.len() > 0 ==> final(self).current_master_shard.spec_items().len() > 0
                && final(self).current_master_shard.spec_items().last() == slices_view(data@).last(),
            r == old(self).insert_position(data@.len(), create_new_shard),
            final(self).shape() == old(self).insert_shape(data@.len(), create_new_shard),
            final(self).master_number() == old(self).master_number() + (final(self).past_master_shards@.len()
                - old(self).past_master_shards@.len()),
            forall|k: int|
                old(self).past_master_shards@.len() <= k < final(self).past_master_shards@.len() ==> (signature_spec(
                    (#[trigger] final(self).past_master_shards@[k]).1.spec_path(),
                )->0).0 == old(self).master_number() + (k - old(self).past_master_shards@.len()),
            final(self).shard_prefix@ == old(self).shard_prefix@,
            final(self).shards_folder@ == old(self).shards_folder@,
            final(self).config == old(self).config,
            old(self).past_master_shards@.len() <= final(self).past_master_shards@.len(),
            forall|k: int|
                0 <= k < old(self).past_master_shards@.len() ==> #[trigger] final(self).past_master_shards@[k]
                    == old(self).past_master_shards@[k],
            final(self).keeps_shard(old(self).current_master_shard),
        decreases data@.len(), (if !create_new_shard && old(self).master_full() {
            1int
        } else {
            0int
        }),
    {
        let ghost old_self = *self;
        let ghost rows = slices_view(data@);
        if create_new_shard {
            let (shard_number, _, _) = match extract_shard_signature(self.current_master_shard.get_path()) {
                Some(t) => t,
                None => {
                    proof {
                        assert(false);
                    }
                    return 0;
                },
            };
            let new_shard_number = shard_number + 1;
            let shard_id = new_uuid_v4();
            let name = generate_shard_name(self.shard_prefix.as_str(), &shard_id, new_shard_number);
            let shard_path = join_path(self.shards_folder.as_str(), name.as_str());
            proof {
                lemma_shard_name_signature(self.shards_folder@, self.shard_prefix@, shard_id@, new_shard_number as nat);
            }
            let mut shard = S::new(shard_path, Vec::new(), self.config, Some(shard_id));
            std::mem::swap(&mut self.current_master_shard, &mut shard);
            let (_, shard_key, _) = match extract_shard_signature(shard.get_path()) {
                Some(t) => t,
                None => {
                    proof {
                        assert(false);
                    }
                    return 0;
                },
            };
            let ghost before_push = self.past_items();
            self.past_master_shards.push((shard_key, shard));
            proof {
                assert(self.past_items() =~= before_push.push(old_self.current_master_shard.spec_items()));
                assert(self.past_items().drop_last() =~= before_push);
                assert(self.current_master_shard.spec_items() =~= Seq::<Seq<u8>>::empty());
                assert(self.all_items() =~= old_self.all_items());
            }
        }
        let ghost mid = *self;
        proof {
            self.current_master_shard.lemma_sizes();
        }
        let available_space_in_master = self.current_master_shard.available_space();
        if let AvailableSpace::Fixed(size) = available_space_in_master {
            if size == 0 {
                proof {
                    assert(old_self.insert_position(data@.len() as nat, false) == self.insert_position(
                        data@.len() as nat,
                        true,
                    ));
                    assert(old_self.insert_shape(data@.len() as nat, false) == self.insert_shape(
                        data@.len() as nat,
                        true,
                    ));
                }
                return self.raw_insert_rows(data, true);
            }
        }
        let ghost total = fill_position::<S, Opts>(
            self.config,
            mid.current_master_shard.spec_items().len(),
            mid.current_master_shard.spec_capacity(),
            mid.current_master_shard.spec_breaking_point(),
            mid.past_master_shards@.len(),
            data@.len() as nat,
        );
        assert(total == old_self.insert_position(data@.len() as nat, create_new_shard));
        let up_to: usize = match available_space_in_master {
            AvailableSpace::Fixed(size) => if size < data.len() {
                size
            } else {
                data.len()
            },
            AvailableSpace::Unlimited => data.len(),
        };
        let insert_data = &data[0..up_to];
        proof {
            assert(slices_view(insert_data@) =~= rows.subrange(0, up_to as int));
            if !create_new_shard {
                old_self.current_master_shard.lemma_accepts_subrange(rows, 0, up_to as int);
            } else {
                assert(self.current_master_shard.accepts(rows));
                self.current_master_shard.lemma_accepts_subrange(rows, 0, up_to as int);
            }
        }
        proof {
            self.current_master_shard.lemma_recorded(up_to as nat);
        }
        let local_index = match self.current_master_shard.insert_item(insert_data) {
            Ok(i) => i,
            Err(_) => {
                proof {
                    assert(false);
                }
                return 0;
            },
        };
        proof {
            assert(self.past_items() =~= mid.past_items());
            assert(self.all_items() =~= mid.all_items() + rows.subrange(0, up_to as int));
            lemma_fill_position_nonneg::<S, Opts>(
                self.config,
                0,
                S::config_capacity(self.config),
                S::config_breaking_point(self.config),
                self.past_master_shards@.len() + 1,
                (data@.len() - up_to) as nat,
            );
        }
        let ghost rest_total = fill_position::<S, Opts>(
            self.config,
            0,
            S::config_capacity(self.config),
            S::config_breaking_point(self.config),
            self.past_master_shards@.len() + 1,
            (data@.len() - up_to) as nat,
        );
        let ghost pos = match mid.current_master_shard.spec_breaking_point() {
            Some(b) => mid.past_master_shards@.len() * b + local_index as int,
            None => local_index as int,
        };
        assert(total == if data@.len() > up_to {
            pos + rest_total
        } else {
            pos
        });
        let breaking_point = self.breaking_point();
        let items_pos: usize = match breaking_point {
            None => local_index as usize,
            Some(bp) => {
                let past_len = self.past_master_shards.len();
                proof {
                    assert(pos <= usize::MAX);
                    assert(past_len * bp + local_index <= usize::MAX);
                    if past_len > 0 {
                        assert(past_len * bp >= bp) by (nonlinear_arith)
                            requires
                                past_len >= 1,
                        ;
                        assert(bp as usize == bp);
                    } else {
                        let bu = bp as usize;
                        assert(past_len * bu == 0 && past_len * bp == 0) by (nonlinear_arith)
                            requires
                                past_len == 0,
                        ;
                    }
                    assert(past_len * (bp as usize) == past_len * bp);
                }
                let curr_items = past_len * (bp as usize);
                curr_items + local_index as usize
            },
        };
        if data.len() > up_to {
            let remaining_data = &data[up_to..data.len()];
            proof {
                assert(slices_view(remaining_data@) =~= rows.subrange(up_to as int, rows.len() as int));
                S::lemma_fresh_accepts_subrange(self.config, rows, up_to as int, rows.len() as int);
            }
            let ghost s2 = *self;
            proof {
                let om = old_self.current_master_shard;
                let kk = if create_new_shard {
                    old_self.past_master_shards@.len() as int
                } else {
                    s2.past_master_shards@.len() as int
                };
                assert(s2.shards()[kk].spec_items().subrange(0, om.spec_items().len() as int) =~= om.spec_items());
                lemma_keeps_at(s2, old_self.current_master_shard, if create_new_shard {
                    old_self.past_master_shards@.len() as int
                } else {
                    s2.past_master_shards@.len() as int
                });
            }
            let remaining_index = self.raw_insert_rows(remaining_data, true);
            proof {
                assert(rows.subrange(0, up_to as int) + rows.subrange(up_to as int, rows.len() as int) =~= rows);
                lemma_keeps_through(s2, *self, old_self.current_master_shard);
            }
            items_pos + remaining_index
        } else {
            proof {
                assert(rows.subrange(0, up_to as int) =~= rows);
                let om = old_self.current_master_shard;
                let kk = if create_new_shard {
                    old_self.past_master_shards@.len() as int
                } else {
                    self.past_master_shards@.len() as int
                };
                assert(self.shards()[kk].spec_items().subrange(0, om.spec_items().len() as int) =~= om.spec_items());
                lemma_keeps_at(*self, old_self.current_master_shard, if create_new_shard {
                    old_self.past_master_shards@.len() as int
                } else {
                    self.past_master_shards@.len() as int
                });
            }
            items_pos
        }
    }
}

impl<S: Shard<Opts>, Opts: ShardConfig> MapShard<S, Opts> {
    /// Inserts the rows; see `raw_insert_rows`.
    pub fn insert_rows(&mut self, data: &[&[u8]]) -> (r: usize)
        requires
            old(self).inv(),
            old(self).current_master_shard.accepts(slices_view(data@)),
            S::fresh_accepts(old(self).config, slices_view(data@)),
            old(self).master_number() + data@.len() + 1 <= usize::MAX,
            old(self).insert_position(data@.len(), false) <= usize::MAX,
        ensures
            final(self).inv(),
            final(self).all_items() == old(self).all_items() + slices_view(data@),
            data@.len() > 0 ==> final(self).current_master_shard.spec_items().len() > 0
                && final(self).current_master_shard.spec_items().last() == slices_view(data@).last(),
            r == old(self).insert_position(data@.len(), false),
            final(self).shape() == old(self).insert_shape(data@.len(), false),
            final(self).master_number() == old(self).master_number() + (final(self).past_master_shards@.len()
                - old(self).past_master_shards@.len()),
            forall|k: int|
                old(self).past_master_shards@.len() <= k < final(self).past_master_shards@.len() ==> (signature_spec(
                    (#[trigger] final(self).past_master_shards@[k]).1.spec_path(),
                )->0).0 == old(self).master_number() + (k - old(self).past_master_shards@.len()),
            final(self).shard_prefix@ == old(self).shard_prefix@,
            final(self).shards_folder@ == old(self).shards_folder@,
            final(self).config == old(self).config,
            old(self).past_master_shards@.len() <= final(self).past_master_shards@.len(),
            forall|k: int|
                0 <= k < old(self).past_master_shards@.len() ==> #[trigger] final(self).past_master_shards@[k]
                    == old(self).past_master_shards@[k],
            final(self).keeps_shard(old(self).current_master_shard),
            forall|id: Seq<u8>, index: int, row: Seq<u8>|
                old(self).holds_row(id, index, row) ==> #[trigger] final(self).holds_row(id, index, row),
    {
        let r = self.raw_insert_rows(data, false);
        proof {
            lemma_holds_row_kept(*old(self), *self);
        }
        r
    }

    /// The shard that `get_element` reads for shard index `si`: the past
    /// masters from the last put behind to the first, then the master.
    /// Inserts fill the past masters first to last, so with two or more
    /// past masters an index counted in insertion order reads a row of
    /// another shard than the one that took it; `get_element` keeps this
    /// order of the lookup.
    pub open spec fn shard_at(&self, si: int) -> S {
        if si < self.past_master_shards@.len() {
            self.past_master_shards@[self.past_master_shards@.len() - 1 - si].1
        } else {
            self.current_master_shard
        }
    }

    /// The indexes that `get_element` can read.
    pub open spec fn element_readable(&self, index: int) -> bool {
        match self.current_master_shard.spec_breaking_point() {
            None => self.current_master_shard.readable(index),
            Some(b) => b > 0 && (index / (b as int) <= self.past_master_shards@.len() ==> self.shard_at(
                index / (b as int),
            ).readable(index % (b as int))),
        }
    }

    /// Row `index` of `shard`.
    pub fn get_element_from_specific(&self, shard: &S, index: usize) -> (r: Result<Vec<u8>, ShardErrors>)
        requires
            shard.inv(),
            shard.readable(index as int),
        ensures
            index < shard.spec_items().len() ==> (r matches Ok(v) && v@ == shard.spec_items()[index as int]),
            index >= shard.spec_items().len() ==> r is Err,
    {
        shard.read_item_from_index(index)
    }

    /// Row `index` of the master.
    pub fn get_element_from_master(&self, index: usize) -> (r: Result<Vec<u8>, ShardErrors>)
        requires
            self.inv(),
            self.current_master_shard.readable(index as int),
        ensures
            index < self.current_master_shard.spec_items().len() ==> (r matches Ok(v) && v@
                == self.current_master_shard.spec_items()[index as int]),
            index >= self.current_master_shard.spec_items().len() ==> r is Err,
    {
        self.get_element_from_specific(&self.current_master_shard, index)
    }

    /// Row `index` across the chain. Without a breaking point it is the
    /// master's row `index`. With breaking point `b`, shard `index / b` of
    /// `shard_at` is read at `index % b`; past the last shard the answer is
    /// `OutOfRange`.
    pub fn get_element(&self, index: usize) -> (r: Result<Vec<u8>, ShardErrors>)
        requires
            self.inv(),
            self.element_readable(index as int),
        ensures
            match self.current_master_shard.spec_breaking_point() {
                None => {
                    &&& index < self.current_master_shard.spec_items().len() ==> (r matches Ok(v) && v@
                        == self.current_master_shard.spec_items()[index as int])
                    &&& index >= self.current_master_shard.spec_items().len() ==> r is Err
                },
                Some(b) => {
                    let si = (index as int) / (b as int);
                    let li = (index as int) % (b as int);
                    &&& si > self.past_master_shards@.len() ==> r == Err::<Vec<u8>, ShardErrors>(
                        ShardErrors::OutOfRange,
                    )
                    &&& si <= self.past_master_shards@.len() && li < self.shard_at(si).spec_items().len() ==> (r matches Ok(
                        v,
                    ) && v@ == self.shard_at(si).spec_items()[li])
                    &&& si <= self.past_master_shards@.len() && li >= self.shard_at(si).spec_items().len() ==> r is Err
                },
            },
    {
        proof {
            self.current_master_shard.lemma_sizes();
        }
        match self.breaking_point() {
            None => self.get_element_from_master(index),
            Some(breaking_point) => {
                let breaking_point_usize = breaking_point as usize;
                // The past masters, last first, then the master.
                let past_len = self.past_master_shards.len();
                let shard_index = index / breaking_point_usize;
                if shard_index > past_len {
                    return Err(ShardErrors::OutOfRange);
                }
                let local_index = index % breaking_point_usize;
                if shard_index < past_len {
                    self.get_element_from_specific(&self.past_master_shards[past_len - 1 - shard_index].1, local_index)
                } else {
                    self.get_element_from_master(local_index)
                }
            },
        }
    }
}

/// The paths of listed files.
pub open spec fn file_paths(files: Seq<(String, Vec<u8>)>) -> Seq<Seq<char>> {
    Seq::new(files.len(), |i: int| files[i].0@)
}

/// The contents of the listed files.
pub open spec fn file_contents(files: Seq<(String, Vec<u8>)>) -> Seq<Seq<u8>> {
    Seq::new(files.len(), |i: int| files[i].1@)
}

/// The listed files whose names can be read as shard names, as their number
/// and their position in the list, in list order.
pub open spec fn signed_files(paths: Seq<Seq<char>>) -> Seq<(usize, int)>
    decreases paths.len(),
{
    if paths.len() == 0 {
        Seq::empty()
    } else {
        let p = signed_files(paths.drop_last());
        match signature_spec(paths.last()) {
            Some(sig) => p.push((sig.0, paths.len() - 1)),
            None => p,
        }
    }
}

/// `s` with `x` put after the entries at its end whose number is larger than
/// `x`'s: one step of a stable insertion sort.
pub open spec fn insert_by_number(s: Seq<(usize, int)>, x: (usize, int)) -> Seq<(usize, int)>
    decreases s.len(),
{
    if s.len() == 0 {
        seq![x]
    } else if s.last().0 <= x.0 {
        s.push(x)
    } else {
        insert_by_number(s.drop_last(), x).push(s.last())
    }
}

/// `s` sorted by number, entries with equal numbers kept in order.
pub open spec fn sort_by_number(s: Seq<(usize, int)>) -> Seq<(usize, int)>
    decreases s.len(),
{
    if s.len() == 0 {
        Seq::empty()
    } else {
        insert_by_number(sort_by_number(s.drop_last()), s.last())
    }
}

/// The positions, in sorted order, of the files whose path is not `master`.
pub open spec fn past_files(sorted: Seq<(usize, int)>, paths: Seq<Seq<char>>, master: Seq<char>) -> Seq<int>
    decreases sorted.len(),
{
    if sorted.len() == 0 {
        Seq::empty()
    } else {
        let p = past_files(sorted.drop_last(), paths, master);
        if paths[sorted.last().1] == master {
            p
        } else {
            p.push(sorted.last().1)
        }
    }
}

/// The files sorted by number.
pub open spec fn sorted_files(paths: Seq<Seq<char>>) -> Seq<(usize, int)> {
    sort_by_number(signed_files(paths))
}

/// The files that become past masters when a chain is opened on `paths`:
/// all sorted files but those with the path of the last one.
pub open spec fn opened_past_files(paths: Seq<Seq<char>>) -> Seq<int> {
    let sorted = sorted_files(paths);
    if sorted.len() == 0 {
        Seq::empty()
    } else {
        past_files(sorted, paths, paths[sorted.last().1])
    }
}

/// A past shard opened from the file at `e.1` under the id text `e.0`.
pub open spec fn opened_entry<S: Shard<Opts>, Opts: ShardConfig>(
    past: (String, S),
    e: (Seq<char>, int),
    files: Seq<(String, Vec<u8>)>,
    config: Opts,
) -> bool {
    &&& 0 <= e.1 < files.len()
    &&& past.1.spec_path() == files[e.1].0@
    &&& past.0@ == e.0
    &&& past.1.inv()
    &&& past.1.spec_items() == opened_items::<S, Opts>(files[e.1].1@)
    &&& opened_limits::<S, Opts>(past.1, files[e.1].1@, config)
}

/// The position of the first past shard under `key`, or the count.
fn find_past<S>(past: &Vec<(String, S)>, key: &str) -> (r: usize)
    ensures
        r <= past@.len(),
        r < past@.len() ==> past@[r as int].0@ == key@,
        forall|k: int| 0 <= k < r ==> past@[k].0@ != key@,
{
    let mut i: usize = 0;
    while i < past.len()
        invariant
            i <= past@.len(),
            forall|k: int| 0 <= k < i ==> past@[k].0@ != key@,
        decreases past@.len() - i,
    {
        if same_text(past[i].0.as_str(), key) {
            return i;
        }
        i = i + 1;
    }
    i
}

/// The id text in the name of the shard file at `path`.
pub open spec fn name_id(path: Seq<char>) -> Seq<char> {
    (signature_spec(path)->0).1
}

/// The position of the first entry under `key`, or the length.
pub open spec fn key_pos(e: Seq<(Seq<char>, int)>, key: Seq<char>) -> int
    decreases e.len(),
{
    if e.len() == 0 {
        0
    } else if key_pos(e.drop_last(), key) < e.len() - 1 {
        key_pos(e.drop_last(), key)
    } else if e.last().0 == key {
        e.len() - 1
    } else {
        e.len() as int
    }
}

proof fn lemma_key_pos(e: Seq<(Seq<char>, int)>, key: Seq<char>)
    ensures
        0 <= key_pos(e, key) <= e.len(),
        key_pos(e, key) < e.len() ==> e[key_pos(e, key)].0 == key,
        forall|i: int| 0 <= i < key_pos(e, key) ==> e[i].0 != key,
    decreases e.len(),
{
    if e.len() > 0 {
        lemma_key_pos(e.drop_last(), key);
        assert forall|i: int| 0 <= i < key_pos(e, key) implies e[i].0 != key by {
            if i < e.len() - 1 {
                assert(e.drop_last()[i] == e[i]);
            }
        }
    }
}

/// The past shards a folder opens to, as (id text, file position): the past
/// files in turn, each under the id text of its name; a file whose id text
/// is already there takes the place of the one before it.
pub open spec fn keyed_files(paths: Seq<Seq<char>>, pf: Seq<int>) -> Seq<(Seq<char>, int)>
    decreases pf.len(),
{
    if pf.len() == 0 {
        Seq::empty()
    } else {
        let e = keyed_files(paths, pf.drop_last());
        let key = name_id(paths[pf.last()]);
        let p = key_pos(e, key);
        if p < e.len() {
            e.update(p, (key, pf.last()))
        } else {
            e.push((key, pf.last()))
        }
    }
}

/// The past shards the listed files open to.
pub open spec fn opened_past_entries(paths: Seq<Seq<char>>) -> Seq<(Seq<char>, int)> {
    keyed_files(paths, opened_past_files(paths))
}

proof fn lemma_insert_by_number(s: Seq<(usize, int)>, x: (usize, int), pos: int)
    requires
        0 <= pos <= s.len(),
        forall|k: int| pos <= k < s.len() ==> #[trigger] s[k].0 > x.0,
        pos == 0 || s[pos - 1].0 <= x.0,
    ensures
        insert_by_number(s, x) == s.insert(pos, x),
    decreases s.len(),
{
    if s.len() == 0 {
        assert(s.insert(pos, x) =~= seq![x]);
    } else if pos == s.len() {
        assert(s.insert(pos, x) =~= s.push(x));
    } else {
        assert(s.last().0 > x.0) by {
            assert(s[s.len() - 1] == s.last());
        }
        let d = s.drop_last();
        assert forall|k: int| pos <= k < d.len() implies #[trigger] d[k].0 > x.0 by {
            assert(d[k] == s[k]);
        }
        if pos > 0 {
            assert(d[pos - 1] == s[pos - 1]);
        }
        lemma_insert_by_number(d, x, pos);
        assert(d.insert(pos, x).push(s.last()) =~= s.insert(pos, x));
    }
}

proof fn lemma_signed_positions(paths: Seq<Seq<char>>)
    ensures
        forall|k: int|
            0 <= k < signed_files(paths).len() ==> {
                let e = #[trigger] signed_files(paths)[k];
                &&& 0 <= e.1 < paths.len()
                &&& signature_spec(paths[e.1]) matches Some(sig) && sig.0 == e.0
            },
    decreases paths.len(),
{
    if paths.len() > 0 {
        lemma_signed_positions(paths.drop_last());
        let p = signed_files(paths.drop_last());
        assert forall|k: int| 0 <= k < p.len() implies (#[trigger] p[k]).1 < paths.len() - 1 && paths[p[k].1]
            == paths.drop_last()[p[k].1] by {}
    }
}

proof fn lemma_insert_by_number_members(s: Seq<(usize, int)>, x: (usize, int))
    ensures
        insert_by_number(s, x).len() == s.len() + 1,
        forall|k: int|
            0 <= k < insert_by_number(s, x).len() ==> #[trigger] insert_by_number(s, x)[k] == x || s.contains(
                insert_by_number(s, x)[k],
            ),
    decreases s.len(),
{
    if s.len() > 0 && s.last().0 > x.0 {
        lemma_insert_by_number_members(s.drop_last(), x);
        let r = insert_by_number(s, x);
        assert forall|k: int| 0 <= k < r.len() implies #[trigger] r[k] == x || s.contains(r[k]) by {
            if k < r.len() - 1 {
                let r2 = insert_by_number(s.drop_last(), x);
                assert(r[k] == r2[k]);
                if r2[k] != x {
                    let m = choose|m: int| 0 <= m < s.drop_last().len() && s.drop_last()[m] == r2[k];
                    assert(s[m] == r2[k]);
                }
            } else {
                assert(s[s.len() - 1] == s.last());
            }
        }
    } else if s.len() > 0 {
        let r = insert_by_number(s, x);
        assert forall|k: int| 0 <= k < r.len() implies #[trigger] r[k] == x || s.contains(r[k]) by {
            if k < s.len() {
                assert(r[k] == s[k]);
            }
        }
    }
}

proof fn lemma_sorted_members(s: Seq<(usize, int)>)
    ensures
        sort_by_number(s).len() == s.len(),
        forall|k: int| 0 <= k < sort_by_number(s).len() ==> s.contains(#[trigger] sort_by_number(s)[k]),
    decreases s.len(),
{
    if s.len() > 0 {
        lemma_sorted_members(s.drop_last());
        let p = sort_by_number(s.drop_last());
        lemma_insert_by_number_members(p, s.last());
        assert forall|k: int| 0 <= k < sort_by_number(s).len() implies s.contains(#[trigger] sort_by_number(s)[k]) by {
            let e = sort_by_number(s)[k];
            if e == s.last() {
                assert(s[s.len() - 1] == e);
            } else {
                assert(p.contains(e));
                let m = choose|m: int| 0 <= m < p.len() && p[m] == e;
                assert(s.drop_last().contains(e));
                let m2 = choose|m2: int| 0 <= m2 < s.drop_last().len() && s.drop_last()[m2] == e;
                assert(s[m2] == e);
            }
        }
    }
}

/// The sorted files of a chain's folder: every entry names a listed file
/// whose name reads as a shard name with that number.
pub proof fn lemma_sorted_files(paths: Seq<Seq<char>>)
    ensures
        forall|k: int|
            0 <= k < sorted_files(paths).len() ==> {
                let e = #[trigger] sorted_files(paths)[k];
                &&& 0 <= e.1 < paths.len()
                &&& signature_spec(paths[e.1]) matches Some(sig) && sig.0 == e.0
            },
{
    lemma_signed_positions(paths);
    lemma_sorted_members(signed_files(paths));
    let sf = signed_files(paths);
    assert forall|k: int| 0 <= k < sorted_files(paths).len() implies {
        let e = #[trigger] sorted_files(paths)[k];
        &&& 0 <= e.1 < paths.len()
        &&& signature_spec(paths[e.1]) matches Some(sig) && sig.0 == e.0
    } by {
        let e = sorted_files(paths)[k];
        assert(sf.contains(e));
        let m = choose|m: int| 0 <= m < sf.len() && sf[m] == e;
        assert(sf[m] == e);
    }
}

/// The numbered shard files among `files`, as (number, position), sorted
/// by number with equal numbers in list order.
pub fn sort_shard_files(files: &Vec<(String, Vec<u8>)>) -> (r: Vec<(usize, usize)>)
    ensures
        r@.len() == sorted_files(file_paths(files@)).len(),
        forall|k: int|
            0 <= k < r@.len() ==> (#[trigger] r@[k]).0 == sorted_files(file_paths(files@))[k].0 && r@[k].1
                == sorted_files(file_paths(files@))[k].1,
{
    let ghost paths = file_paths(files@);
    let mut signed: Vec<(usize, usize)> = Vec::new();
    let mut i: usize = 0;
    while i < files.len()
        invariant
            i <= files@.len(),
            paths == file_paths(files@),
            signed@.len() == signed_files(paths.subrange(0, i as int)).len(),
            forall|k: int|
                0 <= k < signed@.len() ==> (#[trigger] signed@[k]).0 == signed_files(paths.subrange(0, i as int))[k].0
                    && signed@[k].1 == signed_files(paths.subrange(0, i as int))[k].1,
        decreases files@.len() - i,
    {
        assert(paths.subrange(0, i + 1).drop_last() =~= paths.subrange(0, i as int));
        assert(paths.subrange(0, i + 1).last() == files@[i as int].0@);
        match extract_shard_signature(files[i].0.clone()) {
            Some((number, _, _)) => {
                signed.push((number, i));
            },
            None => {},
        }
        i = i + 1;
    }
    assert(paths.subrange(0, files@.len() as int) =~= paths);
    let ghost sf = signed_files(paths);
    let mut sorted: Vec<(usize, usize)> = Vec::new();
    let mut j: usize = 0;
    while j < signed.len()
        invariant
            j <= signed@.len(),
            signed@.len() == sf.len(),
            forall|k: int| 0 <= k < signed@.len() ==> (#[trigger] signed@[k]).0 == sf[k].0 && signed@[k].1 == sf[k].1,
            sorted@.len() == sort_by_number(sf.subrange(0, j as int)).len(),
            forall|k: int|
                0 <= k < sorted@.len() ==> (#[trigger] sorted@[k]).0 == sort_by_number(sf.subrange(0, j as int))[k].0
                    && sorted@[k].1 == sort_by_number(sf.subrange(0, j as int))[k].1,
        decreases signed@.len() - j,
    {
        let ghost cur = sort_by_number(sf.subrange(0, j as int));
        let x = signed[j];
        let mut pos = sorted.len();
        while pos > 0 && sorted[pos - 1].0 > x.0
            invariant
                pos <= sorted@.len(),
                sorted@.len() == cur.len(),
                forall|k: int| 0 <= k < sorted@.len() ==> (#[trigger] sorted@[k]).0 == cur[k].0 && sorted@[k].1 == cur[k].1,
                forall|k: int| pos <= k < cur.len() ==> #[trigger] cur[k].0 > x.0,
            decreases pos,
        {
            pos = pos - 1;
        }
        proof {
            assert(sf.subrange(0, j + 1).drop_last() =~= sf.subrange(0, j as int));
            assert(sf.subrange(0, j + 1).last() == sf[j as int]);
            assert(sf[j as int] == (x.0, x.1 as int));
            if pos > 0 {
                assert(cur[pos - 1].0 <= x.0);
            }
            lemma_insert_by_number(cur, sf[j as int], pos as int);
        }
        sorted.insert(pos, x);
        j = j + 1;
    }
    assert(sf.subrange(0, signed@.len() as int) =~= sf);
    sorted
}

impl<S: Shard<Opts>, Opts: ShardConfig> MapShard<S, Opts> {
    /// What opening a chain on the listed `paths`, with the given `contents`,
    /// gives: the last sorted file is the master (or, with none, a new shard
    /// numbered 0 with no rows), and the other sorted files are the past
    /// masters, in order, each under the id text read from its name; each
    /// shard holds the rows of its file, with the capacity, breaking point
    /// and id its file's header gives (or, for an empty file, the configured
    /// ones).
    pub open spec fn opened_from(
        &self,
        shards_folder: Seq<char>,
        shard_prefix: Seq<char>,
        config: Opts,
        paths: Seq<Seq<char>>,
        contents: Seq<Seq<u8>>,
    ) -> bool {
        let sorted = sorted_files(paths);
        let pe = opened_past_entries(paths);
        &&& self.inv()
        &&& self.shard_prefix@ == shard_prefix
        &&& self.shards_folder@ == shards_folder
        &&& self.config == config
        &&& sorted.len() > 0 ==> {
            &&& self.current_master_shard.spec_path() == paths[sorted.last().1]
            &&& self.current_master_shard.spec_items() == opened_items::<S, Opts>(contents[sorted.last().1])
            &&& opened_limits::<S, Opts>(self.current_master_shard, contents[sorted.last().1], config)
        }
        &&& sorted.len() == 0 ==> {
            &&& self.current_master_shard.spec_path() == join_spec(
                shards_folder,
                shard_name(shard_prefix, self.current_master_shard.spec_id(), 0),
            )
            &&& self.current_master_shard.spec_items().len() == 0
            &&& opened_limits::<S, Opts>(self.current_master_shard, Seq::empty(), config)
        }
        &&& self.past_master_shards@.len() == pe.len()
        &&& forall|k: int|
            0 <= k < pe.len() ==> {
                &&& (#[trigger] self.past_master_shards@[k]).1.spec_path() == paths[pe[k].1]
                &&& self.past_master_shards@[k].0@ == pe[k].0
                &&& self.past_master_shards@[k].1.spec_items() == opened_items::<S, Opts>(contents[pe[k].1])
                &&& opened_limits::<S, Opts>(self.past_master_shards@[k].1, contents[pe[k].1], config)
            }
    }

    /// Opens the chain as `new` does where every shard file can be opened
    /// with `config`, the id text of every file that becomes a past master
    /// reads as a UUID, and the file that becomes the master holds no more
    /// rows than its capacity; otherwise gives `None`.
    pub fn try_new(shards_folder: String, shard_prefix: &str, config: Opts, files: Vec<(String, Vec<u8>)>) -> (r: Option<Self>)
        requires
            prefix_ok(shard_prefix@),
            S::openable(Seq::empty(), config),
            S::config_capacity(config) != Some(0nat),
        ensures
            r is Some <==> {
                &&& forall|k: int|
                    0 <= k < sorted_files(file_paths(files@)).len() ==> S::openable(
                        files@[(#[trigger] sorted_files(file_paths(files@))[k]).1].1@,
                        config,
                    )
                &&& forall|k: int|
                    0 <= k < opened_past_files(file_paths(files@)).len() ==> uuid_parse(
                        (signature_spec(file_paths(files@)[#[trigger] opened_past_files(file_paths(files@))[k]])->0).1,
                    ) is Some
                &&& sorted_files(file_paths(files@)).len() > 0 ==> file_fits::<S, Opts>(
                    files@[sorted_files(file_paths(files@)).last().1].1@,
                )
            },
            r matches Some(m) ==> m.opened_from(shards_folder@, shard_prefix@, config, file_paths(files@), file_contents(files@)),
    {
        let ghost paths = file_paths(files@);
        let ghost sorted_spec = sorted_files(paths);
        proof {
            lemma_sorted_files(paths);
        }
        let sorted = sort_shard_files(&files);
        let n = sorted.len();
        let mut q: usize = 0;
        while q < n
            invariant
                q <= n,
                n == sorted@.len(),
                n == sorted_spec.len(),
                sorted_spec == sorted_files(paths),
                paths == file_paths(files@),
                forall|k: int| 0 <= k < n ==> (#[trigger] sorted@[k]).0 == sorted_spec[k].0 && sorted@[k].1 == sorted_spec[k].1,
                forall|k: int|
                    0 <= k < sorted_spec.len() ==> {
                        let e = #[trigger] sorted_spec[k];
                        &&& 0 <= e.1 < paths.len()
                        &&& signature_spec(paths[e.1]) matches Some(sig) && sig.0 == e.0
                    },
                forall|k: int| 0 <= k < q ==> S::openable(files@[(#[trigger] sorted_spec[k]).1].1@, config),
            decreases n - q,
        {
            let fi = sorted[q].1;
            if !S::file_openable(files[fi].1.as_slice(), config) {
                assert(!S::openable(files@[sorted_spec[q as int].1].1@, config));
                return None;
            }
            q = q + 1;
        }
        if n > 0 {
            let mi = sorted[n - 1].1;
            assert(sorted_spec[n - 1] == sorted_spec.last());
            if files[mi].1.len() != 0 && !S::file_within_capacity(files[mi].1.as_slice(), config) {
                return None;
            }
            let ghost master = paths[mi as int];
            let ghost pf = past_files(sorted_spec, paths, master);
            assert(pf == opened_past_files(paths));
            let mut j: usize = 0;
            while j < n
                invariant
                    j <= n,
                    n == sorted@.len(),
                    n == sorted_spec.len(),
                    mi < files@.len(),
                    master == files@[mi as int].0@,
                    paths == file_paths(files@),
                    pf == past_files(sorted_spec, paths, master),
                    pf == opened_past_files(paths),
                    forall|k: int| 0 <= k < n ==> (#[trigger] sorted@[k]).0 == sorted_spec[k].0 && sorted@[k].1 == sorted_spec[k].1,
                    forall|k: int|
                        0 <= k < sorted_spec.len() ==> {
                            let e = #[trigger] sorted_spec[k];
                            &&& 0 <= e.1 < paths.len()
                            &&& signature_spec(paths[e.1]) matches Some(sig) && sig.0 == e.0
                        },
                    forall|k: int|
                        0 <= k < past_files(sorted_spec.subrange(0, j as int), paths, master).len() ==> uuid_parse(
                            (signature_spec(paths[#[trigger] past_files(sorted_spec.subrange(0, j as int), paths, master)[k]])->0).1,
                        ) is Some,
                decreases n - j,
            {
                let ghost before = past_files(sorted_spec.subrange(0, j as int), paths, master);
                proof {
                    lemma_past_files_prefix(sorted_spec, paths, master, j + 1);
                }
                let i = sorted[j].1;
                assert(paths[i as int] == files@[i as int].0@);
                if files[i].0 != files[mi].0 {
                    let signature = extract_shard_signature(files[i].0.clone());
                    let (_, uuid, _) = signature.unwrap();
                    let ghost after = past_files(sorted_spec.subrange(0, j + 1), paths, master);
                    assert(after == before.push(i as int));
                    assert(after[before.len() as int] == i as int);
                    let parsed = parse_uuid(uuid.as_str());
                    if parsed.is_none() {
                        proof {
                            lemma_past_files_grow(sorted_spec, paths, master, j + 1);
                            assert(pf[before.len() as int] == i as int);
                            assert(uuid@ == (signature_spec(paths[i as int])->0).1);
                            assert(uuid_parse(uuid@) is None);
                            assert(before.len() < pf.len());
                            assert(uuid_parse((signature_spec(paths[pf[before.len() as int]])->0).1) is None);
                        }
                        return None;
                    }
                    assert forall|k: int| 0 <= k < after.len() implies uuid_parse(
                        (signature_spec(paths[#[trigger] after[k]])->0).1,
                    ) is Some by {
                        if k < before.len() {
                            assert(after[k] == before[k]);
                        }
                    }
                }
                j = j + 1;
            }
            assert(sorted_spec.subrange(0, n as int) =~= sorted_spec);
        }
        Some(Self::new(shards_folder, shard_prefix, config, files))
    }

    /// Opens the chain of the shard files found in `shards_folder` (their
    /// paths and contents, as listed): the files whose names read as shard
    /// names are sorted by number, the last one is the master and the others
    /// are the past masters, in order, each opened with the id in its name
    /// and kept under that id text; a file whose id text is already kept
    /// takes the place of the one kept before it. With no such file, the
    /// master is a new shard numbered 0.
    pub fn new(shards_folder: String, shard_prefix: &str, config: Opts, files: Vec<(String, Vec<u8>)>) -> (r: Self)
        requires
            prefix_ok(shard_prefix@),
            S::openable(Seq::empty(), config),
            S::config_capacity(config) != Some(0nat),
            forall|k: int|
                0 <= k < sorted_files(file_paths(files@)).len() ==> S::openable(
                    files@[(#[trigger] sorted_files(file_paths(files@))[k]).1].1@,
                    config,
                ),
            forall|k: int|
                0 <= k < opened_past_files(file_paths(files@)).len() ==> uuid_parse(
                    (signature_spec(file_paths(files@)[#[trigger] opened_past_files(file_paths(files@))[k]])->0).1,
                ) is Some,
            sorted_files(file_paths(files@)).len() > 0 ==> file_fits::<S, Opts>(
                files@[sorted_files(file_paths(files@)).last().1].1@,
            ),
        ensures
            r.opened_from(shards_folder@, shard_prefix@, config, file_paths(files@), file_contents(files@)),
    {
        let ghost paths = file_paths(files@);
        let ghost sorted_spec = sorted_files(paths);
        proof {
            lemma_sorted_files(paths);
        }
        let sorted = sort_shard_files(&files);
        let maybe_new_shard_id = new_uuid_v4();
        let n = sorted.len();
        let (master_path, master_file) = if n > 0 {
            let mi = sorted[n - 1].1;
            assert(sorted_spec[n - 1] == sorted_spec.last());
            (files[mi].0.clone(), slice_to_vec(files[mi].1.as_slice()))
        } else {
            let name = generate_shard_name(shard_prefix, &maybe_new_shard_id, 0);
            proof {
                lemma_shard_name_signature(shards_folder@, shard_prefix@, maybe_new_shard_id@, 0);
            }
            (join_path(shards_folder.as_str(), name.as_str()), Vec::new())
        };
        let ghost pf = if n > 0 {
            past_files(sorted_spec, paths, master_path@)
        } else {
            Seq::<int>::empty()
        };
        assert(pf == opened_past_files(paths));
        let ghost contents = file_contents(files@);
        assert(n > 0 ==> master_file@ == contents[sorted_spec.last().1]);
        let ghost master_bytes = master_file@;
        let mut past_master_shards: Vec<(String, S)> = Vec::new();
        let mut j: usize = 0;
        while j < n
            invariant
                j <= n,
                n == sorted@.len(),
                n == sorted_spec.len(),
                paths == file_paths(files@),
                sorted_spec == sorted_files(paths),
                forall|k: int| 0 <= k < n ==> (#[trigger] sorted@[k]).0 == sorted_spec[k].0 && sorted@[k].1 == sorted_spec[k].1,
                forall|k: int|
                    0 <= k < sorted_spec.len() ==> {
                        let e = #[trigger] sorted_spec[k];
                        &&& 0 <= e.1 < paths.len()
                        &&& signature_spec(paths[e.1]) matches Some(sig) && sig.0 == e.0
                    },
                forall|k: int|
                    0 <= k < sorted_spec.len() ==> S::openable(files@[(#[trigger] sorted_spec[k]).1].1@, config),
                n > 0 ==> pf == past_files(sorted_spec, paths, master_path@),
                n > 0 ==> forall|k: int|
                    0 <= k < pf.len() ==> uuid_parse((signature_spec(paths[#[trigger] pf[k]])->0).1) is Some,
                n > 0 ==> past_master_shards@.len() == keyed_files(
                    paths,
                    past_files(sorted_spec.subrange(0, j as int), paths, master_path@),
                ).len(),
                n == 0 ==> past_master_shards@.len() == 0,
                forall|k: int| 0 <= k < past_master_shards@.len() ==> (#[trigger] past_master_shards@[k]).1.inv(),
                n > 0 ==> forall|k: int|
                    0 <= k < past_master_shards@.len() ==> #[trigger] opened_entry::<S, Opts>(
                        past_master_shards@[k],
                        keyed_files(paths, past_files(sorted_spec.subrange(0, j as int), paths, master_path@))[k],
                        files@,
                        config,
                    ),
            decreases n - j,
        {
            let ghost before = past_files(sorted_spec.subrange(0, j as int), paths, master_path@);
            proof {
                assert(sorted_spec.subrange(0, j + 1).drop_last() =~= sorted_spec.subrange(0, j as int));
                assert(sorted_spec.subrange(0, j + 1).last() == sorted_spec[j as int]);
                lemma_past_files_prefix(sorted_spec, paths, master_path@, j + 1);
                lemma_past_files_grow(sorted_spec, paths, master_path@, j + 1);
            }
            let i = sorted[j].1;
            assert(paths[i as int] == files@[i as int].0@);
            if files[i].0 != master_path {
                let signature = extract_shard_signature(files[i].0.clone());
                let (_, uuid, _) = signature.unwrap();
                proof {
                    let after = past_files(sorted_spec.subrange(0, j + 1), paths, master_path@);
                    assert(after == before.push(i as int));
                    assert(after[before.len() as int] == i as int);
                    assert(pf[before.len() as int] == i as int);
                    assert(before.len() < pf.len());
                    assert(uuid_parse((signature_spec(paths[pf[before.len() as int]])->0).1) is Some);
                    assert(uuid@ == (signature_spec(paths[i as int])->0).1);
                }
                let id = parse_uuid(uuid.as_str()).unwrap();
                let shard = S::new(files[i].0.clone(), slice_to_vec(files[i].1.as_slice()), config, Some(id));
                proof {
                    if files@[i as int].1@.len() == 0 {
                        assert(shard.spec_items() =~= opened_items::<S, Opts>(files@[i as int].1@));
                    }
                }
                let ghost new_entry = (uuid, shard);
                let ghost old_past = past_master_shards@;
                let ghost ke = keyed_files(paths, before);
                let ghost key = uuid@;
                let ghost after = past_files(sorted_spec.subrange(0, j + 1), paths, master_path@);
                proof {
                    assert(after.drop_last() =~= before);
                    assert(after.last() == i as int);
                    assert(key == name_id(paths[i as int]));
                    lemma_key_pos(ke, key);
                }
                let p = find_past(&past_master_shards, uuid.as_str());
                proof {
                    assert(p == key_pos(ke, key)) by {
                        lemma_key_pos(ke, key);
                        if p < key_pos(ke, key) {
                            assert(ke[p as int].0 != key);
                            assert(opened_entry::<S, Opts>(past_master_shards@[p as int], ke[p as int], files@, config));
                            assert(past_master_shards@[p as int].0@ == ke[p as int].0);
                        } else if key_pos(ke, key) < p {
                            let q = key_pos(ke, key);
                            assert(opened_entry::<S, Opts>(past_master_shards@[q], ke[q], files@, config));
                            assert(past_master_shards@[q].0@ == ke[q].0);
                        }
                    }
                }
                if p < past_master_shards.len() {
                    past_master_shards.set(p, (uuid, shard));
                } else {
                    past_master_shards.push((uuid, shard));
                }
                proof {
                    let ka = keyed_files(paths, after);
                    assert(ka == if p < ke.len() {
                        ke.update(p as int, (key, i as int))
                    } else {
                        ke.push((key, i as int))
                    });
                    assert(ka.len() == past_master_shards@.len());
                    assert(ka == keyed_files(paths, past_files(sorted_spec.subrange(0, j + 1), paths, master_path@)));
                    assert forall|k: int| 0 <= k < past_master_shards@.len() implies #[trigger] opened_entry::<S, Opts>(
                        past_master_shards@[k],
                        ka[k],
                        files@,
                        config,
                    ) by {
                        if k == p as int {
                            assert(past_master_shards@[k] == new_entry);
                            assert(ka[k] == (key, i as int));
                            assert(new_entry.1.spec_path() == files@[i as int].0@);
                        } else {
                            assert(past_master_shards@[k] == old_past[k]);
                            assert(ka[k] == ke[k]);
                            assert(opened_entry::<S, Opts>(old_past[k], ke[k], files@, config));
                        }
                    }
                }
            }
            else {
                proof {
                    let after = past_files(sorted_spec.subrange(0, j + 1), paths, master_path@);
                    assert(after == before);
                }
            }
            j = j + 1;
        }
        assert(sorted_spec.subrange(0, n as int) =~= sorted_spec);
        let current_master_shard = S::new(master_path, master_file, config, Some(maybe_new_shard_id));
        proof {
            if master_bytes.len() == 0 {
                assert(current_master_shard.spec_items() =~= opened_items::<S, Opts>(master_bytes));
            }
            let pe = opened_past_entries(paths);
            if n > 0 {
                assert(sorted_spec.subrange(0, n as int) =~= sorted_spec);
                assert(pe == keyed_files(paths, past_files(sorted_spec.subrange(0, n as int), paths, master_path@)));
            }
            assert(past_master_shards@.len() == pe.len());
            assert forall|k: int| 0 <= k < pe.len() implies {
                &&& (#[trigger] past_master_shards@[k]).1.spec_path() == paths[pe[k].1]
                &&& past_master_shards@[k].0@ == pe[k].0
                &&& past_master_shards@[k].1.spec_items() == opened_items::<S, Opts>(contents[pe[k].1])
                &&& opened_limits::<S, Opts>(past_master_shards@[k].1, contents[pe[k].1], config)
            } by {
                assert(opened_entry::<S, Opts>(past_master_shards@[k], pe[k], files@, config));
                assert(contents[pe[k].1] == files@[pe[k].1].1@);
                assert(paths[pe[k].1] == files@[pe[k].1].0@);
            }
        }
        let shard_prefix = string_of(chars_of(shard_prefix).as_slice());
        MapShard { current_master_shard, past_master_shards, shard_prefix, shards_folder, config }
    }
}

/// The past files among the first `j` sorted files are those among the
/// first `j - 1`, with the `j`th where its path is not the master's.
proof fn lemma_past_files_prefix(sorted: Seq<(usize, int)>, paths: Seq<Seq<char>>, master: Seq<char>, j: int)
    requires
        1 <= j <= sorted.len(),
    ensures
        past_files(sorted.subrange(0, j), paths, master) == if paths[sorted[j - 1].1] == master {
            past_files(sorted.subrange(0, j - 1), paths, master)
        } else {
            past_files(sorted.subrange(0, j - 1), paths, master).push(sorted[j - 1].1)
        },
        past_files(sorted.subrange(0, j - 1), paths, master).len() <= past_files(sorted, paths, master).len(),
        forall|k: int|
            0 <= k < past_files(sorted.subrange(0, j), paths, master).len() ==> #[trigger] past_files(
                sorted.subrange(0, j),
                paths,
                master,
            )[k] == past_files(sorted, paths, master)[k],
{
    assert(sorted.subrange(0, j).drop_last() =~= sorted.subrange(0, j - 1));
    lemma_past_files_grow(sorted, paths, master, j);
}

/// The past files are positions that the sorted files hold.
proof fn lemma_past_files_in_range(sorted: Seq<(usize, int)>, paths: Seq<Seq<char>>, master: Seq<char>, len: int)
    requires
        forall|k: int| 0 <= k < sorted.len() ==> 0 <= (#[trigger] sorted[k]).1 < len,
    ensures
        forall|k: int|
            0 <= k < past_files(sorted, paths, master).len() ==> 0 <= #[trigger] past_files(sorted, paths, master)[k]
                < len,
    decreases sorted.len(),
{
    if sorted.len() > 0 {
        let d = sorted.drop_last();
        assert forall|k: int| 0 <= k < d.len() implies 0 <= (#[trigger] d[k]).1 < len by {
            assert(d[k] == sorted[k]);
        }
        lemma_past_files_in_range(d, paths, master, len);
        assert(sorted.last() == sorted[sorted.len() - 1]);
        let p = past_files(d, paths, master);
        let r = past_files(sorted, paths, master);
        assert forall|k: int| 0 <= k < r.len() implies 0 <= #[trigger] r[k] < len by {
            if k < p.len() {
                assert(r[k] == p[k]);
            }
        }
    }
}

proof fn lemma_past_files_grow(sorted: Seq<(usize, int)>, paths: Seq<Seq<char>>, master: Seq<char>, j: int)
    requires
        0 <= j <= sorted.len(),
    ensures
        past_files(sorted.subrange(0, j), paths, master).len() <= past_files(sorted, paths, master).len(),
        forall|k: int|
            0 <= k < past_files(sorted.subrange(0, j), paths, master).len() ==> #[trigger] past_files(
                sorted.subrange(0, j),
                paths,
                master,
            )[k] == past_files(sorted, paths, master)[k],
    decreases sorted.len() - j,
{
    if j == sorted.len() {
        assert(sorted.subrange(0, j) =~= sorted);
    } else {
        lemma_past_files_grow(sorted, paths, master, j + 1);
        let t = sorted.subrange(0, j + 1);
        assert(t.drop_last() =~= sorted.subrange(0, j));
        assert(t.last() == sorted[j]);
        let a = past_files(sorted.subrange(0, j), paths, master);
        let b = past_files(t, paths, master);
        assert(b == a || b == a.push(sorted[j].1));
        assert forall|k: int| 0 <= k < a.len() implies #[trigger] a[k] == past_files(sorted, paths, master)[k] by {
            assert(a[k] == b[k]);
        }
    }
}

impl<S: Shard<Opts>, Opts: ShardConfig> MapShard<S, Opts> {
    /// Whether the chain takes one more row `row`: the master and a new
    /// shard take it, and the shard numbers and the position it gets fit.
    pub open spec fn takes_one(&self, row: Seq<u8>) -> bool {
        &&& self.current_master_shard.accepts(seq![row])
        &&& S::fresh_accepts(self.config, seq![row])
        &&& self.master_number() + 2 <= usize::MAX
        &&& self.insert_position(1, false) <= usize::MAX
    }

    /// Whether the chain takes one more row.
    pub fn takes_row(&self, row: &[u8]) -> (r: bool)
        requires
            self.inv(),
        ensures
            r == self.takes_one(row@),
    {
        let one: [&[u8]; 1] = [row];
        proof {
            assert(slices_view(one@) =~= seq![row@]);
            self.current_master_shard.lemma_sizes();
        }
        if !self.current_master_shard.takes(one.as_slice()) {
            return false;
        }
        if !S::fresh_takes(self.config, one.as_slice()) {
            return false;
        }
        let number = match extract_shard_signature(self.current_master_shard.get_path()) {
            Some((n, _, _)) => n,
            None => {
                return false;
            },
        };
        if number > usize::MAX - 2 {
            return false;
        }
        let ghost len = self.current_master_shard.spec_items().len();
        let ghost g = fill_position::<S, Opts>(
            self.config,
            len,
            self.current_master_shard.spec_capacity(),
            self.current_master_shard.spec_breaking_point(),
            self.past_master_shards@.len(),
            1,
        );
        assert(self.insert_position(1, false) == g);
        let past = self.past_master_shards.len();
        let last = self.current_master_shard.get_last_index();
        let used: usize = if last < 0 {
            0
        } else {
            last as usize + 1
        };
        let space = self.current_master_shard.available_space();
        let full = match space {
            AvailableSpace::Fixed(f) => f == 0,
            AvailableSpace::Unlimited => false,
        };
        let pos: u128 = if full {
            let local = S::report_for(1);
            let split = S::config_split(self.config);
            let ghost inner = fill_position::<S, Opts>(
                self.config,
                0,
                S::config_capacity(self.config),
                S::config_breaking_point(self.config),
                (past + 1) as nat,
                1,
            );
            assert(g == inner);
            match split {
                Some(b) => {
                    assert((past as u128 + 1) * (b as u128) <= 0xffff_ffff_ffff_ffff_0000_0000_0000_0000u128) by (nonlinear_arith)
                        requires
                            past <= u64::MAX,
                            b <= u64::MAX,
                    ;
                    assert((past as u128 + 1) * (b as u128) == (past + 1) * b) by (nonlinear_arith)
                        requires
                            past <= u64::MAX,
                    ;
                    (past as u128 + 1) * (b as u128) + local as u128
                },
                None => local as u128,
            }
        } else {
            let local = S::report_for(used + 1);
            match self.current_master_shard.breaking_point() {
                Some(b) => {
                    assert((past as u128) * (b as u128) <= 0xffff_ffff_ffff_fffe_0000_0000_0000_0001u128) by (nonlinear_arith)
                        requires
                            past <= u64::MAX,
                            b <= u64::MAX,
                    ;
                    assert((past as u128) * (b as u128) == past * b) by (nonlinear_arith)
                        requires
                            past <= u64::MAX,
                    ;
                    (past as u128) * (b as u128) + local as u128
                },
                None => local as u128,
            }
        };
        assert(pos == g);
        pos <= usize::MAX as u128
    }
}

/// A chain that keeps the past masters and the master of another keeps
/// every row that one holds, where it was.
pub proof fn lemma_holds_row_kept<S: Shard<Opts>, Opts: ShardConfig>(a: MapShard<S, Opts>, b: MapShard<S, Opts>)
    requires
        a.past_master_shards@.len() <= b.past_master_shards@.len(),
        forall|k: int| 0 <= k < a.past_master_shards@.len() ==> #[trigger] b.past_master_shards@[k] == a.past_master_shards@[k],
        b.keeps_shard(a.current_master_shard),
    ensures
        forall|id: Seq<u8>, index: int, row: Seq<u8>| a.holds_row(id, index, row) ==> #[trigger] b.holds_row(id, index, row),
{
    assert forall|id: Seq<u8>, index: int, row: Seq<u8>| a.holds_row(id, index, row) implies #[trigger] b.holds_row(id, index, row) by {
        let k = choose|k: int|
            0 <= k < a.shards().len() && (#[trigger] a.shards()[k]).spec_id() == id && 0 <= index
                < a.shards()[k].spec_items().len() && a.shards()[k].spec_items()[index] == row;
        if k < a.past_master_shards@.len() {
            assert(b.shards()[k] == a.shards()[k]);
        } else {
            let m = a.current_master_shard;
            let j = choose|j: int|
                0 <= j < b.shards().len() && (#[trigger] b.shards()[j]).spec_id() == m.spec_id()
                    && m.spec_items().len() <= b.shards()[j].spec_items().len() && b.shards()[j].spec_items().subrange(
                    0,
                    m.spec_items().len() as int,
                ) == m.spec_items();
            assert(b.shards()[j].spec_items()[index] == b.shards()[j].spec_items().subrange(0, m.spec_items().len() as int)[index]);
        }
    }
}

/// A chain keeps `s` where its shard `k` has the id of `s` and rows that
/// start with those of `s`.
pub proof fn lemma_keeps_at<S: Shard<Opts>, Opts: ShardConfig>(c: MapShard<S, Opts>, s: S, k: int)
    requires
        0 <= k < c.shards().len(),
        c.shards()[k].spec_id() == s.spec_id(),
        s.spec_items().len() <= c.shards()[k].spec_items().len(),
        c.shards()[k].spec_items().subrange(0, s.spec_items().len() as int) == s.spec_items(),
    ensures
        c.keeps_shard(s),
{
}

/// What a chain keeps, a chain that keeps its past masters and what it
/// keeps of its master keeps too.
pub proof fn lemma_keeps_through<S: Shard<Opts>, Opts: ShardConfig>(a: MapShard<S, Opts>, b: MapShard<S, Opts>, s: S)
    requires
        a.keeps_shard(s),
        a.past_master_shards@.len() <= b.past_master_shards@.len(),
        forall|k: int| 0 <= k < a.past_master_shards@.len() ==> #[trigger] b.past_master_shards@[k] == a.past_master_shards@[k],
        b.keeps_shard(a.current_master_shard),
    ensures
        b.keeps_shard(s),
{
    let k = choose|k: int|
        0 <= k < a.shards().len() && (#[trigger] a.shards()[k]).spec_id() == s.spec_id()
            && s.spec_items().len() <= a.shards()[k].spec_items().len() && a.shards()[k].spec_items().subrange(
            0,
            s.spec_items().len() as int,
        ) == s.spec_items();
    let n = s.spec_items().len() as int;
    if k < a.past_master_shards@.len() {
        assert(b.shards()[k] == a.shards()[k]);
        lemma_keeps_at(b, s, k);
    } else {
        let m = a.current_master_shard;
        let j = choose|j: int|
            0 <= j < b.shards().len() && (#[trigger] b.shards()[j]).spec_id() == m.spec_id()
                && m.spec_items().len() <= b.shards()[j].spec_items().len() && b.shards()[j].spec_items().subrange(
                0,
                m.spec_items().len() as int,
            ) == m.spec_items();
        assert(b.shards()[j].spec_items().subrange(0, n) =~= m.spec_items().subrange(0, n)) by {
            assert forall|i: int| 0 <= i < n implies b.shards()[j].spec_items()[i] == m.spec_items()[i] by {
                assert(b.shards()[j].spec_items().subrange(0, m.spec_items().len() as int)[i] == b.shards()[j].spec_items()[i]);
            }
        }
        lemma_keeps_at(b, s, j);
    }
}

} // verus!
