//! What shards have in common.
use vstd::prelude::*;
use crate::errors::ShardErrors;
use crate::ids::{UuidBytes, uuid_text, uuid_parse};

verus! {

/// How many more items a shard takes.
#[derive(Debug, Clone, Copy, PartialEq, Eq, Structural)]
pub enum AvailableSpace {
    Fixed(usize),
    Unlimited,
}

/// The configuration a kind of shard is made with.
pub trait ShardConfig: Copy {}

/// The byte sequences that a list of slices holds.
pub open spec fn slices_view(s: Seq<&[u8]>) -> Seq<Seq<u8>> {
    Seq::new(s.len(), |i: int| s[i]@)
}

/// A shard: a file of rows that are read back by index.
///
/// The file contents are handed to `new`; the shard keeps them and changes
/// them as rows are inserted.
pub trait Shard<Opts: ShardConfig>: Sized {
    /// What every operation relies on.
    spec fn inv(&self) -> bool;

    /// The rows the shard holds, by index.
    spec fn spec_items(&self) -> Seq<Seq<u8>>;

    spec fn spec_path(&self) -> Seq<char>;

    /// The bytes of the shard id.
    spec fn spec_id(&self) -> Seq<u8>;

    /// How many rows the shard takes at most; `None`: no limit.
    spec fn spec_capacity(&self) -> Option<nat>;

    /// What `has_space` answers.
    spec fn spec_has_space(&self) -> bool;

    spec fn spec_breaking_point(&self) -> Option<u64>;

    /// Capacity of a shard made on an empty file with `opts`.
    spec fn config_capacity(opts: Opts) -> Option<nat>;

    /// Breaking point of a shard made on an empty file with `opts`.
    spec fn config_breaking_point(opts: Opts) -> Option<u64>;

    /// The files a shard can be opened on with `opts`.
    spec fn openable(file: Seq<u8>, opts: Opts) -> bool;

    /// The rows an insertion takes.
    spec fn accepts(&self, rows: Seq<Seq<u8>>) -> bool;

    /// The rows an insertion into a shard made on an empty file with `opts` takes.
    spec fn fresh_accepts(opts: Opts, rows: Seq<Seq<u8>>) -> bool;

    /// The indexes that can be read.
    spec fn readable(&self, index: int) -> bool;

    /// The rows that a shard opened on the non-empty `file` holds.
    spec fn file_items(file: Seq<u8>) -> Seq<Seq<u8>>;

    /// The capacity of a shard opened on the non-empty `file`, as its header says.
    spec fn file_capacity(file: Seq<u8>) -> Option<nat>;

    /// The breaking point of a shard opened on the non-empty `file`.
    spec fn file_breaking_point(file: Seq<u8>) -> Option<u64>;

    /// The id of a shard opened on the non-empty `file`.
    spec fn file_id(file: Seq<u8>) -> Seq<u8>;

    /// What an insertion that leaves `len` rows returns.
    spec fn reported_index(len: nat) -> u64;

    /// Whether the shard takes the rows.
    fn takes(&self, rows: &[&[u8]]) -> (r: bool)
        requires
            self.inv(),
        ensures
            r == self.accepts(slices_view(rows@)),
    ;

    /// Whether a shard can be opened on `file` with `opts`.
    fn file_openable(file: &[u8], opts: Opts) -> (r: bool)
        ensures
            r == Self::openable(file@, opts),
    ;

    /// Whether a shard made on an empty file with `opts` takes the rows.
    fn fresh_takes(opts: Opts, rows: &[&[u8]]) -> (r: bool)
        requires
            Self::openable(Seq::empty(), opts),
        ensures
            r == Self::fresh_accepts(opts, slices_view(rows@)),
    ;

    /// What an insertion that leaves `len` rows returns.
    fn report_for(len: usize) -> (r: u64)
        ensures
            r == Self::reported_index(len as nat),
    ;

    /// The capacity of a shard made on an empty file with `opts`.
    fn config_room(opts: Opts) -> (r: Option<usize>)
        requires
            Self::openable(Seq::empty(), opts),
        ensures
            match Self::config_capacity(opts) {
                Some(c) => r == Some(c as usize) && c <= usize::MAX,
                None => r is None,
            },
    ;

    /// The breaking point of a shard made on an empty file with `opts`.
    fn config_split(opts: Opts) -> (r: Option<u64>)
        ensures
            r == Self::config_breaking_point(opts),
    ;

    /// Opens the shard stored in `file` at `path`, with the rows the file
    /// holds. An empty file gets a new shard with no rows, made with `opts`
    /// and the given id or a fresh one.
    fn new(path: String, file: Vec<u8>, opts: Opts, uuid: Option<UuidBytes>) -> (r: Self)
        requires
            Self::openable(file@, opts),
        ensures
            r.inv(),
            r.spec_path() == path@,
            file@.len() == 0 ==> {
                &&& r.spec_items().len() == 0
                &&& r.spec_capacity() == Self::config_capacity(opts)
                &&& r.spec_breaking_point() == Self::config_breaking_point(opts)
                &&& (uuid matches Some(u) ==> r.spec_id() == u@)
                &&& forall|rows: Seq<Seq<u8>>| #[trigger] r.accepts(rows) == Self::fresh_accepts(opts, rows)
                &&& forall|n: nat| #[trigger] r.recorded(n) == Self::fresh_recorded(opts, n)
            },
            file@.len() != 0 ==> {
                &&& r.spec_items() == Self::file_items(file@)
                &&& r.spec_capacity() == Self::file_capacity(file@)
                &&& r.spec_breaking_point() == Self::file_breaking_point(file@)
                &&& r.spec_id() == Self::file_id(file@)
            },
    ;

    /// Whether the shard stored in the non-empty `file` holds no more rows
    /// than its capacity.
    fn file_within_capacity(file: &[u8], opts: Opts) -> (r: bool)
        requires
            file@.len() != 0,
            Self::openable(file@, opts),
        ensures
            r == (Self::file_capacity(file@) matches Some(c) ==> Self::file_items(file@).len() <= c),
    ;

    /// A shard takes any run of the rows it takes.
    proof fn lemma_accepts_subrange(&self, rows: Seq<Seq<u8>>, i: int, j: int)
        requires
            self.accepts(rows),
            0 <= i <= j <= rows.len(),
        ensures
            self.accepts(rows.subrange(i, j)),
    ;

    /// A new shard takes any run of the rows it takes.
    proof fn lemma_fresh_accepts_subrange(opts: Opts, rows: Seq<Seq<u8>>, i: int, j: int)
        requires
            Self::fresh_accepts(opts, rows),
            0 <= i <= j <= rows.len(),
        ensures
            Self::fresh_accepts(opts, rows.subrange(i, j)),
    ;

    /// How many of `n` rows an insertion records.
    spec fn recorded(&self, n: nat) -> nat;

    /// How many of `n` rows an insertion into a shard made on an empty file
    /// with `opts` records.
    spec fn fresh_recorded(opts: Opts, n: nat) -> nat;

    /// An insertion records at most the rows it is given, and all of them
    /// where there is room for them.
    proof fn lemma_recorded(&self, n: nat)
        requires
            self.inv(),
        ensures
            self.recorded(n) <= n,
            self.spec_capacity() is None ==> self.recorded(n) == n,
            self.spec_capacity() matches Some(c) && self.spec_items().len() + n <= c ==> self.recorded(n) == n,
    ;

    /// A shard's capacity and breaking point are sizes, and so is its row count.
    proof fn lemma_sizes(&self)
        requires
            self.inv(),
        ensures
            self.spec_capacity() matches Some(c) ==> c <= usize::MAX,
            self.spec_breaking_point() matches Some(b) ==> b <= usize::MAX,
            forall|i: int| 0 <= i < self.spec_items().len() ==> #[trigger] self.readable(i),
            self.spec_items().len() < usize::MAX,
    ;

    /// Whether another row fits.
    fn has_space(&self) -> (r: bool)
        requires
            self.inv(),
        ensures
            r == self.spec_has_space(),
    ;

    /// The number of rows at which the shard may split, if there is one.
    fn breaking_point(&self) -> (r: Option<u64>)
        ensures
            r == self.spec_breaking_point(),
    ;

    fn get_path(&self) -> (r: String)
        ensures
            r@ == self.spec_path(),
    ;

    /// Index of the last row, or -1 when there is none.
    fn get_last_index(&self) -> (r: i64)
        requires
            self.inv(),
        ensures
            r == self.spec_items().len() - 1,
    ;

    /// Row `index`; an index past the rows is an error.
    fn read_item_from_index(&self, index: usize) -> (r: Result<Vec<u8>, ShardErrors>)
        requires
            self.inv(),
            self.readable(index as int),
        ensures
            index < self.spec_items().len() ==> (r matches Ok(v) && v@ == self.spec_items()[index as int]),
            index >= self.spec_items().len() ==> r is Err,
    ;

    /// How many more rows fit.
    fn available_space(&self) -> (r: AvailableSpace)
        requires
            self.inv(),
            self.spec_capacity() matches Some(c) ==> self.spec_items().len() <= c,
        ensures
            r == match self.spec_capacity() {
                Some(c) => AvailableSpace::Fixed((c - self.spec_items().len()) as usize),
                None => AvailableSpace::Unlimited,
            },
    ;

    /// Appends the rows and records as many as `recorded` says. Where all
    /// are recorded the shard holds them after its rows and the result is
    /// what `reported_index` says; otherwise the result is `OutOfPositions`,
    /// and every row but the shard's last reads as the rows before it and the
    /// recorded ones.
    fn insert_item(&mut self, data: &[&[u8]]) -> (r: Result<u64, ShardErrors>)
        requires
            old(self).inv(),
            old(self).accepts(slices_view(data@)),
        ensures
            final(self).inv(),
            final(self).spec_items().len() == old(self).spec_items().len() + old(self).recorded(data@.len()),
            forall|i: int|
                0 <= i < final(self).spec_items().len() - 1 ==> #[trigger] final(self).spec_items()[i] == (old(
                    self,
                ).spec_items() + slices_view(data@))[i],
            old(self).recorded(data@.len()) == data@.len() ==> final(self).spec_items() == old(self).spec_items()
                + slices_view(data@),
            final(self).spec_path() == old(self).spec_path(),
            final(self).spec_id() == old(self).spec_id(),
            final(self).spec_capacity() == old(self).spec_capacity(),
            final(self).spec_breaking_point() == old(self).spec_breaking_point(),
            old(self).recorded(data@.len()) == data@.len() ==> r == Ok::<u64, ShardErrors>(
                Self::reported_index(final(self).spec_items().len()),
            ),
            old(self).recorded(data@.len()) < data@.len() ==> r == Err::<u64, ShardErrors>(ShardErrors::OutOfPositions),
    ;

    /// The text form of the shard id.
    fn get_id(&self) -> (r: String)
        ensures
            r@ == uuid_text(self.spec_id()),
            uuid_parse(r@) == Some(self.spec_id()),
    ;
}

/// How an insertion of `rows` into a shard holding `old_items`, which
/// records `k` of them, leaves its rows (`new_items`) and what it answers
/// (`r`), as `Shard::insert_item` says.
pub open spec fn insert_outcome<S: Shard<Opts>, Opts: ShardConfig>(
    old_items: Seq<Seq<u8>>,
    k: nat,
    new_items: Seq<Seq<u8>>,
    rows: Seq<Seq<u8>>,
    r: Result<u64, ShardErrors>,
) -> bool {
    &&& new_items.len() == old_items.len() + k
    &&& forall|i: int| 0 <= i < new_items.len() - 1 ==> #[trigger] new_items[i] == (old_items + rows)[i]
    &&& k == rows.len() ==> new_items == old_items + rows
    &&& k == rows.len() ==> r == Ok::<u64, ShardErrors>(S::reported_index(new_items.len()))
    &&& k < rows.len() ==> r == Err::<u64, ShardErrors>(ShardErrors::OutOfPositions)
}

/// The rows of a shard opened on `file`: none for an empty file.
pub open spec fn opened_items<S: Shard<Opts>, Opts: ShardConfig>(file: Seq<u8>) -> Seq<Seq<u8>> {
    if file.len() == 0 {
        Seq::empty()
    } else {
        S::file_items(file)
    }
}

/// The limits and id of a shard opened on `file` with `config`: those of
/// the file's header, or, for an empty file, the configured limits.
pub open spec fn opened_limits<S: Shard<Opts>, Opts: ShardConfig>(s: S, file: Seq<u8>, config: Opts) -> bool {
    if file.len() == 0 {
        &&& s.spec_capacity() == S::config_capacity(config)
        &&& s.spec_breaking_point() == S::config_breaking_point(config)
    } else {
        &&& s.spec_capacity() == S::file_capacity(file)
        &&& s.spec_breaking_point() == S::file_breaking_point(file)
        &&& s.spec_id() == S::file_id(file)
    }
}

/// A shard file whose rows do not exceed the capacity its header gives
/// (an empty file holds none).
pub open spec fn file_fits<S: Shard<Opts>, Opts: ShardConfig>(file: Seq<u8>) -> bool {
    file.len() != 0 ==> (S::file_capacity(file) matches Some(c) ==> S::file_items(file).len() <= c)
}

/// A configuration from which shard configurations are made.
pub trait TempShardConfig<Opts: ShardConfig>: Clone {
    /// The shard configuration made.
    spec fn spec_config(&self) -> Opts;

    fn to_config(&self) -> (r: Opts)
        ensures
            r == self.spec_config(),
    ;
}

} // verus!
