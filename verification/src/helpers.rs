//! Helpers that tables register, and the place where schemes keep their files.
use vstd::prelude::*;
use crate::text::{
    chars_of, file_name, file_name_spec, last_index_of, lemma_last_index_of, join_spec, join_path, same_text,
};

verus! {

/// What a helper is called for.
#[derive(Debug, Clone, Copy, PartialEq, Eq, Structural)]
pub enum HelperType {
    CustomQuery,
    InsertHook,
}

impl HelperType {
    pub fn is_insert_hook(&self) -> (r: bool)
        ensures
            r == (*self is InsertHook),
    {
        match self {
            HelperType::InsertHook => true,
            _ => false,
        }
    }

    pub fn is_custom_query(&self) -> (r: bool)
        ensures
            r == (*self is CustomQuery),
    {
        match self {
            HelperType::CustomQuery => true,
            _ => false,
        }
    }
}

/// A helper that a table registers: its identifier, what it is called for,
/// and the function to call, held as the script engine's handle `F`.
#[derive(Debug)]
pub struct Helper<F> {
    pub identifier: String,
    pub internal_type: HelperType,
    pub func: F,
}

/// The helpers of a table.
#[derive(Debug)]
pub struct SjsHelpersContainer<F>(pub Vec<Helper<F>>);

impl<F> SjsHelpersContainer<F> {
    pub fn new(data: Vec<Helper<F>>) -> (r: Self)
        ensures
            r.0@ == data@,
    {
        Self(data)
    }
}

/// The helpers of each table of each database: by database name, then by
/// table name.
#[derive(Debug)]
pub struct SjsTableHelpers<F>(pub Vec<(String, Vec<(String, SjsHelpersContainer<F>)>)>);

/// The position of the first entry named `name`, or the length.
pub open spec fn first_named<T>(entries: Seq<(String, T)>, name: Seq<char>) -> int
    decreases entries.len(),
{
    if entries.len() == 0 {
        0
    } else if first_named(entries.drop_last(), name) < entries.len() - 1 {
        first_named(entries.drop_last(), name)
    } else if entries.last().0@ == name {
        entries.len() - 1
    } else {
        entries.len() as int
    }
}

pub proof fn lemma_first_named<T>(entries: Seq<(String, T)>, name: Seq<char>)
    ensures
        0 <= first_named(entries, name) <= entries.len(),
        first_named(entries, name) < entries.len() ==> entries[first_named(entries, name)].0@ == name,
        forall|i: int| 0 <= i < first_named(entries, name) ==> entries[i].0@ != name,
    decreases entries.len(),
{
    if entries.len() > 0 {
        lemma_first_named(entries.drop_last(), name);
        assert forall|i: int| 0 <= i < first_named(entries, name) implies entries[i].0@ != name by {
            if i < entries.len() - 1 {
                assert(entries.drop_last()[i] == entries[i]);
            }
        }
    }
}

/// The position of the first entry named `name`, or the length.
fn find_named<T>(entries: &Vec<(String, T)>, name: &str) -> (r: usize)
    ensures
        r == first_named(entries@, name@),
{
    proof {
        lemma_first_named(entries@, name@);
    }
    let mut i: usize = 0;
    while i < entries.len()
        invariant
            i <= entries@.len(),
            forall|k: int| 0 <= k < i ==> entries@[k].0@ != name@,
            0 <= first_named(entries@, name@) <= entries@.len(),
            first_named(entries@, name@) < entries@.len() ==> entries@[first_named(entries@, name@)].0@ == name@,
            forall|k: int| 0 <= k < first_named(entries@, name@) ==> entries@[k].0@ != name@,
        decreases entries@.len() - i,
    {
        if same_text(entries[i].0.as_str(), name) {
            assert(first_named(entries@, name@) == i) by {
                if first_named(entries@, name@) < i {
                    assert(entries@[first_named(entries@, name@)].0@ != name@);
                }
            }
            return i;
        }
        i = i + 1;
    }
    i
}

/// The position of the first helper with identifier `id`, or the length.
pub open spec fn first_with_id<F>(helpers: Seq<Helper<F>>, id: Seq<char>) -> int
    decreases helpers.len(),
{
    if helpers.len() == 0 {
        0
    } else if first_with_id(helpers.drop_last(), id) < helpers.len() - 1 {
        first_with_id(helpers.drop_last(), id)
    } else if helpers.last().identifier@ == id {
        helpers.len() - 1
    } else {
        helpers.len() as int
    }
}

proof fn lemma_first_with_id<F>(helpers: Seq<Helper<F>>, id: Seq<char>)
    ensures
        0 <= first_with_id(helpers, id) <= helpers.len(),
        first_with_id(helpers, id) < helpers.len() ==> helpers[first_with_id(helpers, id)].identifier@ == id,
        forall|i: int| 0 <= i < first_with_id(helpers, id) ==> helpers[i].identifier@ != id,
    decreases helpers.len(),
{
    if helpers.len() > 0 {
        lemma_first_with_id(helpers.drop_last(), id);
        assert forall|i: int| 0 <= i < first_with_id(helpers, id) implies helpers[i].identifier@ != id by {
            if i < helpers.len() - 1 {
                assert(helpers.drop_last()[i] == helpers[i]);
            }
        }
    }
}

/// The insert hooks among `helpers`, in order.
pub open spec fn insert_hooks<F>(helpers: Seq<Helper<F>>) -> Seq<Helper<F>>
    decreases helpers.len(),
{
    if helpers.len() == 0 {
        Seq::empty()
    } else if helpers.last().internal_type is InsertHook {
        insert_hooks(helpers.drop_last()).push(helpers.last())
    } else {
        insert_hooks(helpers.drop_last())
    }
}

impl<F> SjsTableHelpers<F> {
    /// The helpers of `table` in database `db_name`: those of the first
    /// entry of that name, if the database and the table have one.
    pub open spec fn table_helpers(&self, db_name: Seq<char>, table: Seq<char>) -> Option<Seq<Helper<F>>> {
        let d = first_named(self.0@, db_name);
        if d < self.0@.len() {
            let tables = self.0@[d].1@;
            let t = first_named(tables, table);
            if t < tables.len() {
                Some(tables[t].1.0@)
            } else {
                None
            }
        } else {
            None
        }
    }

    /// Whether there is an entry for database `db_name`.
    pub open spec fn has_db(&self, db_name: Seq<char>) -> bool {
        first_named(self.0@, db_name) < self.0@.len()
    }

    /// The helper with identifier `identifier` of `table` in database
    /// `db_name`: the first one, where the database, the table and such a
    /// helper are there.
    pub fn find_custom_query_helper(&self, db_name: &str, table: &str, identifier: &str) -> (r: Option<&Helper<F>>)
        ensures
            match self.table_helpers(db_name@, table@) {
                None => r is None,
                Some(hs) => {
                    let k = first_with_id(hs, identifier@);
                    &&& k < hs.len() ==> r == Some(&hs[k])
                    &&& k >= hs.len() ==> r is None
                },
            },
    {
        let d = find_named(&self.0, db_name);
        if d >= self.0.len() {
            return None;
        }
        let tables = &self.0[d].1;
        let t = find_named(tables, table);
        if t >= tables.len() {
            return None;
        }
        let helpers = &tables[t].1.0;
        assert(self.table_helpers(db_name@, table@) == Some(helpers@));
        proof {
            lemma_first_with_id(helpers@, identifier@);
        }
        let mut i: usize = 0;
        while i < helpers.len()
            invariant
                i <= helpers@.len(),
                self.table_helpers(db_name@, table@) == Some(helpers@),
                forall|k: int| 0 <= k < i ==> helpers@[k].identifier@ != identifier@,
                0 <= first_with_id(helpers@, identifier@) <= helpers@.len(),
                first_with_id(helpers@, identifier@) < helpers@.len() ==> helpers@[first_with_id(
                    helpers@,
                    identifier@,
                )].identifier@ == identifier@,
                forall|k: int| 0 <= k < first_with_id(helpers@, identifier@) ==> helpers@[k].identifier@ != identifier@,
            decreases helpers@.len() - i,
        {
            if same_text(helpers[i].identifier.as_str(), identifier) {
                assert(first_with_id(helpers@, identifier@) == i) by {
                    if first_with_id(helpers@, identifier@) < i {
                        assert(helpers@[first_with_id(helpers@, identifier@)].identifier@ != identifier@);
                    }
                }
                return Some(&helpers[i]);
            }
            i = i + 1;
        }
        None
    }

    /// The hooks of kind `hook` of `table` in database `db_name`, in order:
    /// `None` where the database has no entry; for insert hooks, those of
    /// the table, or `None` where the table has no entry; `None` for any
    /// other kind.
    pub fn find_hook_helper(&self, db_name: &str, table: &str, hook: HelperType) -> (r: Option<Vec<&Helper<F>>>)
        ensures
            !self.has_db(db_name@) ==> r is None,
            self.has_db(db_name@) && !(hook is InsertHook) ==> r is None,
            self.has_db(db_name@) && hook is InsertHook ==> match self.table_helpers(db_name@, table@) {
                None => r is None,
                Some(hs) => r matches Some(v) && v@.len() == insert_hooks(hs).len() && forall|k: int|
                    0 <= k < v@.len() ==> *v@[k] == insert_hooks(hs)[k],
            },
    {
        let d = find_named(&self.0, db_name);
        if d >= self.0.len() {
            return None;
        }
        match hook {
            HelperType::InsertHook => {},
            _ => {
                return None;
            },
        }
        let tables = &self.0[d].1;
        let t = find_named(tables, table);
        if t >= tables.len() {
            return None;
        }
        let helpers = &tables[t].1.0;
        let mut out: Vec<&Helper<F>> = Vec::new();
        let mut i: usize = 0;
        while i < helpers.len()
            invariant
                i <= helpers@.len(),
                out@.len() == insert_hooks(helpers@.subrange(0, i as int)).len(),
                forall|k: int| 0 <= k < out@.len() ==> *out@[k] == insert_hooks(helpers@.subrange(0, i as int))[k],
            decreases helpers@.len() - i,
        {
            proof {
                assert(helpers@.subrange(0, i + 1).drop_last() =~= helpers@.subrange(0, i as int));
                assert(helpers@.subrange(0, i + 1).last() == helpers@[i as int]);
            }
            if helpers[i].internal_type.is_insert_hook() {
                out.push(&helpers[i]);
            }
            i = i + 1;
        }
        assert(helpers@.subrange(0, helpers@.len() as int) =~= helpers@);
        Some(out)
    }
}

/// The database and table a helper call is made in.
#[derive(Debug, Clone)]
pub struct HelperDbContext {
    pub db: Option<String>,
    pub table: Option<String>,
}

/// The extension of a path: what follows the last `.` of its file name,
/// where that `.` is not the name's first character.
pub open spec fn extension_spec(path: Seq<char>) -> Option<Seq<char>> {
    match file_name_spec(path) {
        None => None,
        Some(name) => {
            let d = last_index_of(name, '.');
            if d <= 0 {
                None
            } else {
                Some(name.subrange(d + 1, name.len() as int))
            }
        },
    }
}

/// Whether the path names a JavaScript or TypeScript module: its extension
/// is `js` or `ts`.
pub fn is_js_or_ts(path: &str) -> (r: bool)
    ensures
        r == (extension_spec(path@) == Some(seq!['j', 's']) || extension_spec(path@) == Some(seq!['t', 's'])),
{
    let chars = chars_of(path);
    let name = match file_name(chars.as_slice()) {
        None => return false,
        Some(n) => n,
    };
    proof {
        lemma_last_index_of(name@, '.');
    }
    let mut d: usize = name.len();
    while d > 0 && name[d - 1] != '.'
        invariant
            d <= name@.len(),
            forall|i: int| d <= i < name@.len() ==> name@[i] != '.',
            last_index_of(name@, '.') < d,
            -1 <= last_index_of(name@, '.'),
            last_index_of(name@, '.') >= 0 ==> name@[last_index_of(name@, '.')] == '.',
        decreases d,
    {
        d = d - 1;
    }
    proof {
        if d > 0 {
            assert(name@[d - 1] == '.');
            assert(last_index_of(name@, '.') >= d - 1);
        } else if last_index_of(name@, '.') >= 0 {
            assert(name@[last_index_of(name@, '.')] == '.');
        }
    }
    if d <= 1 {
        return false;
    }
    let n = name.len();
    let ext = &name.as_slice()[d..n];
    assert(ext@ =~= name@.subrange(d as int, n as int));
    let is_js = ext.len() == 2 && ext[0] == 'j' && ext[1] == 's';
    let is_ts = ext.len() == 2 && ext[0] == 't' && ext[1] == 's';
    proof {
        if ext@ == seq!['j', 's'] {
            assert(ext@[0] == 'j' && ext@[1] == 's');
        }
        if ext@ == seq!['t', 's'] {
            assert(ext@[0] == 't' && ext@[1] == 's');
        }
        if is_js {
            assert(ext@ =~= seq!['j', 's']);
        }
        if is_ts {
            assert(ext@ =~= seq!['t', 's']);
        }
    }
    is_js || is_ts
}

/// The folder, under the user's data folder, where schemes keep their files.
pub const BASE_SCHEME_JS_FOLDER: &'static str = ".scheme-js";

/// The scheme folder inside the user's data folder `data_dir`.
pub fn get_base_path(data_dir: &str) -> (r: String)
    ensures
        r@ == join_spec(data_dir@, BASE_SCHEME_JS_FOLDER@),
{
    join_path(data_dir, BASE_SCHEME_JS_FOLDER)
}

} // verus!
