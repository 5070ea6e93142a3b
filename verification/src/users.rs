//! Users, their roles, and the context of an authenticated session.
use vstd::prelude::*;
use std::time::SystemTime;
use dashmap::DashMap;
use crate::ids::{UuidBytes, new_uuid_v4, uuid_to_string, uuid_text};

verus! {

/// An action on a table.
#[derive(Debug, Clone, Copy, PartialEq, Eq, Structural)]
pub enum TableAction {
    /// Read or query the table.
    View,
    /// Insert, update or delete rows.
    Modify,
    /// Delete rows.
    Delete,
    /// Update rows.
    Update,
}

/// The actions allowed on one table.
#[derive(Debug)]
pub struct PermissionTableContainer {
    pub table_name: String,
    pub actions: Vec<TableAction>,
}

/// A level of access.
#[derive(Debug)]
pub enum Role {
    /// Permissions on given tables.
    TablePermissions(Vec<PermissionTableContainer>),
    /// Permissions on all tables, below those given for a table.
    GlobalTablePermissions(Vec<TableAction>),
    /// May create users.
    CanCreateUsers,
    /// May create tables.
    CanCreateTables,
    /// May create databases.
    CanCreateDatabase,
}

/// A user of a scheme.
#[derive(Debug)]
pub struct User {
    pub identifier: String,
    pub hashed_password: String,
    pub created_at: u64,
    pub updated_at: u64,
    pub is_admin: bool,
    pub is_super_admin: bool,
    pub roles: Vec<Role>,
    pub scheme: String,
}

/// The table that holds the users of a scheme.
pub const INTERNAL_USER_TABLE_NAME: &'static str = "sjs_users";

/// The bcrypt cost that passwords are hashed with.
pub const PASSWORD_HASH_COST: u32 = 12;

/// `bcrypt::hash` with a random salt: the hash text, or `None` where the
/// crate fails (it does so only when the operating system gives no random
/// salt, at this cost). The salt is random, so the text itself is left
/// unsaid; what is said is that `bcrypt::verify` matches the password
/// against it, since it recomputes the hash with the salt and cost the text
/// holds.
#[verifier::external_body]
fn bcrypt_hash(password: &str, cost: u32) -> (r: Option<String>)
    requires
        cost == PASSWORD_HASH_COST,
    ensures
        r matches Some(h) ==> bcrypt_verify_result(password@, h@) == Some(true),
{
    bcrypt::hash(password, cost).ok()
}

/// `SystemTime::duration_since` from the Unix epoch: the time passed since
/// then, or `None` (its error) where `t` is earlier. Nothing is promised of
/// the value.
#[verifier::external_body]
fn duration_since_epoch(t: &SystemTime) -> (r: Option<std::time::Duration>) {
    t.duration_since(std::time::UNIX_EPOCH).ok()
}

/// `Duration::as_secs`: the whole seconds of `d`, of which nothing is
/// promised here.
#[verifier::external_body]
fn duration_secs(d: &std::time::Duration) -> (r: u64) {
    d.as_secs()
}

/// The seconds since the Unix epoch of the system clock, or `None` when the
/// clock is set before the epoch.
fn unix_time_secs() -> (r: Option<u64>) {
    let now = system_time_now();
    match duration_since_epoch(&now) {
        Some(d) => Some(duration_secs(&d)),
        None => None,
    }
}

/// The user that a successful check of `identifier` in `scheme` against
/// the stored row `u` yields: the stored hash and times, the stored flags
/// (false where unset), no role.
pub open spec fn verified_user(user: User, identifier: Seq<char>, scheme: Seq<char>, u: UserRow) -> bool {
    &&& user.identifier@ == identifier
    &&& user.hashed_password@ == u.hashed_password@
    &&& user.created_at == u.created_at
    &&& user.updated_at == u.updated_at
    &&& user.is_admin == (u.is_admin == Some(true))
    &&& user.is_super_admin == (u.is_super_admin == Some(true))
    &&& user.roles@.len() == 0
    &&& user.scheme@ == scheme
}

/// What a verified user is given: the stored hash and times, the identifier
/// and scheme asked for, no role, and administrator or super administrator
/// rights only where the stored row sets that flag to true; an unset flag,
/// or one set to false, gives none.
pub proof fn lemma_verified_user_rights(user: User, identifier: Seq<char>, scheme: Seq<char>, u: UserRow)
    requires
        verified_user(user, identifier, scheme, u),
    ensures
        user.is_admin <==> u.is_admin == Some(true),
        user.is_super_admin <==> u.is_super_admin == Some(true),
        u.is_admin is None ==> !user.is_admin,
        u.is_super_admin is None ==> !user.is_super_admin,
        user.roles@.len() == 0,
        user.identifier@ == identifier,
        user.scheme@ == scheme,
        user.hashed_password@ == u.hashed_password@,
        user.created_at == u.created_at,
        user.updated_at == u.updated_at,
{
}

/// The user made of a password hash and a creation time, both times set to
/// it: `None` where either is missing.
pub fn user_from_parts(
    identifier: String,
    hashed_password: Option<String>,
    creation_time: Option<u64>,
    is_admin: bool,
    is_super_admin: bool,
    roles: Vec<Role>,
    scheme: String,
) -> (r: Option<User>)
    ensures
        r is Some <==> (hashed_password is Some && creation_time is Some),
        r matches Some(u) ==> {
            &&& u.identifier@ == identifier@
            &&& u.hashed_password@ == hashed_password->0@
            &&& u.created_at == creation_time->0
            &&& u.updated_at == creation_time->0
            &&& u.is_admin == is_admin
            &&& u.is_super_admin == is_super_admin
            &&& u.roles@ == roles@
            &&& u.scheme@ == scheme@
        },
{
    match (hashed_password, creation_time) {
        (Some(hashed_password), Some(creation_time)) => Some(User {
            identifier,
            hashed_password,
            created_at: creation_time,
            updated_at: creation_time,
            is_admin,
            is_super_admin,
            roles,
            scheme,
        }),
        _ => None,
    }
}

/// A new user with `password` hashed (so that it verifies against the hash)
/// and both times set to now; `None` where no salt or no time can be had,
/// which the system decides.
pub fn create_user(
    identifier: String,
    password: String,
    is_admin: bool,
    is_super_admin: bool,
    roles: Vec<Role>,
    scheme: String,
) -> (r: Option<User>)
    ensures
        r matches Some(u) ==> {
            &&& u.identifier@ == identifier@
            &&& bcrypt_verify_result(password@, u.hashed_password@) == Some(true)
            &&& u.created_at == u.updated_at
            &&& u.is_admin == is_admin
            &&& u.is_super_admin == is_super_admin
            &&& u.roles@ == roles@
            &&& u.scheme@ == scheme@
        },
{
    let hashed_password = bcrypt_hash(password.as_str(), PASSWORD_HASH_COST);
    let creation_time = match hashed_password {
        Some(_) => unix_time_secs(),
        None => None,
    };
    user_from_parts(identifier, hashed_password, creation_time, is_admin, is_super_admin, roles, scheme)
}

/// What a user gives to authenticate.
#[derive(Debug)]
pub struct VerifyUserArgs {
    pub scheme_name: String,
    pub identifier: String,
    pub password: String,
}

#[verifier::external_type_specification]
#[verifier::external_body]
pub struct ExSystemTime(std::time::SystemTime);

/// `SystemTime::now`: the time of the system clock, of which nothing is promised.
#[verifier::external_body]
fn system_time_now() -> (r: SystemTime) {
    SystemTime::now()
}

/// An authenticated user: when they authenticated and when they last queried.
pub struct UserContext {
    user: User,
    authenticated_at: SystemTime,
    last_query_at: Option<SystemTime>,
}

impl UserContext {
    pub closed spec fn spec_user(&self) -> User {
        self.user
    }

    pub closed spec fn spec_authenticated_at(&self) -> SystemTime {
        self.authenticated_at
    }

    pub closed spec fn spec_last_query_at(&self) -> Option<SystemTime> {
        self.last_query_at
    }

    /// The context of `user`, authenticated now and with no query yet.
    pub fn new(user: User) -> (r: Self)
        ensures
            r.spec_user() == user,
            r.spec_last_query_at() is None,
    {
        Self { user, authenticated_at: system_time_now(), last_query_at: None }
    }

    pub fn get_user(&self) -> (r: &User)
        ensures
            *r == self.spec_user(),
    {
        &self.user
    }

    pub fn get_authenticated_at(&self) -> (r: &SystemTime)
        ensures
            *r == self.spec_authenticated_at(),
    {
        &self.authenticated_at
    }

    pub fn get_last_query_at(&self) -> (r: &Option<SystemTime>)
        ensures
            *r == self.spec_last_query_at(),
    {
        &self.last_query_at
    }

    /// Records a query now, and gives its time.
    pub fn log_query(&mut self) -> (r: SystemTime)
        ensures
            final(self).spec_last_query_at() == Some(r),
            final(self).spec_user() == old(self).spec_user(),
            final(self).spec_authenticated_at() == old(self).spec_authenticated_at(),
            same_session(*old(self), *final(self)),
    {
        let time = system_time_now();
        self.last_query_at = Some(time);
        time
    }
}

/// How a context may change between two of its states: its user and the
/// time of its authentication stay.
pub open spec fn same_session(before: UserContext, after: UserContext) -> bool {
    &&& after.spec_user() == before.spec_user()
    &&& after.spec_authenticated_at() == before.spec_authenticated_at()
}

/// Over any run of queries logged on a context, its user and the time of
/// its authentication stay as they were.
pub proof fn lemma_queries_keep_session(run: Seq<UserContext>)
    requires
        forall|i: int| 0 <= i < run.len() - 1 ==> #[trigger] same_session(run[i], run[i + 1]),
    ensures
        run.len() > 0 ==> same_session(run[0], run.last()),
    decreases run.len(),
{
    if run.len() > 1 {
        let d = run.drop_last();
        assert forall|i: int| 0 <= i < d.len() - 1 implies #[trigger] same_session(d[i], d[i + 1]) by {
            assert(same_session(run[i], run[i + 1]));
        }
        lemma_queries_keep_session(d);
        let i = run.len() - 2;
        assert(same_session(run[i], run[i + 1]));
        assert(d.last() == run[i]);
        assert(run.last() == run[i + 1]);
    }
}

/// What `bcrypt::verify` gives for a password and a stored hash: whether
/// they match, or `None` where the hash cannot be read.
pub uninterp spec fn bcrypt_verify_result(password: Seq<char>, hash: Seq<char>) -> Option<bool>;

/// `bcrypt::verify`: whether `password` hashes to `hash` with the salt and
/// cost that `hash` holds; `None` where `hash` is not a bcrypt hash.
#[verifier::external_body]
fn bcrypt_verify(password: &str, hash: &str) -> (r: Option<bool>)
    ensures
        r == bcrypt_verify_result(password@, hash@),
{
    bcrypt::verify(password, hash).ok()
}

/// The stored fields of a user, as the users table of a scheme holds them.
#[derive(Debug)]
pub struct UserRow {
    pub hashed_password: String,
    pub created_at: u64,
    pub updated_at: u64,
    pub is_admin: Option<bool>,
    pub is_super_admin: Option<bool>,
}

/// The map of an outside crate that the sessions are kept in.
#[verifier::external_type_specification]
#[verifier::external_body]
#[verifier::reject_recursive_types(K)]
#[verifier::reject_recursive_types(V)]
#[verifier::reject_recursive_types(S)]
pub struct ExDashMap<K, V, S>(DashMap<K, V, S>);

/// What a session map holds: for each token text, the slot of its session.
pub uninterp spec fn session_slots(m: DashMap<String, u64>) -> Map<Seq<char>, u64>;

/// `DashMap::new`: a map that holds nothing.
#[verifier::external_body]
fn session_map_new() -> (r: DashMap<String, u64>)
    ensures
        session_slots(r).dom() == Set::<Seq<char>>::empty(),
{
    DashMap::new()
}

/// `DashMap::get`, the value copied out of the guard it gives: the value
/// stored under `key`, if there is one. Keys are compared as texts.
#[verifier::external_body]
fn session_map_get(m: &DashMap<String, u64>, key: &str) -> (r: Option<u64>)
    ensures
        r == session_slots(*m).get(key@),
{
    match m.get(key) {
        Some(entry) => Some(*entry.value()),
        None => None,
    }
}

/// `DashMap::insert`: stores `value` under `key`, in place of what was
/// stored there; the other keys keep their values.
#[verifier::external_body]
fn session_map_insert(m: &mut DashMap<String, u64>, key: String, value: u64)
    ensures
        session_slots(*final(m)) == session_slots(*old(m)).insert(key@, value),
{
    m.insert(key, value);
}

/// The authenticated sessions: the contexts, and for each token text the
/// slot of its context.
pub struct AuthManager {
    authenticated_users: DashMap<String, u64>,
    contexts: Vec<UserContext>,
}

impl AuthManager {
    /// Every stored slot names a context.
    pub closed spec fn wf(&self) -> bool {
        forall|t: Seq<char>|
            #[trigger] session_slots(self.authenticated_users).dom().contains(t) ==> session_slots(
                self.authenticated_users,
            )[t] < self.contexts@.len()
    }

    /// The session of `token`, if there is one.
    pub closed spec fn session(&self, token: Seq<char>) -> Option<UserContext> {
        match session_slots(self.authenticated_users).get(token) {
            Some(slot) => if slot < self.contexts@.len() {
                Some(self.contexts@[slot as int])
            } else {
                None
            },
            None => None,
        }
    }

    /// No session.
    pub fn new() -> (r: Self)
        ensures
            r.wf(),
            forall|t: Seq<char>| r.session(t) is None,
    {
        AuthManager { authenticated_users: session_map_new(), contexts: Vec::new() }
    }

    /// The session of a token, or an error where there is none.
    pub fn check_token(&self, uuid: &str) -> (r: Result<&UserContext, ()>)
        ensures
            match self.session(uuid@) {
                Some(c) => r == Ok::<&UserContext, ()>(&c),
                None => r is Err,
            },
    {
        match session_map_get(&self.authenticated_users, uuid) {
            Some(slot) => {
                if slot < self.contexts.len() as u64 {
                    Ok(&self.contexts[slot as usize])
                } else {
                    Err(())
                }
            },
            None => Err(()),
        }
    }

    /// The user of `args` where the stored row of that identifier in that
    /// scheme (`row`, `None` where there is none) holds a hash that the
    /// password matches: the stored times and flags (false where unset) and
    /// no role. A stored hash that cannot be read matches no password.
    pub fn verify_user(&self, args: VerifyUserArgs, row: Option<UserRow>) -> (r: Option<User>)
        ensures
            r is Some <==> (row matches Some(u) && bcrypt_verify_result(args.password@, u.hashed_password@) == Some(true)),
            r matches Some(user) ==> verified_user(user, args.identifier@, args.scheme_name@, row->0),
    {
        match row {
            None => None,
            Some(u) => {
                let is_password_correct = bcrypt_verify(args.password.as_str(), u.hashed_password.as_str());
                match is_password_correct {
                    Some(true) => Some(User {
                        identifier: args.identifier,
                        hashed_password: u.hashed_password,
                        created_at: u.created_at,
                        updated_at: u.updated_at,
                        is_admin: match u.is_admin {
                            Some(b) => b,
                            None => false,
                        },
                        is_super_admin: match u.is_super_admin {
                            Some(b) => b,
                            None => false,
                        },
                        roles: Vec::new(),
                        scheme: args.scheme_name,
                    }),
                    _ => None,
                }
            },
        }
    }

    /// The default account of a scheme, to be inserted where the scheme has
    /// no user of that name yet (`existing` is the stored row of that name,
    /// if any): an administrator and super administrator with the default
    /// credentials, no role, in that scheme. `None` where a row exists, or
    /// where `create_user` cannot make the user.
    pub fn init_default_user(
        existing: Option<UserRow>,
        username: String,
        password: String,
        scheme: String,
    ) -> (r: Option<User>)
        ensures
            existing is Some ==> r is None,
            r matches Some(u) ==> {
                &&& u.identifier@ == username@
                &&& bcrypt_verify_result(password@, u.hashed_password@) == Some(true)
                &&& u.created_at == u.updated_at
                &&& u.is_admin
                &&& u.is_super_admin
                &&& u.roles@.len() == 0
                &&& u.scheme@ == scheme@
            },
    {
        match existing {
            Some(_) => None,
            None => create_user(username, password, true, true, Vec::new(), scheme),
        }
    }

    /// Authenticates the user of `args` against their stored row: on
    /// success a fresh token opens a session for them, which `check_token`
    /// then finds; otherwise nothing changes.
    pub fn authenticate(&mut self, args: VerifyUserArgs, row: Option<UserRow>) -> (r: Result<UuidBytes, ()>)
        requires
            old(self).wf(),
        ensures
            final(self).wf(),
            r is Ok <==> (row matches Some(u) && bcrypt_verify_result(args.password@, u.hashed_password@) == Some(true)),
            r matches Ok(t) ==> {
                &&& final(self).session(uuid_text(t@)) matches Some(c) && verified_user(
                    c.spec_user(),
                    args.identifier@,
                    args.scheme_name@,
                    row->0,
                ) && c.spec_last_query_at() is None
                &&& forall|k: Seq<char>| k != uuid_text(t@) ==> final(self).session(k) == old(self).session(k)
            },
            r is Err ==> forall|k: Seq<char>| final(self).session(k) == old(self).session(k),
    {
        let ghost identifier = args.identifier@;
        let ghost scheme = args.scheme_name@;
        let user = self.verify_user(args, row);
        match user {
            None => Err(()),
            Some(user) => {
                let token = new_uuid_v4();
                let ctx = UserContext::new(user);
                let key = uuid_to_string(&token);
                self.insert_session(key, ctx);
                Ok(token)
            },
        }
    }

    /// Sets the session of `key`, in place of any it had.
    fn insert_session(&mut self, key: String, ctx: UserContext)
        requires
            old(self).wf(),
        ensures
            final(self).wf(),
            final(self).session(key@) == Some(ctx),
            forall|k: Seq<char>| k != key@ ==> final(self).session(k) == old(self).session(k),
    {
        let slot = self.contexts.len() as u64;
        let ghost k0 = key@;
        let ghost before = self.contexts@;
        self.contexts.push(ctx);
        session_map_insert(&mut self.authenticated_users, key, slot);
        proof {
            assert forall|k: Seq<char>| k != k0 implies self.session(k) == old(self).session(k) by {
                assert(session_slots(self.authenticated_users).get(k) == session_slots(old(self).authenticated_users).get(
                    k,
                ));
                match session_slots(old(self).authenticated_users).get(k) {
                    Some(sl) => {
                        if sl < before.len() {
                            assert(self.contexts@[sl as int] == before[sl as int]);
                        }
                    },
                    None => {},
                }
            }
        }
    }
}

} // verus!
