//! What the connection service answers, and which requests carry a session.
use vstd::prelude::*;
use crate::ids::{uuid_to_string, uuid_text};
use crate::users::{bcrypt_verify_result, verified_user, AuthManager, UserContext, UserRow, VerifyUserArgs};

verus! {

/// The request header that carries a session token.
pub const AUTH_HEADER: &'static str = "x-sjs-auth";

/// What a client sends to open a connection to a scheme.
#[derive(Debug)]
pub struct CheckConnectionRequest {
    pub database: String,
    pub username: String,
    pub password: String,
}

/// What the client gets back: whether it is connected, and then the token
/// of its session.
#[derive(Debug)]
pub struct CheckConnectionResponse {
    pub is_connected: bool,
    pub token: Option<String>,
}

/// Answers a connection request, given the stored row of that user in that
/// scheme (`None` where there is none): where the password matches, a new
/// session is opened and its token, the text of a new UUID, handed back;
/// otherwise the client is not connected and no session changes.
pub fn check_connection(
    auth_manager: &mut AuthManager,
    request: CheckConnectionRequest,
    row: Option<UserRow>,
) -> (r: CheckConnectionResponse)
    requires
        old(auth_manager).wf(),
    ensures
        final(auth_manager).wf(),
        r.is_connected <==> (row matches Some(u) && bcrypt_verify_result(request.password@, u.hashed_password@)
            == Some(true)),
        r.is_connected <==> r.token is Some,
        r.token matches Some(t) ==> {
            &&& exists|id: Seq<u8>| t@ == #[trigger] uuid_text(id)
            &&& final(auth_manager).session(t@) matches Some(c) && verified_user(
                c.spec_user(),
                request.username@,
                request.database@,
                row->0,
            ) && c.spec_last_query_at() is None
            &&& forall|k: Seq<char>| k != t@ ==> final(auth_manager).session(k) == old(auth_manager).session(k)
        },
        !r.is_connected ==> forall|k: Seq<char>| final(auth_manager).session(k) == old(auth_manager).session(k),
{
    let args = VerifyUserArgs {
        scheme_name: request.database,
        identifier: request.username,
        password: request.password,
    };
    match auth_manager.authenticate(args, row) {
        Ok(token) => {
            let text = uuid_to_string(&token);
            assert(text@ == uuid_text(token@));
            CheckConnectionResponse { is_connected: true, token: Some(text) }
        },
        Err(_) => CheckConnectionResponse { is_connected: false, token: None },
    }
}

/// Lets a request through with the session of the token it carries under
/// `AUTH_HEADER` (`None` where it carries none): a request without a token,
/// or with one of no session, is refused.
pub fn intercept<'a>(auth_manager: &'a AuthManager, auth_header: Option<&str>) -> (r: Result<&'a UserContext, ()>)
    ensures
        match auth_header {
            None => r is Err,
            Some(t) => match auth_manager.session(t@) {
                Some(c) => r == Ok::<&UserContext, ()>(&c),
                None => r is Err,
            },
        },
{
    match auth_header {
        None => Err(()),
        Some(token) => auth_manager.check_token(token),
    }
}

} // verus!
