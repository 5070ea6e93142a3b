use schemajs::services::{check_connection, intercept, CheckConnectionRequest, AUTH_HEADER};
use schemajs::users::{AuthManager, UserRow};

fn stored_row(password: &str) -> Option<UserRow> {
    Some(UserRow {
        hashed_password: bcrypt::hash(password, 4).unwrap(),
        created_at: 10,
        updated_at: 20,
        is_admin: Some(false),
        is_super_admin: None,
    })
}

fn request(password: &str) -> CheckConnectionRequest {
    CheckConnectionRequest {
        database: "public".to_string(),
        username: "admin".to_string(),
        password: password.to_string(),
    }
}

#[test]
fn a_connection_token_opens_the_session_of_its_user() {
    let mut auth = AuthManager::new();
    let response = check_connection(&mut auth, request("admin"), stored_row("admin"));
    assert!(response.is_connected);
    let token = response.token.unwrap();
    assert_eq!(token.len(), 36);
    let ctx = intercept(&auth, Some(token.as_str())).unwrap();
    assert_eq!(ctx.get_user().identifier, "admin");
    assert_eq!(ctx.get_user().scheme, "public");
    assert_eq!(ctx.get_user().created_at, 10);
    assert_eq!(ctx.get_user().updated_at, 20);
    assert!(!ctx.get_user().is_admin);
    assert!(!ctx.get_user().is_super_admin);
    assert!(ctx.get_user().roles.is_empty());
    assert!(ctx.get_last_query_at().is_none());
}

#[test]
fn refused_connections_open_no_session() {
    let mut auth = AuthManager::new();
    let response = check_connection(&mut auth, request("wrong"), stored_row("admin"));
    assert!(!response.is_connected);
    assert!(response.token.is_none());
    let response = check_connection(&mut auth, request("admin"), None);
    assert!(!response.is_connected);
    assert!(response.token.is_none());
}

#[test]
fn requests_without_a_known_token_are_refused() {
    let mut auth = AuthManager::new();
    assert!(intercept(&auth, None).is_err());
    assert!(intercept(&auth, Some("00000000-0000-0000-0000-000000000000")).is_err());
    let token = check_connection(&mut auth, request("admin"), stored_row("admin")).token.unwrap();
    assert!(intercept(&auth, Some(token.as_str())).is_ok());
    assert!(intercept(&auth, Some("not a token")).is_err());
    assert_eq!(AUTH_HEADER, "x-sjs-auth");
}
