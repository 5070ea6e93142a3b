use schemajs::config::{DataShardConfig, KvShardConfig, TempDataShardConfig, TempOffsetTypes};
use schemajs::shard::TempShardConfig;
use schemajs::graph::{resolve_mapped, MappedResolution, extract_file_specifiers, ensure_unix_relative_path, graph_valid, graph_valid_with_cli_options, DecoratorType, GraphError, GraphErrorKind, GraphValidOptions};
use schemajs::helpers::{get_base_path, is_js_or_ts, Helper, HelperDbContext, HelperType, SjsHelpersContainer, SjsTableHelpers};
use schemajs::engine::ValidationError;
use schemajs::index::{get_entry_size, IndexDataUnit, IndexError, IndexKey, IndexType, StringIndexKey};
use schemajs::users::{AuthManager, UserRow, create_user, user_from_parts, Role, TableAction, UserContext, VerifyUserArgs, PermissionTableContainer, INTERNAL_USER_TABLE_NAME};
use schemajs::utils::{flatten_with_callback, is_zero_aligned, sha256_to_string, to_sha256};

#[test]
fn sha256_hex_text() {
    assert_eq!(sha256_to_string(vec![0x00, 0x0f, 0xab, 0xff]), "000fabff");
    assert_eq!(sha256_to_string(vec![]), "");
    let digest = to_sha256(b"abc".to_vec());
    assert_eq!(
        sha256_to_string(digest.to_vec()),
        "ba7816bf8f01cfea414140de5dae2223b00361a396177a9cb410ff61f20015ad"
    );
}

#[test]
fn flatten_with_and_without_callback() {
    let parts: [&[u8]; 3] = [b"ab", b"", b"c"];
    let none: Option<fn(&[u8]) -> Vec<u8>> = None;
    assert_eq!(flatten_with_callback(&parts, none), b"abc".to_vec());
    let doubled = flatten_with_callback(&parts, Some(|s: &[u8]| {
        let mut v = s.to_vec();
        v.extend_from_slice(s);
        v
    }));
    assert_eq!(doubled, b"ababcc".to_vec());
}

#[test]
fn zero_check() {
    assert!(is_zero_aligned(&[0u8; 40]));
    assert!(is_zero_aligned(&[]));
    let mut v = vec![0u8; 33];
    v[32] = 1;
    assert!(!is_zero_aligned(&v));
}

#[test]
fn index_units() {
    let unit = IndexDataUnit::new(b"key".to_vec());
    assert_eq!(unit.item_size, 3);
    let bytes = unit.encode();
    assert_eq!(bytes, vec![3, 0, 0, 0, 0, 0, 0, 0, b'k', b'e', b'y']);
    let back = IndexDataUnit::decode(&bytes).unwrap();
    assert_eq!(back.item_size, 3);
    assert_eq!(back.data, b"key".to_vec());
    assert_eq!(IndexDataUnit::decode(&bytes[0..5]).err(), Some(IndexError::UnrecognizedItemSize));
    assert_eq!(IndexDataUnit::decode(&bytes[0..10]).err(), Some(IndexError::InvalidItem));
    let mut longer = bytes.clone();
    longer.extend_from_slice(b"zz");
    assert_eq!(IndexDataUnit::decode(&longer).unwrap().data, b"key".to_vec());
    assert_eq!(IndexDataUnit::header_size(), 8);
    assert_eq!(get_entry_size(32, 8), 8 + 40 + 16);
    assert_eq!(IndexType::Hash, IndexType::Hash);
}

#[test]
fn string_index_keys() {
    let key = StringIndexKey("user1".to_string());
    let bytes = key.clone().into_bytes();
    assert_eq!(bytes, b"user1".to_vec());
    assert_eq!(StringIndexKey::try_from_bytes(bytes), Some(key.clone()));
    assert_eq!(StringIndexKey::try_from_bytes(vec![0xff, 0xfe]), None);
    let unit = IndexDataUnit::new("ñu".as_bytes().to_vec());
    assert_eq!(StringIndexKey::try_from_unit(unit).unwrap().into_string(), "ñu");
    assert!(StringIndexKey("a".to_string()) < StringIndexKey("b".to_string()));
}

#[test]
fn string_index_keys_as_index_keys() {
    let key = <StringIndexKey as IndexKey>::from_key_bytes(b"city7".to_vec()).unwrap();
    assert_eq!(key, StringIndexKey("city7".to_string()));
    assert_eq!(<StringIndexKey as IndexKey>::from_key_bytes(vec![0xc3]), None);
    let unit = IndexDataUnit::new(b"user3".to_vec());
    let from_unit = <StringIndexKey as IndexKey>::from_index_unit(unit).unwrap();
    assert_eq!(from_unit.into_key_bytes(), b"user3".to_vec());
}

#[test]
fn users_and_roles() {
    let roles = vec![
        Role::TablePermissions(vec![PermissionTableContainer {
            table_name: "users".to_string(),
            actions: vec![TableAction::View, TableAction::Modify],
        }]),
        Role::CanCreateUsers,
    ];
    let user = create_user("admin".to_string(), "secret".to_string(), true, false, roles, "public".to_string()).unwrap();
    assert_eq!(user.identifier, "admin");
    assert_eq!(user.created_at, user.updated_at);
    assert!(user.is_admin);
    assert!(!user.is_super_admin);
    assert_eq!(user.roles.len(), 2);
    assert_eq!(user.scheme, "public");
    assert!(bcrypt::verify("secret", &user.hashed_password).unwrap());
    assert_eq!(INTERNAL_USER_TABLE_NAME, "sjs_users");
    let args = VerifyUserArgs { scheme_name: "public".to_string(), identifier: "admin".to_string(), password: "secret".to_string() };
    assert_eq!(args.identifier, "admin");
}

#[test]
fn user_context_queries() {
    let user = create_user("u".to_string(), "p".to_string(), false, false, vec![], "s".to_string()).unwrap();
    let mut ctx = UserContext::new(user);
    assert!(ctx.get_last_query_at().is_none());
    assert_eq!(ctx.get_user().identifier, "u");
    let authenticated_at = *ctx.get_authenticated_at();
    let t = ctx.log_query();
    assert_eq!(*ctx.get_last_query_at(), Some(t));
    assert_eq!(*ctx.get_authenticated_at(), authenticated_at);
}

#[test]
fn decorators_and_specifiers() {
    assert!(DecoratorType::Tc39.is_use_decorators_proposal());
    assert!(!DecoratorType::Tc39.is_use_ts_decorators());
    assert!(DecoratorType::Typescript.is_use_ts_decorators());
    assert!(!DecoratorType::Typescript.is_emit_metadata());
    assert!(DecoratorType::TypescriptWithMetadata.is_use_ts_decorators());
    assert!(DecoratorType::TypescriptWithMetadata.is_emit_metadata());
    assert_eq!(DecoratorType::default(), DecoratorType::Typescript);
    let specs = vec![
        "file:///a/b.ts".to_string(),
        "https://x/y.js".to_string(),
        "file:".to_string(),
        "fil".to_string(),
    ];
    assert_eq!(extract_file_specifiers(&specs), vec!["file:///a/b.ts".to_string(), "file:".to_string()]);
    assert_eq!(ensure_unix_relative_path("a/b"), "a/b");
    let opts = GraphValidOptions { check_js: false, follow_type_only: true, is_vendoring: false };
    assert!(opts.follow_type_only);
}

#[test]
fn module_paths_and_helpers() {
    assert!(is_js_or_ts("/x/mod.ts"));
    assert!(is_js_or_ts("mod.js"));
    assert!(!is_js_or_ts("/x/mod.tsx"));
    assert!(!is_js_or_ts("/x/.ts"));
    assert!(!is_js_or_ts("/x/ts"));
    assert!(!is_js_or_ts("/x/mod.ts/"));
    assert!(is_js_or_ts("/x/a.b.js"));
    assert_eq!(get_base_path("/home/u/.local/share"), "/home/u/.local/share/.scheme-js");
    assert_eq!(get_base_path("/data/"), "/data/.scheme-js");
    assert!(HelperType::InsertHook.is_insert_hook());
    assert!(!HelperType::CustomQuery.is_insert_hook());
    assert!(HelperType::CustomQuery.is_custom_query());
    let ctx = HelperDbContext { db: Some("public".to_string()), table: None };
    assert_eq!(ctx.clone().db, Some("public".to_string()));
    assert_eq!(ValidationError::MissingColumn("id".to_string()).message(), "Missing column 'id'");
    assert_eq!(ValidationError::ExpectedBoolean("enabled".to_string()).message(), "Expected a boolean for column 'enabled'");
}

#[test]
fn shard_configurations() {
    assert_eq!(TempOffsetTypes::WALBased.get_real_offset(), Some(1));
    assert_eq!(TempOffsetTypes::Custom(Some(7)).get_real_offset(), Some(7));
    assert_eq!(TempOffsetTypes::Custom(None).get_real_offset(), None);
    let t = TempDataShardConfig { max_offsets: TempOffsetTypes::WALBased };
    assert_eq!(t.to_config(), DataShardConfig { max_offsets: Some(1) });
    let k = KvShardConfig { value_size: 8, max_capacity: None };
    assert_eq!(k.value_size, 8);
}

#[test]
fn authentication_sessions() {
    let hash = bcrypt::hash("pw", 4).unwrap();
    let row = || Some(UserRow { hashed_password: hash.clone(), created_at: 5, updated_at: 6, is_admin: Some(true), is_super_admin: None });
    let args = |p: &str| VerifyUserArgs { scheme_name: "public".to_string(), identifier: "admin".to_string(), password: p.to_string() };
    let mut auth = AuthManager::new();
    assert!(auth.check_token("nothing").is_err());
    let user = auth.verify_user(args("pw"), row()).unwrap();
    assert_eq!(user.created_at, 5);
    assert_eq!(user.updated_at, 6);
    assert!(user.is_admin);
    assert!(!user.is_super_admin);
    assert!(user.roles.is_empty());
    assert!(auth.verify_user(args("wrong"), row()).is_none());
    assert!(auth.verify_user(args("pw"), None).is_none());
    let bad = Some(UserRow { hashed_password: "not a hash".to_string(), created_at: 0, updated_at: 0, is_admin: None, is_super_admin: None });
    assert!(auth.verify_user(args("pw"), bad).is_none());
    assert!(auth.authenticate(args("wrong"), row()).is_err());
    let token = auth.authenticate(args("pw"), row()).unwrap();
    let text = uuid::Uuid::from_bytes(token).to_string();
    let ctx = auth.check_token(&text).unwrap();
    assert_eq!(ctx.get_user().identifier, "admin");
    assert_eq!(ctx.get_user().scheme, "public");
    assert_eq!(ctx.get_user().hashed_password, hash);
    assert_eq!(ctx.get_user().created_at, 5);
    assert_eq!(ctx.get_user().updated_at, 6);
    assert!(ctx.get_user().is_admin);
    assert!(!ctx.get_user().is_super_admin);
    assert!(ctx.get_user().roles.is_empty());
    assert!(ctx.get_last_query_at().is_none());
    let token2 = auth.authenticate(args("pw"), row()).unwrap();
    assert!(auth.check_token(&uuid::Uuid::from_bytes(token2).to_string()).is_ok());
    assert!(auth.check_token(&text).is_ok());
}

fn graph_error(kind: GraphErrorKind, message: &str) -> GraphError {
    GraphError { kind, class: "TypeError".to_string(), message: message.to_string() }
}

#[test]
fn graph_checks_when_vendoring_skip_lenient_errors() {
    let errors = vec![
        graph_error(GraphErrorKind::MissingDynamic, "missing dynamic"),
        graph_error(GraphErrorKind::InvalidLocalImport, "local import"),
        graph_error(GraphErrorKind::Resolution, "unresolved"),
        graph_error(GraphErrorKind::Module, "bad module"),
    ];
    let vendoring = GraphValidOptions { check_js: false, follow_type_only: true, is_vendoring: true };
    let e = graph_valid(&errors, vendoring).unwrap_err();
    assert_eq!(e.kind, GraphErrorKind::Resolution);
    assert_eq!(e.message, "unresolved");
    let not_vendoring = GraphValidOptions { check_js: false, follow_type_only: true, is_vendoring: false };
    let e = graph_valid(&errors, not_vendoring).unwrap_err();
    assert_eq!(e.message, "missing dynamic");
    let lenient = vec![
        graph_error(GraphErrorKind::InvalidDowngrade, "downgrade"),
        graph_error(GraphErrorKind::MissingDynamic, "missing dynamic"),
    ];
    assert!(graph_valid(&lenient, vendoring).is_ok());
    assert!(graph_valid(&lenient, not_vendoring).is_err());
    assert!(graph_valid(&Vec::new(), not_vendoring).is_ok());
}

#[test]
fn graph_checks_from_the_command_line_report_the_first_error() {
    assert!(graph_valid_with_cli_options(&Vec::new()).is_ok());
    let errors = vec![
        graph_error(GraphErrorKind::InvalidDowngrade, "downgrade"),
        graph_error(GraphErrorKind::Other, "other"),
    ];
    let e = graph_valid_with_cli_options(&errors).unwrap_err();
    assert_eq!(e.kind, GraphErrorKind::InvalidDowngrade);
    assert_eq!(e.class, "TypeError");
}

#[test]
fn default_users_are_made_only_where_missing() {
    let user = AuthManager::init_default_user(None, "admin".to_string(), "admin".to_string(), "public".to_string()).unwrap();
    assert_eq!(user.identifier, "admin");
    assert!(user.is_admin && user.is_super_admin);
    assert!(user.roles.is_empty());
    assert_eq!(user.scheme, "public");
    assert_eq!(user.created_at, user.updated_at);
    assert!(bcrypt::verify("admin", &user.hashed_password).unwrap());
    let existing = Some(UserRow { hashed_password: user.hashed_password.clone(), created_at: 1, updated_at: 1, is_admin: Some(true), is_super_admin: Some(true) });
    assert!(AuthManager::init_default_user(existing, "admin".to_string(), "admin".to_string(), "public".to_string()).is_none());
}

#[test]
fn import_map_resolutions() {
    let mapped = resolve_mapped::<String>(Some(Ok("file:///src/lib.ts".to_string()))).unwrap();
    assert_eq!(mapped, MappedResolution::ImportMap("file:///src/lib.ts".to_string()));
    assert_eq!(mapped.into_specifier(), Some("file:///src/lib.ts".to_string()));
    let none = resolve_mapped::<String>(None).unwrap();
    assert_eq!(none.clone(), MappedResolution::NotMapped);
    assert_eq!(none.into_specifier(), None);
    assert_eq!(resolve_mapped(Some(Err("bad map".to_string()))), Err("bad map".to_string()));
}

fn helper(identifier: &str, internal_type: HelperType, func: u32) -> Helper<u32> {
    Helper { identifier: identifier.to_string(), internal_type, func }
}

fn table_helpers() -> SjsTableHelpers<u32> {
    SjsTableHelpers(vec![(
        "public".to_string(),
        vec![(
            "users".to_string(),
            SjsHelpersContainer::new(vec![
                helper("byName", HelperType::CustomQuery, 1),
                helper("audit", HelperType::InsertHook, 2),
                helper("byName", HelperType::CustomQuery, 3),
                helper("stamp", HelperType::InsertHook, 4),
            ]),
        )],
    )])
}

#[test]
fn custom_query_helpers_are_found_by_identifier() {
    let helpers = table_helpers();
    assert_eq!(helpers.find_custom_query_helper("public", "users", "byName").unwrap().func, 1);
    assert_eq!(helpers.find_custom_query_helper("public", "users", "stamp").unwrap().func, 4);
    assert!(helpers.find_custom_query_helper("public", "users", "missing").is_none());
    assert!(helpers.find_custom_query_helper("public", "posts", "byName").is_none());
    assert!(helpers.find_custom_query_helper("other", "users", "byName").is_none());
}

#[test]
fn insert_hooks_are_listed_in_order() {
    let helpers = table_helpers();
    let hooks = helpers.find_hook_helper("public", "users", HelperType::InsertHook).unwrap();
    let funcs: Vec<u32> = hooks.iter().map(|h| h.func).collect();
    assert_eq!(funcs, vec![2, 4]);
    assert!(helpers.find_hook_helper("public", "users", HelperType::CustomQuery).is_none());
    assert!(helpers.find_hook_helper("public", "posts", HelperType::InsertHook).is_none());
    assert!(helpers.find_hook_helper("other", "users", HelperType::InsertHook).is_none());
}

#[test]
fn users_are_made_of_a_hash_and_a_time() {
    let user = user_from_parts("u".to_string(), Some("h".to_string()), Some(7), true, false, vec![], "s".to_string()).unwrap();
    assert_eq!(user.hashed_password, "h");
    assert_eq!((user.created_at, user.updated_at), (7, 7));
    assert!(user.is_admin && !user.is_super_admin);
    assert!(user_from_parts("u".to_string(), None, Some(7), true, false, vec![], "s".to_string()).is_none());
    assert!(user_from_parts("u".to_string(), Some("h".to_string()), None, true, false, vec![], "s".to_string()).is_none());
}
